//! Big-endian numbers in runs of bytes.

use vstd::arithmetic::power2::*;
use vstd::prelude::*;

verus! {

/// The low `n` bytes of a number, most significant first.
pub open spec fn be_bytes(v: nat, n: nat) -> Seq<u8>
    decreases n,
{
    if n == 0 {
        Seq::empty()
    } else {
        be_bytes(v / 256, (n - 1) as nat).push((v % 256) as u8)
    }
}

/// The number that bytes, most significant first, stand for.
pub open spec fn be_value(s: Seq<u8>) -> nat
    decreases s.len(),
{
    if s.len() == 0 {
        0
    } else {
        256 * be_value(s.drop_last()) + s.last() as nat
    }
}

/// The number in `n` bytes from `at` on.
pub open spec fn be_at(s: Seq<u8>, at: int, n: int) -> nat {
    be_value(s.subrange(at, at + n))
}

pub proof fn lemma_be_len(v: nat, n: nat)
    ensures
        be_bytes(v, n).len() == n,
    decreases n,
{
    if n > 0 {
        lemma_be_len(v / 256, (n - 1) as nat);
    }
}

pub proof fn lemma_be_bound(s: Seq<u8>)
    ensures
        be_value(s) < pow2(8 * s.len()),
    decreases s.len(),
{
    lemma2_to64();
    if s.len() > 0 {
        lemma_be_bound(s.drop_last());
        lemma_pow2_adds((8 * (s.len() - 1)) as nat, 8);
    }
}

/// A number that fits is read back from its bytes.
pub proof fn be_value_of_bytes(v: nat, n: nat)
    requires
        v < pow2(8 * n),
    ensures
        be_value(be_bytes(v, n)) == v,
    decreases n,
{
    lemma2_to64();
    if n > 0 {
        let m = (n - 1) as nat;
        lemma_pow2_adds(8 * m, 8);
        assert(v / 256 < pow2(8 * m));
        be_value_of_bytes(v / 256, m);
        assert(be_bytes(v, n).drop_last() =~= be_bytes(v / 256, m));
    }
}

/// Bytes are made again from the number that they stand for.
pub proof fn be_bytes_of_value(s: Seq<u8>)
    ensures
        be_bytes(be_value(s), s.len()) == s,
    decreases s.len(),
{
    if s.len() > 0 {
        be_bytes_of_value(s.drop_last());
        assert(be_value(s) / 256 == be_value(s.drop_last()));
        assert(be_value(s) % 256 == s.last());
        assert(s.drop_last().push(s.last()) =~= s);
    } else {
        assert(s =~= Seq::empty());
    }
}

/// Where a run of bytes holds another at `at`, a number in it is the one written there.
pub proof fn lemma_be_at(s: Seq<u8>, at: int, v: nat, n: nat)
    requires
        0 <= at,
        at + n <= s.len(),
        s.subrange(at, at + n) == be_bytes(v, n),
        v < pow2(8 * n),
    ensures
        be_at(s, at, n as int) == v,
{
    be_value_of_bytes(v, n);
}

/// Appends the low `n` bytes of a number.
pub fn push_be(out: &mut Vec<u8>, v: u64, n: u8)
    ensures
        final(out)@ == old(out)@ + be_bytes(v as nat, n as nat),
    decreases n,
{
    if n > 0 {
        push_be(out, v / 256, n - 1);
        out.push((v % 256) as u8);
        assert(out@ =~= old(out)@ + be_bytes(v as nat, n as nat));
    } else {
        assert(out@ + be_bytes(v as nat, 0) =~= out@);
    }
}

/// Reads the number in `n` bytes from `at` on.
pub fn get_be(s: &[u8], at: usize, n: usize) -> (r: u64)
    requires
        n <= 8,
        at + n <= s@.len(),
    ensures
        r == be_at(s@, at as int, n as int),
        r < pow2((8 * n) as nat),
{
    let len = s.len();
    let mut acc: u64 = 0;
    let mut i: usize = 0;
    assert(s@.subrange(at as int, at as int) =~= Seq::empty());
    while i < n
        invariant
            i <= n <= 8,
            at + n <= len == s@.len(),
            acc == be_value(s@.subrange(at as int, at + i)),
        decreases n - i,
    {
        proof {
            let part = s@.subrange(at as int, at + i + 1);
            assert(part.drop_last() =~= s@.subrange(at as int, at + i));
            lemma_be_bound(s@.subrange(at as int, at + i));
            lemma2_to64_rest();
            if 8 * i < 56 {
                lemma_pow2_strictly_increases((8 * i) as nat, 56);
            }
        }
        acc = acc * 256 + s[at + i] as u64;
        i = i + 1;
    }
    proof {
        lemma_be_bound(s@.subrange(at as int, at + n));
    }
    acc
}

/// Reads a 16-bit number.
pub fn get_u16be(b: &[u8]) -> (r: u16)
    requires
        b@.len() >= 2,
    ensures
        r == be_at(b@, 0, 2),
{
    proof {
        lemma2_to64();
    }
    get_be(b, 0, 2) as u16
}

/// Reads a 24-bit number.
pub fn get_u24be(b: &[u8]) -> (r: u32)
    requires
        b@.len() >= 3,
    ensures
        r == be_at(b@, 0, 3),
{
    proof {
        lemma2_to64();
    }
    get_be(b, 0, 3) as u32
}

/// Reads a 48-bit number.
pub fn get_u48be(b: &[u8]) -> (r: u64)
    requires
        b@.len() >= 6,
    ensures
        r == be_at(b@, 0, 6),
{
    get_be(b, 0, 6)
}

/// Writes the number in the first six bytes of a run.
pub fn put_u48be(b: &mut Vec<u8>, at: usize, v: u64)
    requires
        at + 6 <= old(b)@.len(),
    ensures
        final(b)@ == old(b)@.take(at as int) + be_bytes(v as nat, 6) + old(b)@.skip(at + 6),
{
    put_be(b, at, v, 6);
}

/// Writes the low `n` bytes of a number over those from `at` on.
pub fn put_be(b: &mut Vec<u8>, at: usize, v: u64, n: u8)
    requires
        at + n <= old(b)@.len(),
    ensures
        final(b)@ == old(b)@.take(at as int) + be_bytes(v as nat, n as nat) + old(b)@.skip(at + n),
    decreases n,
{
    if n == 0 {
        assert(b@ =~= b@.take(at as int) + be_bytes(v as nat, 0) + b@.skip(at as int));
    } else {
        put_be(b, at, v / 256, n - 1);
        let len = b.len();
        proof {
            lemma_be_len(v as nat / 256, (n - 1) as nat);
        }
        b[at + (n - 1) as usize] = (v % 256) as u8;
        assert(b@ =~= old(b)@.take(at as int) + be_bytes(v as nat, n as nat) + old(b)@.skip(at + n));
    }
}

/// `n` zeros.
pub open spec fn zeros(n: nat) -> Seq<u8> {
    Seq::new(n, |i: int| 0u8)
}

/// The smallest multiple of `align` that is no less than `x`.
pub open spec fn rounded_up(x: nat, align: nat) -> nat {
    ((x + align - 1) as nat / align) * align
}

pub proof fn lemma_rounded_up(x: nat, align: nat)
    requires
        align > 0,
    ensures
        x <= rounded_up(x, align) < x + align,
        rounded_up(x, align) % align == 0,
{
    let y = (x + align - 1) as nat;
    vstd::arithmetic::div_mod::lemma_fundamental_div_mod(y as int, align as int);
    vstd::arithmetic::div_mod::lemma_mod_bound(y as int, align as int);
    assert(align * (y / align) == (y / align) * align) by (nonlinear_arith);
    vstd::arithmetic::div_mod::lemma_mod_multiples_basic((y / align) as int, align as int);
}

/// Rounds up to a multiple of `align`.
pub fn round_up(x: u64, align: u64) -> (r: u64)
    requires
        align > 0,
        x + align <= u64::MAX,
    ensures
        r == rounded_up(x as nat, align as nat),
{
    proof {
        lemma_rounded_up(x as nat, align as nat);
    }
    ((x + align - 1) / align) * align
}

} // verus!
