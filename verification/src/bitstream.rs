//! Bit streams, most significant bit first.

use bitreader::BitReader;
use vstd::arithmetic::div_mod::*;
use vstd::arithmetic::power2::*;
use vstd::prelude::*;

verus! {

/// Bit `i` of a 32-bit word, counted from the most significant one.
pub open spec fn word_bit(x: u32, i: int) -> bool {
    (x >> ((31 - i) as u32)) & 1u32 == 1u32
}

/// The low `n` bits of `value`, most significant first.
pub open spec fn value_bits(value: u32, n: nat) -> Seq<bool> {
    Seq::new(n, |i: int| (value >> ((n - 1 - i) as u32)) & 1u32 == 1u32)
}

/// Bit `i` of a byte, counted from the most significant one.
pub open spec fn byte_bit(b: u8, i: int) -> bool {
    (b >> ((7 - i) as u8)) & 1u8 == 1u8
}

/// The bits of a run of bytes, most significant first.
pub open spec fn byte_bits(bytes: Seq<u8>) -> Seq<bool> {
    Seq::new(8 * bytes.len(), |i: int| byte_bit(bytes[i / 8], i % 8))
}

/// Bit `i` of a stream; the stream is followed by zero bits without end.
pub open spec fn bit_at(bits: Seq<bool>, i: int) -> bool {
    0 <= i < bits.len() && bits[i]
}

/// Byte `i` of a stream that is padded with zero bits.
pub open spec fn packed_byte(bits: Seq<bool>, i: int) -> u8 {
    ((if bit_at(bits, 8 * i) { 128u8 } else { 0u8 })
        | (if bit_at(bits, 8 * i + 1) { 64u8 } else { 0u8 })
        | (if bit_at(bits, 8 * i + 2) { 32u8 } else { 0u8 })
        | (if bit_at(bits, 8 * i + 3) { 16u8 } else { 0u8 })
        | (if bit_at(bits, 8 * i + 4) { 8u8 } else { 0u8 })
        | (if bit_at(bits, 8 * i + 5) { 4u8 } else { 0u8 })
        | (if bit_at(bits, 8 * i + 6) { 2u8 } else { 0u8 })
        | (if bit_at(bits, 8 * i + 7) { 1u8 } else { 0u8 }))
}

/// A stream as bytes, the last one padded with zero bits.
pub open spec fn packed(bits: Seq<bool>) -> Seq<u8> {
    Seq::new(((bits.len() + 7) / 8) as nat, |i: int| packed_byte(bits, i))
}

/// The zero bits that fill up the last byte of a stream.
pub open spec fn padding(bits: Seq<bool>) -> Seq<bool> {
    Seq::new((8 * ((bits.len() + 7) / 8) - bits.len()) as nat, |i: int| false)
}

proof fn lemma_word_or(x: u32, y: u32, k: u32, i: u32)
    requires
        k < 32,
        i < 32,
    ensures
        word_bit(x | (y >> k), i as int) == (word_bit(x, i as int) || (i >= k && word_bit(
            y,
            i - k,
        ))),
{
    let j = (31 - i) as u32;
    assert(((x | (y >> k)) >> j) & 1u32 == 1u32 <==> ((x >> j) & 1u32 == 1u32 || (31 - j >= k && (y
        >> ((j + k) as u32)) & 1u32 == 1u32))) by (bit_vector)
        requires
            k < 32,
            j < 32,
    ;
    assert(i >= k ==> (31 - (i - k)) as u32 == (j + k) as u32);
}

proof fn lemma_word_shl(x: u32, k: u32, i: u32)
    requires
        k < 32,
        i < 32,
    ensures
        word_bit(x << k, i as int) == (i + k < 32 && word_bit(x, i + k)),
{
    let j = (31 - i) as u32;
    assert(((x << k) >> j) & 1u32 == 1u32 <==> (k <= j && (x >> ((j - k) as u32)) & 1u32 == 1u32))
        by (bit_vector)
        requires
            k < 32,
            j < 32,
    ;
    assert(k <= j ==> (31 - (i + k)) as u32 == (j - k) as u32);
}

proof fn lemma_top_byte(x: u32, i: u32)
    requires
        i < 8,
    ensures
        byte_bit((x >> 24u32) as u8, i as int) == word_bit(x, i as int),
{
    let j = (7 - i) as u8;
    assert((((x >> 24u32) as u8) >> j) & 1u8 == 1u8 <==> (x >> ((j + 24) as u32)) & 1u32 == 1u32)
        by (bit_vector)
        requires
            j < 8,
    ;
    assert((31 - i) as u32 == (j + 24) as u32);
}

proof fn lemma_value_word(v: u32, n: u32, i: u32)
    requires
        1 <= n <= 32,
        i < 32,
    ensures
        word_bit(v << ((32 - n) as u32), i as int) == (i < n && (v >> ((n - 1 - i) as u32)) & 1u32
            == 1u32),
{
    lemma_word_shl(v, (32 - n) as u32, i);
}

/// A byte is the sum of its bits.
proof fn lemma_byte_from_bits(b: u8)
    ensures
        b == ((if byte_bit(b, 0) { 128u8 } else { 0u8 })
            | (if byte_bit(b, 1) { 64u8 } else { 0u8 })
            | (if byte_bit(b, 2) { 32u8 } else { 0u8 })
            | (if byte_bit(b, 3) { 16u8 } else { 0u8 })
            | (if byte_bit(b, 4) { 8u8 } else { 0u8 })
            | (if byte_bit(b, 5) { 4u8 } else { 0u8 })
            | (if byte_bit(b, 6) { 2u8 } else { 0u8 })
            | (if byte_bit(b, 7) { 1u8 } else { 0u8 })),
{
    assert(b == ((if (b >> 7u8) & 1u8 == 1u8 { 128u8 } else { 0u8 })
        | (if (b >> 6u8) & 1u8 == 1u8 { 64u8 } else { 0u8 })
        | (if (b >> 5u8) & 1u8 == 1u8 { 32u8 } else { 0u8 })
        | (if (b >> 4u8) & 1u8 == 1u8 { 16u8 } else { 0u8 })
        | (if (b >> 3u8) & 1u8 == 1u8 { 8u8 } else { 0u8 })
        | (if (b >> 2u8) & 1u8 == 1u8 { 4u8 } else { 0u8 })
        | (if (b >> 1u8) & 1u8 == 1u8 { 2u8 } else { 0u8 })
        | (if (b >> 0u8) & 1u8 == 1u8 { 1u8 } else { 0u8 }))) by (bit_vector);
}

/// Bytes that hold a stream and its padding are the packed stream.
pub proof fn lemma_packed_unique(bytes: Seq<u8>, bits: Seq<bool>)
    requires
        byte_bits(bytes) == bits + padding(bits),
    ensures
        bytes == packed(bits),
{
    assert(byte_bits(bytes).len() == 8 * bytes.len());
    assert(bytes.len() == packed(bits).len());
    assert forall|i: int| 0 <= i < bytes.len() implies bytes[i] == packed(bits)[i] by {
        lemma_byte_from_bits(bytes[i]);
        assert forall|k: int| 0 <= k < 8 implies #[trigger] byte_bit(bytes[i], k) == bit_at(
            bits,
            8 * i + k,
        ) by {
            assert((8 * i + k) / 8 == i && (8 * i + k) % 8 == k);
            assert(byte_bits(bytes)[8 * i + k] == (bits + padding(bits))[8 * i + k]);
        }
        assert(bit_at(bits, 8 * i) == bit_at(bits, 8 * i + 0));
    }
    assert(bytes =~= packed(bits));
}

proof fn lemma_bits_of_sum(b0: bool, b1: bool, b2: bool, b3: bool, b4: bool, b5: bool, b6: bool, b7: bool, k: u8)
    requires k < 8,
    ensures
        byte_bit(((if b0 { 128u8 } else { 0u8 }) | (if b1 { 64u8 } else { 0u8 }) | (if b2 { 32u8 } else { 0u8 })
            | (if b3 { 16u8 } else { 0u8 }) | (if b4 { 8u8 } else { 0u8 }) | (if b5 { 4u8 } else { 0u8 })
            | (if b6 { 2u8 } else { 0u8 }) | (if b7 { 1u8 } else { 0u8 })), k as int)
            == seq![b0, b1, b2, b3, b4, b5, b6, b7][k as int],
{
    let j = (7 - k) as u8;
    assert((((if b0 { 128u8 } else { 0u8 }) | (if b1 { 64u8 } else { 0u8 }) | (if b2 { 32u8 } else { 0u8 })
            | (if b3 { 16u8 } else { 0u8 }) | (if b4 { 8u8 } else { 0u8 }) | (if b5 { 4u8 } else { 0u8 })
            | (if b6 { 2u8 } else { 0u8 }) | (if b7 { 1u8 } else { 0u8 })) >> j) & 1u8 == 1u8
        <==> (if j == 7 { b0 } else if j == 6 { b1 } else if j == 5 { b2 } else if j == 4 { b3 }
            else if j == 3 { b4 } else if j == 2 { b5 } else if j == 1 { b6 } else { b7 })) by (bit_vector)
        requires j < 8,
    ;
}

/// A packed stream holds the stream, followed by zero bits up to the next whole byte.
pub proof fn packed_holds_stream(bits: Seq<bool>)
    ensures
        byte_bits(packed(bits)) == bits + padding(bits),
{
    let l = byte_bits(packed(bits));
    let r = bits + padding(bits);
    assert(l.len() == r.len());
    assert forall|i: int| 0 <= i < l.len() implies l[i] == r[i] by {
        let q = i / 8;
        let k = i % 8;
        assert(i == 8 * q + k);
        lemma_bits_of_sum(
            bit_at(bits, 8 * q),
            bit_at(bits, 8 * q + 1),
            bit_at(bits, 8 * q + 2),
            bit_at(bits, 8 * q + 3),
            bit_at(bits, 8 * q + 4),
            bit_at(bits, 8 * q + 5),
            bit_at(bits, 8 * q + 6),
            bit_at(bits, 8 * q + 7),
            k as u8,
        );
        assert(l[i] == bit_at(bits, 8 * q + k));
    }
    assert(l =~= r);
}

/// A bit writer: bits go out most significant first, through a 32-bit buffer.
pub struct BitWriter {
    buffer: u32,
    bits: u32,
    out: Vec<u8>,
}

impl View for BitWriter {
    type V = Seq<bool>;

    /// The bits written so far.
    closed spec fn view(&self) -> Seq<bool> {
        byte_bits(self.out@) + Seq::new(self.bits as nat, |i: int| word_bit(self.buffer, i))
    }
}

impl BitWriter {
    /// The buffer holds at most 32 bits, at its top, and zeros below them.
    pub closed spec fn wf(&self) -> bool {
        &&& self.bits <= 32
        &&& forall|i: int| self.bits <= i < 32 ==> !#[trigger] word_bit(self.buffer, i)
    }

    pub fn new() -> (r: Self)
        ensures
            r.wf(),
            r@ == Seq::<bool>::empty(),
    {
        let r = BitWriter { buffer: 0, bits: 0, out: Vec::new() };
        proof {
            assert forall|i: int| 0 <= i < 32 implies !#[trigger] word_bit(0u32, i) by {
                let j = (31 - i) as u32;
                assert((0u32 >> j) & 1u32 == 0u32) by (bit_vector);
            }
            assert(r@ =~= Seq::<bool>::empty());
        }
        r
    }

    /// Moves the top byte of the buffer to the output. The buffer may hold fewer than 8 bits:
    /// the zeros below them go along.
    fn emit_byte(&mut self)
        requires
            old(self).wf(),
            old(self).bits > 0,
        ensures
            final(self).wf(),
            old(self).bits >= 8 ==> final(self)@ == old(self)@,
            old(self).bits >= 8 ==> final(self).bits == old(self).bits - 8,
            old(self).bits < 8 ==> final(self)@ == old(self)@ + Seq::new((8 - old(self).bits) as nat, |i: int| false),
            old(self).bits < 8 ==> final(self).bits == 0,
            final(self).out@.len() == old(self).out@.len() + 1,
    {
        let ghost out0 = self.out@;
        let ghost x = self.buffer;
        let ghost n = self.bits;
        let ghost v0 = self@;
        #[verifier::truncate]
        let b: u8 = (self.buffer >> 24) as u8;
        self.out.push(b);
        self.buffer = self.buffer << 8;
        self.bits = if self.bits >= 8 { self.bits - 8 } else { 0 };
        proof {
            assert forall|i: int| 0 <= i < 32 implies #[trigger] word_bit(x << 8u32, i) == (i + 8 < 32
                && word_bit(x, i + 8)) by {
                lemma_word_shl(x, 8, i as u32);
            }
            assert forall|i: int| 0 <= i < 8 implies #[trigger] byte_bit(b, i) == word_bit(x, i) by {
                lemma_top_byte(x, i as u32);
            }
            let v1 = self@;
            let want = if n >= 8 { v0 } else { v0 + Seq::new((8 - n) as nat, |i: int| false) };
            assert(v1.len() == want.len());
            assert forall|i: int| 0 <= i < v1.len() implies v1[i] == want[i] by {
                let base = 8 * out0.len();
                if i < base {
                    assert(self.out@[i / 8] == out0[i / 8]);
                } else if i < base + 8 {
                    assert(i / 8 == out0.len() && i % 8 == i - base);
                    assert(self.out@[i / 8] == b);
                } else {
                }
            }
            assert(v1 =~= want);
        }
    }

    /// Appends the low `numbits` bits of `newbits`.
    pub fn write(&mut self, newbits: u32, numbits: u32)
        requires
            old(self).wf(),
            numbits <= 32,
        ensures
            final(self).wf(),
            final(self)@ == old(self)@ + value_bits(newbits, numbits as nat),
    {
        if numbits == 0 {
            assert(self@ + value_bits(newbits, 0) =~= self@);
            return;
        }
        let ghost v0 = self@;
        let ghost whole = value_bits(newbits, numbits as nat);
        let mut rest: u32 = newbits << (32 - numbits);
        let mut left: u32 = numbits;
        proof {
            assert forall|i: int| 0 <= i < 32 implies #[trigger] word_bit(rest, i) == (i < numbits && (
            newbits >> ((numbits - 1 - i) as u32)) & 1u32 == 1u32) by {
                lemma_value_word(newbits, numbits, i as u32);
            }
            assert(Seq::new(left as nat, |i: int| word_bit(rest, i)) =~= whole);
        }
        while self.bits + left >= 32 && left > 0
            invariant
                self.wf(),
                left <= 32,
                v0 + whole == self@ + Seq::new(left as nat, |i: int| word_bit(rest, i)),
                forall|i: int| left <= i < 32 ==> !#[trigger] word_bit(rest, i),
            decreases left, self.bits,
        {
            let ghost bits_before = self.bits;
            while self.bits >= 8
                invariant
                    self.wf(),
                    self.bits <= bits_before,
                    v0 + whole == self@ + Seq::new(left as nat, |i: int| word_bit(rest, i)),
                decreases self.bits,
            {
                self.emit_byte();
            }
            if self.bits + left >= 32 {
                let ghost x = self.buffer;
                let ghost n = self.bits;
                let ghost y = rest;
                let ghost l0 = left;
                let ghost v1 = self@;
                let rem: u32 = 32 - self.bits;
                self.buffer = self.buffer | (rest >> self.bits);
                self.bits = 32;
                rest = if rem < 32 { rest << rem } else { 0 };
                left = left - rem;
                proof {
                    assert forall|i: int| 0 <= i < 32 implies #[trigger] word_bit(self.buffer, i)
                        == if i < n { word_bit(x, i) } else { word_bit(y, i - n) } by {
                        lemma_word_or(x, y, n, i as u32);
                    }
                    assert forall|i: int| 0 <= i < 32 && rem < 32 implies #[trigger] word_bit(rest, i)
                        == (i + rem < 32 && word_bit(y, i + rem)) by {
                        lemma_word_shl(y, rem, i as u32);
                    }
                    if rem == 32 {
                        assert forall|i: int| 0 <= i < 32 implies !#[trigger] word_bit(0u32, i) by {
                            let j = (31 - i) as u32;
                            assert((0u32 >> j) & 1u32 == 0u32) by (bit_vector);
                        }
                    }
                    assert(self@ + Seq::new(left as nat, |i: int| word_bit(rest, i)) =~= v1 + Seq::new(
                        l0 as nat,
                        |i: int| word_bit(y, i),
                    ));
                }
            }
        }
        if left == 0 {
            assert(self@ + Seq::new(0, |i: int| word_bit(rest, i)) =~= self@);
            return;
        }
        let ghost x = self.buffer;
        let ghost n = self.bits;
        let ghost v1 = self@;
        self.buffer = self.buffer | (rest >> self.bits);
        self.bits = self.bits + left;
        proof {
            assert forall|i: int| 0 <= i < 32 implies #[trigger] word_bit(self.buffer, i) == if i < n {
                word_bit(x, i)
            } else {
                word_bit(rest, i - n)
            } by {
                lemma_word_or(x, rest, n, i as u32);
            }
            assert(self@ =~= v1 + Seq::new(left as nat, |i: int| word_bit(rest, i)));
        }
    }

    /// The bytes written, the last one padded with zero bits.
    pub fn flush(self) -> (r: Vec<u8>)
        requires
            self.wf(),
        ensures
            r@ == packed(self@),
    {
        let ghost s = self@;
        let mut w = self;
        while w.bits > 0
            invariant
                w.wf(),
                w@ == s || (w.bits == 0 && w@ == s + padding(s)),
            decreases w.bits,
        {
            let ghost n = w.bits;
            proof {
                assert(w@.len() == 8 * w.out@.len() + n);
            }
            w.emit_byte();
            proof {
                if n < 8 {
                    assert(padding(s) =~= Seq::new((8 - n) as nat, |i: int| false));
                }
            }
        }
        proof {
            assert(w@ =~= byte_bits(w.out@));
            if w@ == s {
                assert(s.len() == 8 * w.out@.len());
                assert(s + padding(s) =~= s);
            }
            lemma_packed_unique(w.out@, s);
        }
        w.out
    }
}


/// The number that a run of bits stands for.
pub open spec fn bits_value(bits: Seq<bool>) -> nat
    decreases bits.len(),
{
    if bits.len() == 0 {
        0
    } else {
        2 * bits_value(bits.drop_last()) + if bits.last() {
            1nat
        } else {
            0nat
        }
    }
}

/// `n` bits of a stream from `pos` on; zero bits past its end.
pub open spec fn window(bits: Seq<bool>, pos: int, n: nat) -> Seq<bool> {
    Seq::new(n, |i: int| bit_at(bits, pos + i))
}

/// The number that `n` bits of a stream stand for, if there are as many from `pos` on.
pub open spec fn field(bits: Seq<bool>, pos: int, n: nat) -> Option<nat> {
    if 0 <= pos && pos + n <= bits.len() {
        Some(bits_value(bits.subrange(pos, pos + n)))
    } else {
        None
    }
}

/// The low bits of a number stand for its remainder.
pub proof fn lemma_value_bits(v: u32, n: nat)
    requires
        n <= 32,
    ensures
        bits_value(value_bits(v, n)) == (v as nat) % pow2(n),
    decreases n,
{
    if n == 0 {
        lemma2_to64();
    } else {
        let half = v / 2;
        let m = (n - 1) as nat;
        lemma_value_bits(half, m);
        let bits = value_bits(v, n);
        assert(bits.drop_last() =~= value_bits(half, m)) by {
            assert forall|i: int| 0 <= i < m implies bits[i] == value_bits(half, m)[i] by {
                let k = (m - 1 - i) as u32;
                assert((v >> ((k + 1) as u32)) & 1u32 == ((v / 2) >> k) & 1u32) by (bit_vector)
                    requires
                        k < 31,
                ;
                assert((n - 1 - i) as u32 == (k + 1) as u32);
            }
        }
        assert((v >> 0u32) & 1u32 == v % 2) by (bit_vector);
        assert(bits.last() == (v % 2 == 1));
        lemma_pow2_unfold(n);
        lemma_pow2_pos(m);
        lemma_mod_breakdown(v as int, 2, pow2(m) as int);
    }
}

/// The bits of a number that fits stand for it.
pub proof fn lemma_value_bits_fit(v: u32, n: nat)
    requires
        n <= 32,
        v < pow2(n),
    ensures
        bits_value(value_bits(v, n)) == v,
{
    lemma_value_bits(v, n);
    lemma_small_mod(v as nat, pow2(n));
}

pub proof fn lemma_bits_value_bound(bits: Seq<bool>)
    ensures
        bits_value(bits) < pow2(bits.len()),
    decreases bits.len(),
{
    if bits.len() == 0 {
        lemma2_to64();
    } else {
        lemma_bits_value_bound(bits.drop_last());
        lemma_pow2_unfold(bits.len());
    }
}

pub proof fn lemma_field_bound(bits: Seq<bool>, pos: int, n: nat)
    ensures
        field(bits, pos, n) matches Some(v) ==> v < pow2(n),
{
    if 0 <= pos && pos + n <= bits.len() {
        lemma_bits_value_bound(bits.subrange(pos, pos + n));
    }
}

/// The first bits of a number stand for its quotient.
pub proof fn lemma_bits_value_take(bits: Seq<bool>, k: nat)
    requires
        k <= bits.len(),
    ensures
        bits_value(bits.take(bits.len() - k)) == bits_value(bits) / pow2(k),
    decreases k,
{
    if k == 0 {
        lemma2_to64();
        assert(bits.take(bits.len() as int) =~= bits);
    } else {
        let rest = bits.drop_last();
        lemma_bits_value_take(rest, (k - 1) as nat);
        assert(rest.take(rest.len() - (k - 1)) =~= bits.take(bits.len() - k));
        lemma_pow2_unfold(k);
        lemma_pow2_pos((k - 1) as nat);
        let v = bits_value(bits) as int;
        assert(v / 2 == bits_value(rest));
        lemma_div_denominator(v, 2, pow2((k - 1) as nat) as int);
    }
}

/// Zero bits behind a number multiply it.
pub proof fn lemma_bits_value_zeros(bits: Seq<bool>, k: nat)
    ensures
        bits_value(bits + Seq::new(k, |i: int| false)) == bits_value(bits) * pow2(k),
    decreases k,
{
    let zeros = Seq::new(k, |i: int| false);
    if k == 0 {
        lemma2_to64();
        assert(bits + zeros =~= bits);
    } else {
        let m = (k - 1) as nat;
        lemma_bits_value_zeros(bits, m);
        assert((bits + zeros).drop_last() =~= bits + Seq::new(m, |i: int| false));
        lemma_pow2_unfold(k);
        assert(bits_value(bits) * (2 * pow2(m)) == 2 * (bits_value(bits) * pow2(m)))
            by (nonlinear_arith);
    }
}

/// `bitreader::BitReader`, made over `input`: moves to bit `pos` by `skip` and takes `count` bits
/// by `read_u64`. There is a result exactly where that many bits follow, and it is the number that
/// they stand for.
#[verifier::external_body]
fn read_bits(input: &[u8], pos: u64, count: u8) -> (r: Option<u64>)
    requires
        count <= 64,
        input@.len() < 0x1000_0000_0000_0000,
        pos <= 8 * input@.len(),
    ensures
        match r {
            Some(v) => field(byte_bits(input@), pos as int, count as nat) == Some(v as nat),
            None => field(byte_bits(input@), pos as int, count as nat) is None,
        },
{
    let mut reader = BitReader::new(input);
    match reader.skip(pos) {
        Ok(()) => reader.read_u64(count).ok(),
        Err(_) => None,
    }
}

/// A place in a run of bytes from which bits are read.
pub struct BitCursor<'a> {
    pub input: &'a [u8],
    pub pos: u64,
}

impl<'a> BitCursor<'a> {
    pub open spec fn wf(&self) -> bool {
        &&& self.input@.len() < 0x1000_0000_0000_0000
        &&& self.pos <= 8 * self.input@.len()
    }

    /// The whole stream.
    pub open spec fn stream(&self) -> Seq<bool> {
        byte_bits(self.input@)
    }

    pub fn new(input: &'a [u8]) -> (r: Self)
        requires
            input@.len() < 0x1000_0000_0000_0000,
        ensures
            r.wf(),
            r.input@ == input@,
            r.pos == 0,
    {
        BitCursor { input, pos: 0 }
    }

    /// The number of bits ahead.
    pub fn remaining(&self) -> (r: u64)
        requires
            self.wf(),
        ensures
            r == self.stream().len() - self.pos,
    {
        8 * self.input.len() as u64 - self.pos
    }

    /// Reads a number of `count` bits and moves behind it.
    pub fn read(&mut self, count: u8) -> (r: Option<u64>)
        requires
            old(self).wf(),
            count <= 64,
        ensures
            final(self).wf(),
            final(self).input@ == old(self).input@,
            match r {
                Some(v) => field(old(self).stream(), old(self).pos as int, count as nat) == Some(v as nat)
                    && final(self).pos == old(self).pos + count,
                None => field(old(self).stream(), old(self).pos as int, count as nat) is None
                    && final(self).pos == old(self).pos,
            },
    {
        let r = read_bits(self.input, self.pos, count);
        if r.is_some() {
            self.pos = self.pos + count as u64;
        }
        r
    }

    /// Reads a number of `count` bits, zero bits standing in past the end, and does not move.
    pub fn peek(&self, count: u8) -> (r: u64)
        requires
            self.wf(),
            count <= 32,
        ensures
            r == bits_value(window(self.stream(), self.pos as int, count as nat)),
            r < pow2(count as nat),
    {
        let left = self.remaining();
        let have: u8 = if left < count as u64 {
            left as u8
        } else {
            count
        };
        let v = match read_bits(self.input, self.pos, have) {
            Some(v) => v,
            None => {
                assert(false);
                0
            },
        };
        let missing: u64 = (count - have) as u64;
        proof {
            let part = self.stream().subrange(self.pos as int, self.pos + have);
            let zeros = Seq::new(missing as nat, |i: int| false);
            lemma_bits_value_zeros(part, missing as nat);
            assert(part + zeros =~= window(self.stream(), self.pos as int, count as nat));
            lemma_bits_value_bound(window(self.stream(), self.pos as int, count as nat));
            lemma2_to64();
            vstd::bits::lemma_u64_pow2_no_overflow(missing as nat);
            if count < 32 {
                lemma_pow2_strictly_increases(count as nat, 32);
            }
            vstd::bits::lemma_u64_shl_is_mul(v, missing);
        }
        v << missing
    }
}

} // verus!
