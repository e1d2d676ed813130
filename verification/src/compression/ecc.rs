//! The error-correction codes of a data sector: two Reed-Solomon product codes, P over the header
//! and the data, and Q over these and P.

use crate::cdrom;
use vstd::prelude::*;

verus! {

/// Where the P parity bytes start.
pub const ECC_P_OFFSET: usize = 2076;

/// The number of P code words.
pub const ECC_P_NUM_BYTES: usize = 86;

/// The number of bytes that a P code word protects.
pub const ECC_P_COMP: usize = 24;

/// Where the Q parity bytes start.
pub const ECC_Q_OFFSET: usize = 2248;

/// The number of Q code words.
pub const ECC_Q_NUM_BYTES: usize = 52;

/// The number of bytes that a Q code word protects.
pub const ECC_Q_COMP: usize = 43;

/// The length of a sector.
pub const SECTOR_LEN: usize = 2352;

/// Twice `x` in the field of 256 elements.
pub open spec fn gf_double(x: u8) -> u8 {
    ((x << 1u8) ^ (if x & 0x80u8 != 0 {
        0x1du8
    } else {
        0u8
    }))
}

/// A third of `y` in the field of 256 elements.
pub open spec fn gf_third(y: u8) -> u8 {
    let d2 = gf_double(gf_double(y));
    let d4 = gf_double(gf_double(d2));
    let d5 = gf_double(d4);
    let d6 = gf_double(d5);
    let d7 = gf_double(d6);
    d2 ^ d4 ^ d5 ^ d6 ^ d7
}

/// A third of a number, three times, is the number.
pub proof fn third_inverts_triple(y: u8)
    ensures
        gf_third(y) ^ gf_double(gf_third(y)) == y,
{
    assert(gf_third(y) ^ gf_double(gf_third(y)) == y) by (bit_vector);
}

/// Byte `off` of what the codes protect. In a mode 2 sector the header counts as zero.
pub open spec fn source_byte(s: Seq<u8>, off: int) -> u8 {
    if s[15] == 2 && off < 4 {
        0
    } else {
        s[12 + off]
    }
}

/// Where byte `k` of P code word `i` is.
pub open spec fn p_offset(i: int, k: int) -> int {
    i + 86 * k
}

/// Where byte `k` of Q code word `i` is.
pub open spec fn q_offset(i: int, k: int) -> int {
    ((i / 2) * 86 + k * 88) % 2236 + i % 2
}

/// Where byte `k` of code word `i` is.
pub open spec fn code_offset(p: bool, i: int, k: int) -> int {
    if p {
        p_offset(i, k)
    } else {
        q_offset(i, k)
    }
}

/// The two running sums over the first `n` bytes of a code word.
pub open spec fn running(s: Seq<u8>, p: bool, i: int, n: nat) -> (u8, u8)
    decreases n,
{
    if n == 0 {
        (0, 0)
    } else {
        let (a, b) = running(s, p, i, (n - 1) as nat);
        let c = source_byte(s, code_offset(p, i, n - 1));
        (gf_double(a ^ c), b ^ c)
    }
}

/// The two parity bytes of a code word.
pub open spec fn parity(s: Seq<u8>, p: bool, i: int) -> (u8, u8) {
    let n: nat = if p {
        24
    } else {
        43
    };
    let (a, b) = running(s, p, i, n);
    let first = gf_third(gf_double(a) ^ b);
    (first, b ^ first)
}

/// The sector with its P parity bytes put in.
pub open spec fn with_p(s: Seq<u8>) -> Seq<u8> {
    Seq::new(
        s.len(),
        |j: int|
            if 2076 <= j < 2162 {
                parity(s, true, j - 2076).0
            } else if 2162 <= j < 2248 {
                parity(s, true, j - 2162).1
            } else {
                s[j]
            },
    )
}

/// The sector with its Q parity bytes put in.
pub open spec fn with_q(s: Seq<u8>) -> Seq<u8> {
    Seq::new(
        s.len(),
        |j: int|
            if 2248 <= j < 2300 {
                parity(s, false, j - 2248).0
            } else if 2300 <= j < 2352 {
                parity(s, false, j - 2300).1
            } else {
                s[j]
            },
    )
}

/// The sector with all its parity bytes put in.
pub open spec fn with_ecc(s: Seq<u8>) -> Seq<u8> {
    with_q(with_p(s))
}

/// Whether the parity bytes are right.
pub open spec fn has_ecc(s: Seq<u8>) -> bool {
    &&& forall|i: int| 0 <= i < 86 ==> #[trigger] parity(s, true, i) == (s[2076 + i], s[2162 + i])
    &&& forall|i: int| 0 <= i < 52 ==> #[trigger] parity(s, false, i) == (s[2248 + i], s[2300 + i])
}

/// The sector with its parity bytes set to zero.
pub open spec fn without_ecc(s: Seq<u8>) -> Seq<u8> {
    Seq::new(
        s.len(),
        |j: int|
            if j >= 2076 {
                0u8
            } else {
                s[j]
            },
    )
}

/// Whether the sector starts with the synchronisation pattern.
pub open spec fn has_sync(s: Seq<u8>) -> bool {
    forall|j: int| 0 <= j < 12 ==> #[trigger] s[j] == cdrom::sync_byte(j)
}

/// The sector with the synchronisation pattern put in.
pub open spec fn with_sync(s: Seq<u8>) -> Seq<u8> {
    Seq::new(
        s.len(),
        |j: int|
            if j < 12 {
                cdrom::sync_byte(j)
            } else {
                s[j]
            },
    )
}

/// The sector with its synchronisation pattern set to zero.
pub open spec fn without_sync(s: Seq<u8>) -> Seq<u8> {
    Seq::new(
        s.len(),
        |j: int|
            if j < 12 {
                0u8
            } else {
                s[j]
            },
    )
}

proof fn lemma_offset_range(p: bool, i: int, k: int)
    requires
        0 <= i < (if p { 86int } else { 52 }),
        0 <= k < (if p { 24int } else { 43 }),
    ensures
        0 <= code_offset(p, i, k) < if p { 2064int } else { 2236 },
{
    if !p {
        let m = (i / 2) * 86 + k * 88;
        assert(m % 2236 <= 2234) by {
            assert(m % 2 == 0);
        }
    }
}

/// The parity of a code word depends only on the bytes that it protects, and on the mode.
pub proof fn lemma_running_same(s: Seq<u8>, t: Seq<u8>, p: bool, i: int, n: nat)
    requires
        0 <= i < (if p { 86int } else { 52 }),
        n <= (if p { 24int } else { 43 }),
        s.len() == 2352,
        t.len() == 2352,
        forall|j: int| 12 <= j < (if p { 2076int } else { 2248 }) ==> s[j] == t[j],
    ensures
        running(s, p, i, n) == running(t, p, i, n),
    decreases n,
{
    if n > 0 {
        lemma_running_same(s, t, p, i, (n - 1) as nat);
        lemma_offset_range(p, i, n - 1);
        assert(s[15] == t[15]);
    }
}

/// The synchronisation pattern and right parity bytes can be taken out of a sector and put in
/// again.
pub proof fn ecc_is_restored(s: Seq<u8>)
    requires
        s.len() == 2352,
        has_sync(s),
        has_ecc(s),
    ensures
        with_ecc(with_sync(without_ecc(without_sync(s)))) == s,
{
    let bare = with_sync(without_ecc(without_sync(s)));
    let p = with_p(bare);
    assert forall|i: int| 0 <= i < 86 implies parity(bare, true, i) == parity(s, true, i) by {
        lemma_running_same(bare, s, true, i, 24);
    }
    assert forall|j: int| 0 <= j < 2248 implies p[j] == s[j] by {
        if 2076 <= j < 2162 {
            assert(parity(s, true, j - 2076) == (s[j], s[2162 + (j - 2076)]));
        } else if 2162 <= j {
            assert(parity(s, true, j - 2162) == (s[2076 + (j - 2162)], s[j]));
        } else if j < 12 {
            assert(s[j] == cdrom::sync_byte(j));
        }
    }
    assert forall|i: int| 0 <= i < 52 implies parity(p, false, i) == parity(s, false, i) by {
        lemma_running_same(p, s, false, i, 43);
    }
    let q = with_q(p);
    assert forall|j: int| 0 <= j < 2352 implies q[j] == s[j] by {
        if 2248 <= j < 2300 {
            assert(parity(s, false, j - 2248) == (s[j], s[2300 + (j - 2248)]));
        } else if 2300 <= j {
            assert(parity(s, false, j - 2300) == (s[2248 + (j - 2300)], s[j]));
        }
    }
    assert(q =~= s);
}

fn double(x: u8) -> (r: u8)
    ensures
        r == gf_double(x),
{
    (x << 1u8) ^ (if x & 0x80u8 != 0 {
        0x1du8
    } else {
        0u8
    })
}

fn third(y: u8) -> (r: u8)
    ensures
        r == gf_third(y),
{
    let d2 = double(double(y));
    let d4 = double(double(d2));
    let d5 = double(d4);
    let d6 = double(d5);
    let d7 = double(d6);
    d2 ^ d4 ^ d5 ^ d6 ^ d7
}

/// Computes the two parity bytes of a code word.
fn compute_bytes(s: &Vec<u8>, p: bool, i: usize) -> (r: (u8, u8))
    requires
        s@.len() == 2352,
        i < (if p { 86int } else { 52 }),
    ensures
        r == parity(s@, p, i as int),
{
    let n: usize = if p {
        ECC_P_COMP
    } else {
        ECC_Q_COMP
    };
    let mut a: u8 = 0;
    let mut b: u8 = 0;
    let mut k: usize = 0;
    while k < n
        invariant
            k <= n,
            n == (if p { 24int } else { 43 }),
            s@.len() == 2352,
            i < (if p { 86int } else { 52 }),
            (a, b) == running(s@, p, i as int, k as nat),
        decreases n - k,
    {
        proof {
            lemma_offset_range(p, i as int, k as int);
        }
        let off: usize = if p {
            i + 86 * k
        } else {
            ((i / 2) * 86 + k * 88) % 2236 + i % 2
        };
        let c: u8 = if s[15] == 2 && off < 4 {
            0
        } else {
            s[12 + off]
        };
        a = double(a ^ c);
        b = b ^ c;
        k = k + 1;
    }
    let first = third(double(a) ^ b);
    (first, b ^ first)
}

/// Whether the parity bytes of a sector are right.
pub fn verify_ecc(s: &Vec<u8>) -> (r: bool)
    requires
        s@.len() == 2352,
    ensures
        r == has_ecc(s@),
{
    let mut i: usize = 0;
    while i < ECC_P_NUM_BYTES
        invariant
            i <= 86,
            s@.len() == 2352,
            forall|k: int| 0 <= k < i ==> #[trigger] parity(s@, true, k) == (s@[2076 + k], s@[2162 + k]),
        decreases 86 - i,
    {
        let (a, b) = compute_bytes(s, true, i);
        if s[ECC_P_OFFSET + i] != a || s[ECC_P_OFFSET + ECC_P_NUM_BYTES + i] != b {
            assert(parity(s@, true, i as int) != (s@[2076 + i as int], s@[2162 + i as int]));
            return false;
        }
        i = i + 1;
    }
    let mut j: usize = 0;
    while j < ECC_Q_NUM_BYTES
        invariant
            j <= 52,
            s@.len() == 2352,
            forall|k: int| 0 <= k < 86 ==> #[trigger] parity(s@, true, k) == (s@[2076 + k], s@[2162 + k]),
            forall|k: int| 0 <= k < j ==> #[trigger] parity(s@, false, k) == (s@[2248 + k], s@[2300 + k]),
        decreases 52 - j,
    {
        let (a, b) = compute_bytes(s, false, j);
        if s[ECC_Q_OFFSET + j] != a || s[ECC_Q_OFFSET + ECC_Q_NUM_BYTES + j] != b {
            assert(parity(s@, false, j as int) != (s@[2248 + j as int], s@[2300 + j as int]));
            return false;
        }
        j = j + 1;
    }
    true
}

/// Puts the parity bytes into a sector.
pub fn generate_ecc(s: &mut Vec<u8>)
    requires
        old(s)@.len() == 2352,
    ensures
        final(s)@ == with_ecc(old(s)@),
{
    let ghost s0 = s@;
    let mut i: usize = 0;
    while i < ECC_P_NUM_BYTES
        invariant
            i <= 86,
            s0.len() == 2352,
            s@.len() == 2352,
            forall|j: int|
                0 <= j < 2352 ==> #[trigger] s@[j] == (if 2076 <= j < 2076 + i || 2162 <= j < 2162 + i {
                    with_p(s0)[j]
                } else {
                    s0[j]
                }),
        decreases 86 - i,
    {
        proof {
            lemma_running_same(s@, s0, true, i as int, 24);
        }
        let (a, b) = compute_bytes(s, true, i);
        s[ECC_P_OFFSET + i] = a;
        s[ECC_P_OFFSET + ECC_P_NUM_BYTES + i] = b;
        i = i + 1;
    }
    assert(s@ =~= with_p(s0));
    let ghost s1 = s@;
    let mut k: usize = 0;
    while k < ECC_Q_NUM_BYTES
        invariant
            k <= 52,
            s1.len() == 2352,
            s@.len() == 2352,
            forall|j: int|
                0 <= j < 2352 ==> #[trigger] s@[j] == (if 2248 <= j < 2248 + k || 2300 <= j < 2300 + k {
                    with_q(s1)[j]
                } else {
                    s1[j]
                }),
        decreases 52 - k,
    {
        proof {
            lemma_running_same(s@, s1, false, k as int, 43);
        }
        let (a, b) = compute_bytes(s, false, k);
        s[ECC_Q_OFFSET + k] = a;
        s[ECC_Q_OFFSET + ECC_Q_NUM_BYTES + k] = b;
        k = k + 1;
    }
    assert(s@ =~= with_q(s1));
}

/// Sets the parity bytes of a sector to zero.
pub fn clear_ecc(s: &mut Vec<u8>)
    requires
        old(s)@.len() == 2352,
    ensures
        final(s)@ == without_ecc(old(s)@),
{
    let ghost s0 = s@;
    let mut i: usize = ECC_P_OFFSET;
    while i < SECTOR_LEN
        invariant
            2076 <= i <= 2352,
            s0.len() == 2352,
            s@.len() == 2352,
            forall|j: int|
                0 <= j < 2352 ==> #[trigger] s@[j] == (if 2076 <= j < i {
                    0u8
                } else {
                    s0[j]
                }),
        decreases 2352 - i,
    {
        s[i] = 0;
        i = i + 1;
    }
    assert(s@ =~= without_ecc(s0));
}

/// Whether a sector starts with the synchronisation pattern.
pub fn verify_sync(s: &Vec<u8>) -> (r: bool)
    requires
        s@.len() == 2352,
    ensures
        r == has_sync(s@),
{
    let sync = cdrom::cd_sync_header();
    let mut i: usize = 0;
    while i < 12
        invariant
            i <= 12,
            s@.len() == 2352,
            forall|j: int| 0 <= j < 12 ==> #[trigger] sync@[j] == cdrom::sync_byte(j),
            forall|j: int| 0 <= j < i ==> #[trigger] s@[j] == cdrom::sync_byte(j),
        decreases 12 - i,
    {
        if s[i] != sync[i] {
            assert(s@[i as int] != cdrom::sync_byte(i as int));
            return false;
        }
        i = i + 1;
    }
    true
}

/// Puts the synchronisation pattern into a sector.
pub fn put_sync(s: &mut Vec<u8>)
    requires
        old(s)@.len() == 2352,
    ensures
        final(s)@ == with_sync(old(s)@),
{
    let ghost s0 = s@;
    let sync = cdrom::cd_sync_header();
    let mut i: usize = 0;
    while i < 12
        invariant
            i <= 12,
            s0.len() == 2352,
            s@.len() == 2352,
            forall|j: int| 0 <= j < 12 ==> #[trigger] sync@[j] == cdrom::sync_byte(j),
            forall|j: int|
                0 <= j < 2352 ==> #[trigger] s@[j] == (if j < i {
                    cdrom::sync_byte(j)
                } else {
                    s0[j]
                }),
        decreases 12 - i,
    {
        s[i] = sync[i];
        i = i + 1;
    }
    assert(s@ =~= with_sync(s0));
}

/// Sets the synchronisation pattern of a sector to zero.
pub fn clear_sync(s: &mut Vec<u8>)
    requires
        old(s)@.len() == 2352,
    ensures
        final(s)@ == without_sync(old(s)@),
{
    let ghost s0 = s@;
    let mut i: usize = 0;
    while i < 12
        invariant
            i <= 12,
            s0.len() == 2352,
            s@.len() == 2352,
            forall|j: int|
                0 <= j < 2352 ==> #[trigger] s@[j] == (if j < i {
                    0u8
                } else {
                    s0[j]
                }),
        decreases 12 - i,
    {
        s[i] = 0;
        i = i + 1;
    }
    assert(s@ =~= without_sync(s0));
}

} // verus!
