//! Laws of the error-correction codes: a sector with right parity bytes is made of Reed-Solomon code
//! words.

use crate::compression::ecc;
use vstd::prelude::*;

verus! {

/// Twice `x` in the field of 256 elements that the polynomial x^8 + x^4 + x^3 + x^2 + 1 makes.
pub open spec fn twice(x: u8) -> u8 {
    if x < 128 {
        (2 * x) as u8
    } else {
        ((2 * x - 256) as u8) ^ 0x1du8
    }
}

/// `x` times the `n`-th power of two in the field.
pub open spec fn times_power(x: u8, n: nat) -> u8
    decreases n,
{
    if n == 0 {
        x
    } else {
        twice(times_power(x, (n - 1) as nat))
    }
}

/// The sum of numbers of the field.
pub open spec fn field_sum(w: Seq<u8>) -> u8
    decreases w.len(),
{
    if w.len() == 0 {
        0
    } else {
        field_sum(w.drop_last()) ^ w.last()
    }
}

/// Each byte of a word times a power of two: the last one times the zeroth, the one before it times
/// the first, and so on.
pub open spec fn scaled(w: Seq<u8>) -> Seq<u8> {
    Seq::new(w.len(), |k: int| times_power(w[k], (w.len() - 1 - k) as nat))
}

/// Whether a word is a code word: both its plain and its scaled sum are zero.
pub open spec fn is_code_word(w: Seq<u8>) -> bool {
    field_sum(w) == 0 && field_sum(scaled(w)) == 0
}

/// Byte `j` of a sector as the codes see it: the four bytes of the header count as zero in a sector
/// of mode 2.
pub open spec fn seen_byte(s: Seq<u8>, j: int) -> u8 {
    if 12 <= j < 16 && s[15] == 2 {
        0
    } else {
        s[j]
    }
}

/// Column `i` of the P code. The bytes from the header on stand in rows of 86; the last two of the
/// 26 rows are the parity.
pub open spec fn p_word(s: Seq<u8>, i: int) -> Seq<u8> {
    Seq::new(26, |k: int| seen_byte(s, 12 + 86 * k + i))
}

/// Diagonal `i` of the Q code. The bytes from the header on make 1118 pairs in rows of 43; the
/// diagonals `2 * n` and `2 * n + 1` start at row `n` and take the lower and the upper byte of a
/// pair, and go one row down and one pair to the right each time. The two parity bytes stand behind
/// the pairs.
pub open spec fn q_word(s: Seq<u8>, i: int) -> Seq<u8> {
    Seq::new(
        45,
        |k: int|
            if k < 43 {
                seen_byte(s, 12 + 2 * ((43 * (i / 2) + 44 * k) % 1118) + i % 2)
            } else {
                s[2248 + 52 * (k - 43) + i]
            },
    )
}

/// Whether a sector is made of code words.
pub open spec fn is_coded(s: Seq<u8>) -> bool {
    &&& forall|i: int| 0 <= i < 86 ==> is_code_word(#[trigger] p_word(s, i))
    &&& forall|i: int| 0 <= i < 52 ==> is_code_word(#[trigger] q_word(s, i))
}

proof fn lemma_twice(x: u8)
    ensures
        twice(x) == ecc::gf_double(x),
{
    if x < 128 {
        assert(2 * x < 256);
        assert(x < 128 ==> ((x << 1u8) ^ 0u8) == 2 * x && x & 0x80u8 == 0) by (bit_vector);
    } else {
        assert(x >= 128 ==> (x << 1u8) == 2 * x - 256 && x & 0x80u8 != 0) by (bit_vector);
    }
}

proof fn lemma_twice_sum(x: u8, y: u8)
    ensures
        twice(x ^ y) == twice(x) ^ twice(y),
{
    lemma_twice(x);
    lemma_twice(y);
    lemma_twice(x ^ y);
    assert(((x ^ y) << 1u8) ^ (if (x ^ y) & 0x80u8 != 0 {
        0x1du8
    } else {
        0u8
    }) == ((x << 1u8) ^ (if x & 0x80u8 != 0 {
        0x1du8
    } else {
        0u8
    })) ^ ((y << 1u8) ^ (if y & 0x80u8 != 0 {
        0x1du8
    } else {
        0u8
    }))) by (bit_vector);
}

/// Another byte doubles the scaled sum and is added to it.
proof fn lemma_scaled_push(w: Seq<u8>, c: u8)
    ensures
        field_sum(w.push(c)) == field_sum(w) ^ c,
        field_sum(scaled(w.push(c))) == twice(field_sum(scaled(w))) ^ c,
{
    assert(w.push(c).drop_last() =~= w);
    let v = scaled(w.push(c));
    assert(v.last() == c);
    lemma_doubled_sum(scaled(w));
    assert(v.drop_last() =~= scaled(w).map_values(|x: u8| twice(x)));
}

proof fn lemma_doubled_sum(w: Seq<u8>)
    ensures
        field_sum(w.map_values(|x: u8| twice(x))) == twice(field_sum(w)),
    decreases w.len(),
{
    let d = w.map_values(|x: u8| twice(x));
    if w.len() > 0 {
        lemma_doubled_sum(w.drop_last());
        assert(d.drop_last() =~= w.drop_last().map_values(|x: u8| twice(x)));
        lemma_twice_sum(field_sum(w.drop_last()), w.last());
    }
}

/// The bytes that a code word protects.
spec fn protected(s: Seq<u8>, p: bool, i: int, n: nat) -> Seq<u8> {
    Seq::new(n, |k: int| ecc::source_byte(s, ecc::code_offset(p, i, k)))
}

proof fn lemma_running(s: Seq<u8>, p: bool, i: int, n: nat)
    ensures
        ecc::running(s, p, i, n) == (
            twice(field_sum(scaled(protected(s, p, i, n)))),
            field_sum(protected(s, p, i, n)),
        ),
    decreases n,
{
    let w = protected(s, p, i, n);
    if n > 0 {
        let v = protected(s, p, i, (n - 1) as nat);
        let c = ecc::source_byte(s, ecc::code_offset(p, i, n - 1));
        lemma_running(s, p, i, (n - 1) as nat);
        assert(w =~= v.push(c));
        lemma_scaled_push(v, c);
        lemma_twice(twice(field_sum(scaled(v))) ^ c);
    }
}

/// Two bytes behind a run make it a code word exactly where they are its parity.
proof fn lemma_parity(w: Seq<u8>, f: u8, g: u8)
    ensures
        ({
            let a = twice(field_sum(scaled(w)));
            let b = field_sum(w);
            let first = ecc::gf_third(ecc::gf_double(a) ^ b);
            is_code_word(w.push(f).push(g)) <==> f == first && g == b ^ first
        }),
{
    let e = field_sum(scaled(w));
    let a = twice(e);
    let b = field_sum(w);
    lemma_scaled_push(w, f);
    lemma_scaled_push(w.push(f), g);
    lemma_twice_sum(a, f);
    lemma_twice(a);
    lemma_twice(f);
    let d = ecc::gf_double(a);
    let first = ecc::gf_third(d ^ b);
    ecc::third_inverts_triple(d ^ b);
    ecc::third_inverts_triple(f ^ ecc::gf_double(f));
    lemma_third_of_triple(f);
    let t = ecc::gf_double(first);
    let u = ecc::gf_double(f);
    assert(b ^ f ^ g == 0 && (d ^ u) ^ g == 0 ==> f ^ u == d ^ b && g == b ^ f) by (bit_vector);
    assert(f == first && g == b ^ first && u == t && first ^ t == d ^ b ==> b ^ f ^ g == 0 && (d ^ u)
        ^ g == 0) by (bit_vector);
}

proof fn lemma_third_of_triple(f: u8)
    ensures
        ecc::gf_third(f ^ ecc::gf_double(f)) == f,
{
    assert(ecc::gf_third(f ^ ecc::gf_double(f)) == f) by (bit_vector);
}

proof fn lemma_words(s: Seq<u8>, i: int)
    requires
        s.len() == 2352,
    ensures
        0 <= i < 86 ==> (is_code_word(p_word(s, i)) <==> ecc::parity(s, true, i) == (
            s[2076 + i],
            s[2162 + i],
        )),
        0 <= i < 52 ==> (is_code_word(q_word(s, i)) <==> ecc::parity(s, false, i) == (
            s[2248 + i],
            s[2300 + i],
        )),
{
    if 0 <= i < 86 {
        let w = protected(s, true, i, 24);
        lemma_running(s, true, i, 24);
        lemma_parity(w, s[2076 + i], s[2162 + i]);
        assert(p_word(s, i) =~= w.push(s[2076 + i]).push(s[2162 + i]));
    }
    if 0 <= i < 52 {
        let w = protected(s, false, i, 43);
        lemma_running(s, false, i, 43);
        lemma_parity(w, s[2248 + i], s[2300 + i]);
        assert forall|k: int| 0 <= k < 43 implies q_word(s, i)[k] == w[k] by {
            lemma_diagonal(i, k);
        }
        assert(q_word(s, i) =~= w.push(s[2248 + i]).push(s[2300 + i]));
    }
}

proof fn lemma_diagonal(i: int, k: int)
    requires
        0 <= i < 52,
        0 <= k < 43,
    ensures
        ecc::q_offset(i, k) == 2 * ((43 * (i / 2) + 44 * k) % 1118) + i % 2,
        0 <= ecc::q_offset(i, k) < 2236,
{
    let m = 43 * (i / 2) + 44 * k;
    vstd::arithmetic::div_mod::lemma_fundamental_div_mod(m, 1118);
    vstd::arithmetic::div_mod::lemma_fundamental_div_mod_converse(
        2 * m,
        2236,
        m / 1118,
        2 * (m % 1118),
    );
}

/// The parity bytes of a sector are right exactly where it is made of code words: of 86 columns of
/// 26 bytes and of 52 diagonals of 45 bytes.
pub proof fn right_parity_makes_code_words(s: Seq<u8>)
    requires
        s.len() == 2352,
    ensures
        ecc::has_ecc(s) <==> is_coded(s),
{
    if ecc::has_ecc(s) {
        assert forall|i: int| 0 <= i < 86 implies is_code_word(#[trigger] p_word(s, i)) by {
            lemma_words(s, i);
            assert(ecc::parity(s, true, i) == (s[2076 + i], s[2162 + i]));
        }
        assert forall|i: int| 0 <= i < 52 implies is_code_word(#[trigger] q_word(s, i)) by {
            lemma_words(s, i);
            assert(ecc::parity(s, false, i) == (s[2248 + i], s[2300 + i]));
        }
    }
    if is_coded(s) {
        assert forall|i: int| 0 <= i < 86 implies #[trigger] ecc::parity(s, true, i) == (
            s[2076 + i],
            s[2162 + i],
        ) by {
            lemma_words(s, i);
            assert(is_code_word(p_word(s, i)));
        }
        assert forall|i: int| 0 <= i < 52 implies #[trigger] ecc::parity(s, false, i) == (
            s[2248 + i],
            s[2300 + i],
        ) by {
            lemma_words(s, i);
            assert(is_code_word(q_word(s, i)));
        }
    }
}

/// A sector into which the parity bytes were put is made of code words, and all bytes before the
/// parity are as they were.
pub proof fn generated_parity_makes_code_words(s: Seq<u8>)
    requires
        s.len() == 2352,
    ensures
        ecc::with_ecc(s).len() == 2352,
        is_coded(ecc::with_ecc(s)),
        forall|j: int| 0 <= j < 2076 ==> #[trigger] ecc::with_ecc(s)[j] == s[j],
{
    let p = ecc::with_p(s);
    let q = ecc::with_ecc(s);
    assert forall|i: int| 0 <= i < 86 implies #[trigger] ecc::parity(q, true, i) == (
        q[2076 + i],
        q[2162 + i],
    ) by {
        ecc::lemma_running_same(q, s, true, i, 24);
    }
    assert forall|i: int| 0 <= i < 52 implies #[trigger] ecc::parity(q, false, i) == (
        q[2248 + i],
        q[2300 + i],
    ) by {
        ecc::lemma_running_same(q, p, false, i, 43);
    }
    right_parity_makes_code_words(q);
}

} // verus!
