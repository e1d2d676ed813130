//! Laws of packed maps: what the tokens and fields of a map stand for.

use crate::bitstream;
use crate::huffman_encode;
use crate::map::RawEntry;
use vstd::arithmetic::power2::*;
use vstd::prelude::*;

verus! {

/// `n` times the value `v`.
pub open spec fn times(v: u8, n: nat) -> Seq<u8> {
    Seq::new(n, |i: int| v)
}

/// What tokens stand for, where `last` is the last kind. 7 and a number stand for that kind as many
/// times and three more, 8 and two numbers for it 16 times the first, the second, and 19 more times;
/// every other token stands for itself.
pub open spec fn expanded(tokens: Seq<u8>, last: u8) -> Seq<u8>
    decreases tokens.len(),
{
    if tokens.len() == 0 {
        Seq::empty()
    } else if tokens[0] == 7 {
        if tokens.len() < 2 {
            Seq::empty()
        } else {
            times(last, (tokens[1] + 3) as nat) + expanded(tokens.skip(2), last)
        }
    } else if tokens[0] == 8 {
        if tokens.len() < 3 {
            Seq::empty()
        } else {
            times(last, (16 * tokens[1] + tokens[2] + 19) as nat) + expanded(tokens.skip(3), last)
        }
    } else {
        seq![tokens[0]] + expanded(tokens.skip(1), tokens[0])
    }
}

proof fn lemma_repeats(kind: u8, count: nat, rest: Seq<u8>)
    requires
        kind != 7,
        kind != 8,
    ensures
        expanded(crate::map::repeat_tokens(kind, count) + rest, kind) == times(kind, count) + expanded(
            rest,
            kind,
        ),
    decreases count,
{
    let tokens = crate::map::repeat_tokens(kind, count);
    let all = tokens + rest;
    if count == 0 {
        assert(all =~= rest);
        assert(times(kind, 0) + expanded(rest, kind) =~= expanded(rest, kind));
    } else if count < 3 {
        let more = crate::map::repeat_tokens(kind, (count - 1) as nat);
        lemma_repeats(kind, (count - 1) as nat, rest);
        assert(all.skip(1) =~= more + rest);
        assert(times(kind, count) =~= seq![kind] + times(kind, (count - 1) as nat));
        assert(seq![kind] + (times(kind, (count - 1) as nat) + expanded(rest, kind)) =~= times(kind, count)
            + expanded(rest, kind));
    } else if count <= 18 {
        assert(all.skip(2) =~= rest);
    } else {
        let now: nat = if count < 274 {
            count
        } else {
            274
        };
        let more = crate::map::repeat_tokens(kind, (count - now) as nat);
        lemma_repeats(kind, (count - now) as nat, rest);
        assert(all.skip(3) =~= more + rest);
        assert(16 * all[1] + all[2] + 19 == now);
        assert(times(kind, count) =~= times(kind, now) + times(kind, (count - now) as nat));
        assert(times(kind, now) + (times(kind, (count - now) as nat) + expanded(rest, kind)) =~= times(
            kind,
            count,
        ) + expanded(rest, kind));
    }
}

proof fn lemma_tokens(kinds: Seq<u8>, i: int, last: u8)
    requires
        0 <= i <= kinds.len(),
        i == 0 ==> last == 0,
        forall|k: int| 0 <= k < kinds.len() ==> #[trigger] kinds[k] != 7 && kinds[k] != 8,
    ensures
        expanded(crate::map::kind_tokens(kinds, i), last) == kinds.skip(i),
    decreases kinds.len() - i,
{
    if i < kinds.len() {
        let v = kinds[i];
        let end = huffman_encode::run_end(kinds, v, i + 1);
        huffman_encode::lemma_run_end(kinds, v, i + 1);
        let rest = crate::map::kind_tokens(kinds, end);
        lemma_tokens(kinds, end, v);
        assert(kinds.skip(i) =~= times(v, (end - i) as nat) + kinds.skip(end));
        if i == 0 && v == 0 {
            lemma_repeats(0, (end - i) as nat, rest);
        } else {
            let more = crate::map::repeat_tokens(v, (end - i - 1) as nat);
            lemma_repeats(v, (end - i - 1) as nat, rest);
            let all = seq![v] + more + rest;
            assert(all.skip(1) =~= more + rest);
            assert(seq![v] + (times(v, (end - i - 1) as nat) + kinds.skip(end)) =~= times(
                v,
                (end - i) as nat,
            ) + kinds.skip(end));
        }
    } else {
        assert(kinds.skip(i) =~= Seq::empty());
    }
}

/// The tokens of a map stand for its kinds, the last kind being zero at the start.
pub proof fn tokens_stand_for_kinds(kinds: Seq<u8>)
    requires
        forall|k: int| 0 <= k < kinds.len() ==> #[trigger] kinds[k] != 7 && kinds[k] != 8,
    ensures
        expanded(crate::map::kind_tokens(kinds, 0), 0) == kinds,
{
    lemma_tokens(kinds, 0, 0);
    assert(kinds.skip(0) =~= kinds);
}

/// Whether `r` is the reference of the last entry of a kind before entry `i`, or zero where there is
/// none.
pub open spec fn is_last_reference(m: Seq<RawEntry>, kind: u8, i: int, r: int) -> bool {
    ||| r == 0 && forall|j: int| 0 <= j < i ==> (#[trigger] m[j]).kind != kind
    ||| exists|j: int|
        0 <= j < i && (#[trigger] m[j]).kind == kind && m[j].offset == r && forall|k: int|
            j < k < i ==> (#[trigger] m[k]).kind != kind
}

proof fn lemma_last(m: Seq<RawEntry>, kind: u8, i: int)
    requires
        0 <= i <= m.len(),
    ensures
        is_last_reference(m, kind, i, crate::map::last_ref(m, kind, i) as int),
    decreases i,
{
    if i > 0 {
        if m[i - 1].kind == kind {
            assert(m[i - 1].offset == crate::map::last_ref(m, kind, i));
        } else {
            lemma_last(m, kind, i - 1);
            let r = crate::map::last_ref(m, kind, i - 1) as int;
            if exists|j: int|
                0 <= j < i - 1 && (#[trigger] m[j]).kind == kind && m[j].offset == r && forall|k: int|
                    j < k < i - 1 ==> (#[trigger] m[k]).kind != kind {
                let j = choose|j: int|
                    0 <= j < i - 1 && (#[trigger] m[j]).kind == kind && m[j].offset == r && forall|k: int|
                        j < k < i - 1 ==> (#[trigger] m[k]).kind != kind;
                assert(m[j].kind == kind);
            }
        }
    }
}

/// The kinds in a packed map. A stored hunk keeps its kind. A reference to an earlier hunk, 5, becomes
/// 9 where it is the last such reference again, and 10 where it is the one after that. A reference to
/// the parent, 6, becomes 11 where it is the hunk's own place, else 12 where it is the last such
/// reference again, and 13 where it is one hunk behind that.
pub proof fn kinds_in_a_packed_map(m: Seq<RawEntry>, i: int, hunk_bytes: u32, unit_bytes: u32) -> (r: (
    int,
    int,
))
    requires
        0 <= i < m.len(),
        unit_bytes > 0,
        hunk_bytes as int % unit_bytes as int == 0,
    ensures
        is_last_reference(m, 5, i, r.0),
        is_last_reference(m, 6, i, r.1),
        ({
            let kind = crate::map::compact_kind(m, i, hunk_bytes, unit_bytes);
            let e = m[i];
            let here = e.offset * unit_bytes == i * hunk_bytes;
            &&& e.kind != 5 && e.kind != 6 ==> kind == e.kind
            &&& e.kind == 5 ==> (kind == 9 <==> e.offset == r.0)
            &&& e.kind == 5 ==> (kind == 10 <==> e.offset == r.0 + 1)
            &&& e.kind == 5 ==> kind == 5 || kind == 9 || kind == 10
            &&& e.kind == 6 ==> (kind == 11 <==> here)
            &&& e.kind == 6 ==> (kind == 12 <==> !here && e.offset == r.1)
            &&& e.kind == 6 ==> (kind == 13 <==> !here && e.offset != r.1 && (e.offset - r.1) * unit_bytes
                == hunk_bytes)
            &&& e.kind == 6 ==> kind == 6 || kind == 11 || kind == 12 || kind == 13
        }),
{
    lemma_last(m, 5, i);
    lemma_last(m, 6, i);
    let a = crate::map::last_ref(m, 5, i) as int;
    let b = crate::map::last_ref(m, 6, i) as int;
    let hb = hunk_bytes as int;
    let ub = unit_bytes as int;
    let per = hb / ub;
    let o = m[i].offset as int;
    vstd::arithmetic::div_mod::lemma_fundamental_div_mod(hb, ub);
    assert(i * hb == (i * per) * ub) by (nonlinear_arith)
        requires
            hb == ub * per,
    ;
    vstd::arithmetic::div_mod::lemma_div_multiples_vanish(i * per, ub);
    assert((i * per) * ub == ub * (i * per)) by (nonlinear_arith);
    assert(crate::map::home_unit(i, hunk_bytes, unit_bytes) == i * per);
    assert(o * ub == (i * per) * ub <==> o == i * per) by (nonlinear_arith)
        requires
            ub > 0,
    ;
    assert((o - b) * ub == hb <==> o - b == per) by (nonlinear_arith)
        requires
            ub > 0,
            hb == ub * per,
    ;
    (a, b)
}

/// What an entry adds to a packed map behind the kinds. For a compressed hunk it is its length and its
/// checksum in 16 bits, for a hunk as it is the checksum alone, for a reference that cannot be foretold
/// the reference, and for others nothing. The widths of lengths and references are those of the map.
pub proof fn fields_of_an_entry(e: RawEntry, kind: u8, a: nat, b: nat, c: nat)
    requires
        a <= 32,
        b <= 32,
        c <= 32,
        e.length < pow2(a),
        e.offset <= u32::MAX,
        kind == 5 ==> e.offset < pow2(b),
        kind == 6 ==> e.offset < pow2(c),
    ensures
        ({
            let bits = crate::map::entry_bits(e, kind, a, b, c);
            &&& kind <= 3 ==> bits.len() == a + 16 && bitstream::bits_value(bits.take(a as int)) == e.length
                && bitstream::bits_value(bits.skip(a as int)) == e.crc
            &&& kind == 4 ==> bits.len() == 16 && bitstream::bits_value(bits) == e.crc
            &&& kind == 5 ==> bits.len() == b && bitstream::bits_value(bits) == e.offset
            &&& kind == 6 ==> bits.len() == c && bitstream::bits_value(bits) == e.offset
            &&& kind > 6 ==> bits.len() == 0
        }),
{
    let bits = crate::map::entry_bits(e, kind, a, b, c);
    lemma2_to64();
    bitstream::lemma_value_bits(e.crc as u32, 16);
    vstd::arithmetic::div_mod::lemma_small_mod(e.crc as nat, pow2(16));
    if kind <= 3 {
        bitstream::lemma_value_bits(e.length, a);
        vstd::arithmetic::div_mod::lemma_small_mod(e.length as nat, pow2(a));
        assert(bits.take(a as int) =~= bitstream::value_bits(e.length, a));
        assert(bits.skip(a as int) =~= bitstream::value_bits(e.crc as u32, 16));
    } else if kind == 5 {
        bitstream::lemma_value_bits(e.offset as u32, b);
        vstd::arithmetic::div_mod::lemma_small_mod(e.offset as nat, pow2(b));
    } else if kind == 6 {
        bitstream::lemma_value_bits(e.offset as u32, c);
        vstd::arithmetic::div_mod::lemma_small_mod(e.offset as nat, pow2(c));
    }
}

/// The entries follow each other behind the kinds, one after the other from the first hunk on.
pub proof fn entries_follow_each_other(
    m: Seq<RawEntry>,
    kinds: Seq<u8>,
    a: nat,
    b: nat,
    c: nat,
    i: int,
)
    requires
        0 <= i < m.len(),
        kinds.len() == m.len(),
    ensures
        ({
            let before = crate::map::entries_bits(m, kinds, a, b, c, i as nat);
            let own = crate::map::entry_bits(m[i], kinds[i], a, b, c);
            let all = crate::map::entries_bits(m, kinds, a, b, c, m.len());
            &&& before.len() + own.len() <= all.len()
            &&& all.take(before.len() as int) == before
            &&& all.subrange(before.len() as int, (before.len() + own.len()) as int) == own
        }),
{
    lemma_entries_prefix(m, kinds, a, b, c, (i + 1) as nat, m.len());
    let before = crate::map::entries_bits(m, kinds, a, b, c, i as nat);
    let own = crate::map::entry_bits(m[i], kinds[i], a, b, c);
    let both = crate::map::entries_bits(m, kinds, a, b, c, (i + 1) as nat);
    let all = crate::map::entries_bits(m, kinds, a, b, c, m.len());
    assert(both == before + own);
    let n = both.len() as int;
    assert(all.take(before.len() as int) =~= all.take(n).take(before.len() as int));
    assert((before + own).take(before.len() as int) =~= before);
    assert(all.subrange(before.len() as int, n) =~= all.take(n).subrange(before.len() as int, n));
    assert((before + own).subrange(before.len() as int, n) =~= own);
}

proof fn lemma_entries_prefix(m: Seq<RawEntry>, kinds: Seq<u8>, a: nat, b: nat, c: nat, k: nat, n: nat)
    requires
        k <= n,
    ensures
        ({
            let x = crate::map::entries_bits(m, kinds, a, b, c, k);
            let y = crate::map::entries_bits(m, kinds, a, b, c, n);
            x.len() <= y.len() && y.take(x.len() as int) == x
        }),
    decreases n - k,
{
    let x = crate::map::entries_bits(m, kinds, a, b, c, k);
    let y = crate::map::entries_bits(m, kinds, a, b, c, n);
    if k < n {
        lemma_entries_prefix(m, kinds, a, b, c, k, (n - 1) as nat);
        let z = crate::map::entries_bits(m, kinds, a, b, c, (n - 1) as nat);
        assert(y.take(x.len() as int) =~= z.take(x.len() as int));
    } else {
        assert(y.take(x.len() as int) =~= x);
    }
}

/// The widths of a packed map are no more than the greatest of their numbers needs.
pub proof fn widths_hold_the_greatest(v: nat)
    ensures
        v < pow2(huffman_encode::bit_length(v)),
        v > 0 ==> v >= pow2((huffman_encode::bit_length(v) - 1) as nat),
        v == 0 ==> huffman_encode::bit_length(v) == 0,
    decreases v,
{
    lemma2_to64();
    if v > 0 {
        let n = huffman_encode::bit_length(v / 2);
        widths_hold_the_greatest(v / 2);
        lemma_pow2_unfold(n + 1);
        if n > 0 {
            lemma_pow2_unfold(n);
        }
    }
}

/// The greatest length of the stored hunks, and the greatest reference of a kind, are that.
pub proof fn greatest_numbers(m: Seq<RawEntry>, kinds: Seq<u8>, kind: u8, n: nat)
    requires
        n <= m.len(),
        n <= kinds.len(),
    ensures
        forall|i: int|
            0 <= i < n && (#[trigger] m[i]).kind <= 4 ==> m[i].length <= crate::map::max_length(m, n),
        crate::map::max_length(m, n) > 0 ==> exists|i: int|
            0 <= i < n && (#[trigger] m[i]).length == crate::map::max_length(m, n) && m[i].kind != 5 && m[i].kind
                != 6,
        forall|i: int|
            0 <= i < n && kinds[i] == kind ==> (#[trigger] m[i]).offset <= crate::map::max_ref(
                m,
                kinds,
                kind,
                n,
            ),
        crate::map::max_ref(m, kinds, kind, n) > 0 ==> exists|i: int|
            0 <= i < n && (#[trigger] m[i]).offset == crate::map::max_ref(m, kinds, kind, n) && kinds[i]
                == kind,
    decreases n,
{
    if n > 0 {
        let k = (n - 1) as nat;
        greatest_numbers(m, kinds, kind, k);
        let e = m[n - 1];
        if crate::map::max_length(m, n) > 0 {
            if crate::map::max_length(m, n) != crate::map::max_length(m, k) {
                assert(m[n - 1].length == crate::map::max_length(m, n));
            } else {
                let i = choose|i: int|
                    0 <= i < k && (#[trigger] m[i]).length == crate::map::max_length(m, k) && m[i].kind != 5
                        && m[i].kind != 6;
                assert(m[i].length == crate::map::max_length(m, n));
            }
        }
        if crate::map::max_ref(m, kinds, kind, n) > 0 {
            if crate::map::max_ref(m, kinds, kind, n) != crate::map::max_ref(m, kinds, kind, k) {
                assert(m[n - 1].offset == crate::map::max_ref(m, kinds, kind, n));
            } else {
                let i = choose|i: int|
                    0 <= i < k && (#[trigger] m[i]).offset == crate::map::max_ref(m, kinds, kind, k)
                        && kinds[i] == kind;
                assert(m[i].offset == crate::map::max_ref(m, kinds, kind, n));
            }
        }
    }
}

/// The bits of a packed map: the lengths of the codes of sixteen tokens in fields of four bits, the
/// tokens in these codes, which have at most eight bits, and the entries.
pub proof fn parts_of_a_packed_map(m: Seq<RawEntry>, hunk_bytes: u32, unit_bytes: u32)
    ensures
        ({
            let kinds = crate::map::compact_kinds(m, hunk_bytes, unit_bytes);
            let tokens = crate::map::kind_tokens(kinds, 0);
            let lengths = huffman_encode::code_lengths(huffman_encode::histogram(tokens, 16), 8);
            &&& kinds.len() == m.len()
            &&& forall|i: int|
                0 <= i < m.len() ==> #[trigger] kinds[i] == crate::map::compact_kind(
                    m,
                    i,
                    hunk_bytes,
                    unit_bytes,
                )
            &&& crate::map::map_bits(m, hunk_bytes, unit_bytes) == huffman_encode::rle_tree_bits(
                lengths,
                0,
                4,
            ) + huffman_encode::coded(lengths, tokens) + crate::map::entries_bits(
                m,
                kinds,
                huffman_encode::bit_length(crate::map::max_length(m, m.len()) as nat),
                huffman_encode::bit_length(crate::map::max_ref(m, kinds, 5, m.len()) as nat),
                huffman_encode::bit_length(crate::map::max_ref(m, kinds, 6, m.len()) as nat),
                m.len(),
            )
        }),
{
}

} // verus!
