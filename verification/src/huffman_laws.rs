//! Laws of Huffman codes: which codes symbols get, and how the lengths of codes are written down.

use crate::bitstream;
use crate::format_laws;
use crate::huffman_encode;
use crate::huffman_encode::Token;
use crate::huffman_tree;
use crate::huffman_tree::Tree;
use crate::map_laws;
use vstd::arithmetic::power2::*;
use vstd::prelude::*;

verus! {

/// The bits of a run of bytes stand for the same number as the bytes.
pub proof fn bits_of_bytes(f: Seq<u8>, at: int, n: nat)
    requires
        0 <= at,
        at + n <= f.len(),
    ensures
        bitstream::byte_bits(f).len() == 8 * f.len(),
        bitstream::bits_value(bitstream::byte_bits(f).subrange(8 * at, 8 * (at + n)))
            == format_laws::number_at(f, at, n),
    decreases n,
{
    let bits = bitstream::byte_bits(f);
    if n > 0 {
        bits_of_bytes(f, at, (n - 1) as nat);
        let p = at + n - 1;
        let s = bits.subrange(8 * at, 8 * (at + n));
        let t = bits.subrange(8 * at, 8 * p);
        assert(s.take(t.len() as int) =~= t);
        lemma_eight(s, t, f[p]);
    }
}

proof fn lemma_eight(s: Seq<bool>, t: Seq<bool>, b: u8)
    requires
        s.len() == t.len() + 8,
        s.take(t.len() as int) == t,
        forall|i: int| 0 <= i < 8 ==> #[trigger] s[t.len() + i] == bitstream::byte_bit(b, i),
    ensures
        bitstream::bits_value(s) == bitstream::bits_value(t) * 256 + b,
{
    reveal_with_fuel(bitstream::bits_value, 9);
    let n = t.len() as int;
    let s7 = s.drop_last();
    let s6 = s7.drop_last();
    let s5 = s6.drop_last();
    let s4 = s5.drop_last();
    let s3 = s4.drop_last();
    let s2 = s3.drop_last();
    let s1 = s2.drop_last();
    let s0 = s1.drop_last();
    assert(s0 =~= t);
    assert(s.last() == s[n + 7] && s7.last() == s[n + 6] && s6.last() == s[n + 5] && s5.last() == s[n + 4]
        && s4.last() == s[n + 3] && s3.last() == s[n + 2] && s2.last() == s[n + 1] && s1.last() == s[n + 0]);
    let one = |x: bool|
        if x {
            1nat
        } else {
            0nat
        };
    assert(b == 128 * ((b >> 7u8) & 1u8) + 64 * ((b >> 6u8) & 1u8) + 32 * ((b >> 5u8) & 1u8) + 16 * ((b
        >> 4u8) & 1u8) + 8 * ((b >> 3u8) & 1u8) + 4 * ((b >> 2u8) & 1u8) + 2 * ((b >> 1u8) & 1u8) + ((b
        >> 0u8) & 1u8)) by (bit_vector);
    assert(((b >> 7u8) & 1u8) <= 1 && ((b >> 6u8) & 1u8) <= 1 && ((b >> 5u8) & 1u8) <= 1 && ((b >> 4u8)
        & 1u8) <= 1 && ((b >> 3u8) & 1u8) <= 1 && ((b >> 2u8) & 1u8) <= 1 && ((b >> 1u8) & 1u8) <= 1 && ((b
        >> 0u8) & 1u8) <= 1) by (bit_vector);
}

/// A symbol is written as its code, in as many bits as its length says, the greatest bit first.
pub proof fn bits_of_a_symbol(lengths: Seq<u8>, c: int)
    requires
        0 <= c < lengths.len() <= 256,
        1 <= lengths[c] <= 32,
        huffman_tree::codes_fit(lengths),
    ensures
        huffman_encode::symbol_bits(lengths, c).len() == lengths[c],
        bitstream::bits_value(huffman_encode::symbol_bits(lengths, c)) == huffman_tree::canonical_code(
            lengths,
            c,
        ),
{
    let v = huffman_tree::canonical_code(lengths, c);
    huffman_encode::lemma_code_small(lengths, c);
    assert(v < pow2(lengths[c] as nat));
    bitstream::lemma_value_bits(v as u32, lengths[c] as nat);
    vstd::arithmetic::div_mod::lemma_small_mod(v, pow2(lengths[c] as nat));
}

/// Symbols are written one after the other.
pub proof fn symbols_follow_each_other(lengths: Seq<u8>, a: Seq<u8>, c: u8, b: Seq<u8>)
    ensures
        huffman_encode::coded(lengths, a + seq![c] + b) == huffman_encode::coded(lengths, a)
            + huffman_encode::symbol_bits(lengths, c as int) + huffman_encode::coded(lengths, b),
    decreases b.len(),
{
    let all = a + seq![c] + b;
    let front = huffman_encode::coded(lengths, a) + huffman_encode::symbol_bits(lengths, c as int);
    if b.len() == 0 {
        assert(all.drop_last() =~= a);
        assert(front + huffman_encode::coded(lengths, b) =~= front);
    } else {
        symbols_follow_each_other(lengths, a, c, b.drop_last());
        assert(all.drop_last() =~= a + seq![c] + b.drop_last());
        let last = huffman_encode::symbol_bits(lengths, b.last() as int);
        assert(front + (huffman_encode::coded(lengths, b.drop_last()) + last) =~= front
            + huffman_encode::coded(lengths, b.drop_last()) + last);
    }
}

/// The order of codes. Of two codes of one length, the one of the lower symbol is the lower, and those of
/// the symbols between them lie between them without gaps. A longer code, cut to a shorter length, is
/// lower than every code of that length. The lowest of the longest codes is zero.
pub proof fn order_of_codes(lengths: Seq<u8>, c: int, d: int)
    requires
        huffman_tree::full_levels(lengths),
        0 <= c < lengths.len(),
        0 <= d < lengths.len(),
        1 <= lengths[c] <= 32,
        1 <= lengths[d] <= 32,
    ensures
        lengths[c] == lengths[d] && c < d ==> huffman_tree::canonical_code(lengths, c)
            < huffman_tree::canonical_code(lengths, d),
        lengths[c] == lengths[d] && c < d && (forall|k: int|
            c < k < d ==> #[trigger] lengths[k] != lengths[c]) ==> huffman_tree::canonical_code(lengths, d)
            == huffman_tree::canonical_code(lengths, c) + 1,
        lengths[c] > lengths[d] ==> huffman_tree::canonical_code(lengths, c) / pow2(
            (lengths[c] - lengths[d]) as nat,
        ) < huffman_tree::canonical_code(lengths, d),
        (forall|k: int| 0 <= k < lengths.len() ==> #[trigger] lengths[k] <= lengths[c]) && (forall|k: int|
            0 <= k < c ==> #[trigger] lengths[k] != lengths[c]) ==> huffman_tree::canonical_code(lengths, c)
            == 0,
{
    let l = lengths[c];
    if lengths[c] == lengths[d] && c < d {
        huffman_tree::lemma_count_mono(lengths, l, c as nat, d as nat);
        if forall|k: int| c < k < d ==> #[trigger] lengths[k] != l {
            lemma_count_gap(lengths, l, c, d);
        }
    }
    if lengths[c] > lengths[d] {
        huffman_tree::lemma_count_mono(lengths, l, c as nat, lengths.len());
        huffman_tree::lemma_longer_below(
            lengths,
            l as nat,
            lengths[d] as nat,
            huffman_tree::canonical_code(lengths, c),
        );
    }
    if (forall|k: int| 0 <= k < lengths.len() ==> #[trigger] lengths[k] <= l) && (forall|k: int|
        0 <= k < c ==> #[trigger] lengths[k] != l) {
        lemma_count_zero(lengths, l, c as nat);
        lemma_longest_first(lengths, l as nat);
    }
}

proof fn lemma_count_gap(lengths: Seq<u8>, l: u8, c: int, d: int)
    requires
        0 <= c < d <= lengths.len(),
        lengths[c] == l,
        forall|k: int| c < k < d ==> #[trigger] lengths[k] != l,
    ensures
        huffman_tree::count_of(lengths, l, d as nat) == huffman_tree::count_of(lengths, l, c as nat) + 1,
    decreases d,
{
    if c + 1 < d {
        lemma_count_gap(lengths, l, c, d - 1);
        assert(lengths[d - 1] != l);
    }
}

proof fn lemma_count_zero(lengths: Seq<u8>, l: u8, n: nat)
    requires
        n <= lengths.len(),
        forall|k: int| 0 <= k < n ==> #[trigger] lengths[k] != l,
    ensures
        huffman_tree::count_of(lengths, l, n) == 0,
    decreases n,
{
    if n > 0 {
        lemma_count_zero(lengths, l, (n - 1) as nat);
        assert(lengths[n - 1] != l);
    }
}

proof fn lemma_longest_first(lengths: Seq<u8>, l: nat)
    requires
        1 <= l <= 32,
        forall|k: int| 0 <= k < lengths.len() ==> #[trigger] lengths[k] <= l,
    ensures
        huffman_tree::first_code(lengths, l) == 0,
    decreases 32 - l,
{
    if l < 32 {
        lemma_longest_first(lengths, l + 1);
        lemma_count_zero(lengths, (l + 1) as u8, lengths.len());
    }
}

/// The two lightest trees of a list are joined. What is left is in the order of its weights again, has
/// one tree less, and in place of the two one that weighs as much as both; no other tree changes.
pub proof fn lightest_trees_are_joined(list: Seq<Tree>)
    requires
        list.len() >= 2,
        huffman_tree::sorted(list),
        list[list.len() - 2].spec_weight() + list[list.len() - 1].spec_weight() <= u32::MAX,
    ensures
        ({
            let n = list.len() as int;
            let a = list[n - 2];
            let b = list[n - 1];
            let both = Tree::Node {
                weight: (a.spec_weight() + b.spec_weight()) as u32,
                left: Box::new(a),
                right: Box::new(b),
            };
            let next = huffman_tree::step(list);
            &&& forall|i: int|
                0 <= i < n - 2 ==> (#[trigger] list[i]).spec_weight() >= a.spec_weight() >= b.spec_weight()
            &&& next.len() == n - 1
            &&& huffman_tree::sorted(next)
            &&& exists|p: int|
                0 <= p < n - 1 && #[trigger] next[p] == both && next.remove(p) == list.take(n - 2)
                    && forall|q: int|
                    p < q < n - 1 ==> (#[trigger] next[q]).spec_weight() < both.spec_weight()
        }),
{
    let n = list.len() as int;
    let rest = list.take(n - 2);
    let both = huffman_tree::joined(list[n - 2], list[n - 1]);
    let p = huffman_tree::insert_point(rest, both.spec_weight(), 0);
    huffman_tree::lemma_insert_point(rest, both.spec_weight(), 0);
    assert(huffman_tree::sorted(rest)) by {
        assert forall|i: int, j: int| 0 <= i <= j < rest.len() implies (#[trigger] rest[i]).spec_weight() >= (
        #[trigger] rest[j]).spec_weight() by {
            assert(rest[i] == list[i] && rest[j] == list[j]);
        }
    }
    huffman_tree::lemma_inserted_sorted(rest, both);
    let next = huffman_tree::step(list);
    assert(next == rest.insert(p, both));
    assert(next[p] == both);
    assert(next.remove(p) =~= rest);
    assert forall|q: int| p < q < n - 1 implies (#[trigger] next[q]).spec_weight() < both.spec_weight() by {
        assert(next[q] == rest[q - 1]);
        assert(rest[p].spec_weight() >= rest[q - 1].spec_weight());
    }
}

/// The weight of a symbol is its share of the scale, and no less than one. A symbol that occurs more
/// often weighs no less.
pub proof fn weights_follow_counts(a: u32, b: u32, total: u32, scale: u32)
    requires
        0 < a <= b <= total,
        scale <= 2 * total,
    ensures
        1 <= huffman_tree::scaled_weight(a, total, scale) <= huffman_tree::scaled_weight(b, total, scale),
        huffman_tree::scaled_weight(a, total, scale) > 1 ==> huffman_tree::scaled_weight(a, total, scale)
            * total <= a * scale < (huffman_tree::scaled_weight(a, total, scale) + 1) * total,
        scale == total ==> huffman_tree::scaled_weight(a, total, scale) == a,
{
    let x = a as int * scale as int;
    let y = b as int * scale as int;
    let t = total as int;
    assert(0 <= x <= y) by (nonlinear_arith)
        requires
            0 < a <= b,
            x == a as int * scale as int,
            y == b as int * scale as int,
            scale >= 0,
    ;
    assert(y <= t * scale as int) by (nonlinear_arith)
        requires
            b <= t,
            y == b as int * scale as int,
            scale >= 0,
    ;
    vstd::arithmetic::div_mod::lemma_div_is_ordered(x, y, t);
    vstd::arithmetic::div_mod::lemma_fundamental_div_mod(x, t);
    vstd::arithmetic::div_mod::lemma_fundamental_div_mod(y, t);
    vstd::arithmetic::div_mod::lemma_div_pos_is_pos(x, t);
    vstd::arithmetic::div_mod::lemma_div_pos_is_pos(y, t);
    let q = x / t;
    let r = y / t;
    assert(r <= scale) by (nonlinear_arith)
        requires
            y == t * r + y % t,
            0 <= y % t,
            y <= t * scale as int,
            t > 0,
    ;
    assert((q + 1) * t == q * t + t) by (nonlinear_arith);
    assert(q * t == t * q) by (nonlinear_arith);
    if scale == total {
        vstd::arithmetic::div_mod::lemma_div_multiples_vanish(a as int, t);
        assert(x == t * a as int) by (nonlinear_arith)
            requires
                x == a as int * scale as int,
                scale == t,
        ;
    }
}

/// What fields stand for where one is the escape: two of them stand for a one, and one of them with a
/// value and a number behind it for that value as many times and three more. Every other field stands
/// for itself.
pub open spec fn unescaped(fields: Seq<u8>) -> Seq<u8>
    decreases fields.len(),
{
    if fields.len() == 0 {
        Seq::empty()
    } else if fields[0] != 1 {
        seq![fields[0]] + unescaped(fields.skip(1))
    } else if fields.len() < 2 {
        Seq::empty()
    } else if fields[1] == 1 {
        seq![1u8] + unescaped(fields.skip(2))
    } else if fields.len() < 3 {
        Seq::empty()
    } else {
        map_laws::times(fields[1], (fields[2] + 3) as nat) + unescaped(fields.skip(3))
    }
}

/// Fields of four bits each, one after the other.
pub open spec fn in_fields(fields: Seq<u8>) -> Seq<bool>
    decreases fields.len(),
{
    if fields.len() == 0 {
        Seq::empty()
    } else {
        bitstream::value_bits(fields[0] as u32, 4) + in_fields(fields.skip(1))
    }
}

proof fn lemma_fields_concat(a: Seq<u8>, b: Seq<u8>)
    ensures
        in_fields(a + b) == in_fields(a) + in_fields(b),
    decreases a.len(),
{
    if a.len() == 0 {
        assert(a + b =~= b);
        assert(in_fields(a) + in_fields(b) =~= in_fields(b));
    } else {
        lemma_fields_concat(a.skip(1), b);
        assert((a + b).skip(1) =~= a.skip(1) + b);
        let f = bitstream::value_bits(a[0] as u32, 4);
        assert(f + (in_fields(a.skip(1)) + in_fields(b)) =~= f + in_fields(a.skip(1)) + in_fields(b));
    }
}

proof fn lemma_run_fields(v: u8, n: int, rest: Seq<u8>) -> (fields: Seq<u8>)
    requires
        0 <= n,
        v < 16,
        forall|i: int| 0 <= i < rest.len() ==> #[trigger] rest[i] < 16,
    ensures
        in_fields(fields) == huffman_encode::rle_run_bits(v, n, 4) + in_fields(rest),
        unescaped(fields) == map_laws::times(v, n as nat) + unescaped(rest),
        forall|i: int| 0 <= i < fields.len() ==> #[trigger] fields[i] < 16,
    decreases n,
{
    lemma2_to64();
    let bits = huffman_encode::rle_run_bits(v, n, 4);
    let field = bitstream::value_bits(v as u32, 4);
    let one = bitstream::value_bits(1, 4);
    if n == 0 {
        assert(bits + in_fields(rest) =~= in_fields(rest));
        assert(map_laws::times(v, 0) + unescaped(rest) =~= unescaped(rest));
        rest
    } else if v == 1 {
        let more = lemma_run_fields(v, n - 1, rest);
        let f = seq![1u8, 1u8] + more;
        assert(f.skip(1) =~= seq![1u8] + more);
        assert(f.skip(2) =~= more);
        assert((seq![1u8] + more).skip(1) =~= more);
        assert(f.skip(1)[0] == 1);
        assert(in_fields(f.skip(1)) == one + in_fields(more));
        assert(in_fields(f) == one + (one + in_fields(more)));
        let tail = huffman_encode::rle_run_bits(v, n - 1, 4);
        assert(one + (one + (tail + in_fields(rest))) =~= one + one + tail + in_fields(rest));
        assert(seq![1u8] + (map_laws::times(v, (n - 1) as nat) + unescaped(rest)) =~= map_laws::times(
            v,
            n as nat,
        ) + unescaped(rest));
        f
    } else if n <= 2 {
        let more = lemma_run_fields(v, n - 1, rest);
        let f = seq![v] + more;
        assert(f.skip(1) =~= more);
        let tail = huffman_encode::rle_run_bits(v, n - 1, 4);
        assert(field + (tail + in_fields(rest)) =~= field + tail + in_fields(rest));
        assert(seq![v] + (map_laws::times(v, (n - 1) as nat) + unescaped(rest)) =~= map_laws::times(
            v,
            n as nat,
        ) + unescaped(rest));
        f
    } else {
        let reps = if n - 3 < 15 {
            n - 3
        } else {
            15
        };
        let more = lemma_run_fields(v, n - (reps + 3), rest);
        let f = seq![1u8, v, reps as u8] + more;
        assert(f.skip(3) =~= more);
        assert(f.skip(1) =~= seq![v, reps as u8] + more);
        assert(f.skip(1).skip(1) =~= seq![reps as u8] + more);
        assert(f.skip(1).skip(1).skip(1) =~= more);
        let count = bitstream::value_bits(reps as u32, 4);
        assert(in_fields(f.skip(1).skip(1)) == count + in_fields(more));
        assert(in_fields(f.skip(1)) == field + (count + in_fields(more)));
        assert(in_fields(f) == one + (field + (count + in_fields(more))));
        let tail = huffman_encode::rle_run_bits(v, n - (reps + 3), 4);
        assert(bits == one + field + count + tail);
        assert(one + (field + (count + (tail + in_fields(rest)))) =~= one + field + count + tail + in_fields(
            rest,
        ));
        assert(map_laws::times(v, (reps + 3) as nat) + (map_laws::times(v, (n - (reps + 3)) as nat)
            + unescaped(rest)) =~= map_laws::times(v, n as nat) + unescaped(rest));
        f
    }
}

proof fn lemma_tree_fields(lengths: Seq<u8>, i: int) -> (fields: Seq<u8>)
    requires
        0 <= i <= lengths.len(),
        forall|k: int| 0 <= k < lengths.len() ==> #[trigger] lengths[k] < 16,
    ensures
        huffman_encode::rle_tree_bits(lengths, i, 4) == in_fields(fields),
        unescaped(fields) == lengths.skip(i),
        forall|k: int| 0 <= k < fields.len() ==> #[trigger] fields[k] < 16,
    decreases lengths.len() - i,
{
    if i < lengths.len() {
        let v = lengths[i];
        let end = huffman_encode::run_end(lengths, v, i + 1);
        huffman_encode::lemma_run_end(lengths, v, i + 1);
        let rest = lemma_tree_fields(lengths, end);
        let f = lemma_run_fields(v, end - i, rest);
        assert(lengths.skip(i) =~= map_laws::times(v, (end - i) as nat) + lengths.skip(end));
        f
    } else {
        assert(lengths.skip(i) =~= Seq::empty());
        Seq::empty()
    }
}

/// The lengths of the codes of a packed map are written in fields of four bits that stand for them.
pub proof fn lengths_in_fields(lengths: Seq<u8>) -> (fields: Seq<u8>)
    requires
        forall|k: int| 0 <= k < lengths.len() ==> #[trigger] lengths[k] < 16,
    ensures
        huffman_encode::rle_tree_bits(lengths, 0, 4) == in_fields(fields),
        unescaped(fields) == lengths,
        forall|k: int| 0 <= k < fields.len() ==> #[trigger] fields[k] < 16,
        huffman_encode::rle_width(8) == 4,
{
    assert(lengths.skip(0) =~= lengths);
    lemma_tree_fields(lengths, 0)
}

/// What the tokens for the code lengths of bytes stand for, where `last` is the last length: a token
/// above zero for a length one below it; zero for the last length, two more times than it counts.
pub open spec fn lengths_of(tokens: Seq<Token>, last: u8) -> Seq<u8>
    decreases tokens.len(),
{
    if tokens.len() == 0 {
        Seq::empty()
    } else if tokens[0].data == 0 {
        map_laws::times(last, (tokens[0].count + 2) as nat) + lengths_of(tokens.skip(1), last)
    } else {
        seq![(tokens[0].data - 1) as u8] + lengths_of(tokens.skip(1), (tokens[0].data - 1) as u8)
    }
}

proof fn lemma_tokens_of(lengths: Seq<u8>, i: int, last: u8)
    requires
        0 <= i <= lengths.len() <= 256,
        forall|k: int| 0 <= k < lengths.len() ==> #[trigger] lengths[k] <= 16,
    ensures
        lengths_of(huffman_encode::tree_tokens(lengths, i), last) == lengths.skip(i),
    decreases lengths.len() - i,
{
    let all = huffman_encode::tree_tokens(lengths, i);
    if i < lengths.len() {
        let v = lengths[i];
        let end = huffman_encode::run_end(lengths, v, i + 1);
        huffman_encode::lemma_run_end(lengths, v, i + 1);
        let n = end - i;
        let rest = huffman_encode::tree_tokens(lengths, end);
        lemma_tokens_of(lengths, end, v);
        assert(lengths.skip(i) =~= map_laws::times(v, n as nat) + lengths.skip(end));
        assert(all[0].data == v + 1);
        reveal_with_fuel(lengths_of, 3);
        if n == 1 {
            assert(all.skip(1) =~= rest);
            assert(seq![v] + lengths.skip(end) =~= lengths.skip(i));
        } else if n == 2 {
            assert(all.skip(1)[0].data == v + 1);
            assert(all.skip(1).skip(1) =~= rest);
            assert(seq![v] + (seq![v] + lengths.skip(end)) =~= lengths.skip(i));
        } else {
            assert(all.skip(1)[0].data == 0 && all.skip(1)[0].count == n - 3);
            assert(all.skip(1).skip(1) =~= rest);
            assert(seq![v] + (map_laws::times(v, (n - 1) as nat) + lengths.skip(end)) =~= lengths.skip(i));
        }
    } else {
        assert(lengths.skip(i) =~= Seq::empty());
    }
}

/// The tokens for the code lengths of bytes stand for them.
pub proof fn tokens_stand_for_lengths(lengths: Seq<u8>)
    requires
        lengths.len() <= 256,
        forall|k: int| 0 <= k < lengths.len() ==> #[trigger] lengths[k] <= 16,
    ensures
        lengths_of(huffman_encode::tree_tokens(lengths, 0), 0) == lengths,
{
    lemma_tokens_of(lengths, 0, 0);
    assert(lengths.skip(0) =~= lengths);
}

/// A token is written as its code in the small code. Behind a repeat stands its count in three bits; a
/// count of seven or more is seven there, and what it is above seven stands behind that.
pub proof fn bits_of_a_token(small: Seq<u8>, t: Token, width: nat)
    requires
        width <= 32,
        t.count - 7 < pow2(width),
    ensures
        ({
            let code = huffman_encode::symbol_bits(small, t.data as int);
            let bits = huffman_encode::token_bits(small, t, width);
            let more = bits.skip(code.len() as int);
            &&& bits.len() >= code.len()
            &&& bits.take(code.len() as int) == code
            &&& t.data != 0 ==> more.len() == 0
            &&& t.data == 0 && t.count < 7 ==> more.len() == 3 && bitstream::bits_value(more) == t.count
            &&& t.data == 0 && t.count >= 7 ==> more.len() == 3 + width && bitstream::bits_value(more.take(3))
                == 7 && bitstream::bits_value(more.skip(3)) == t.count - 7
        }),
{
    lemma2_to64();
    let code = huffman_encode::symbol_bits(small, t.data as int);
    let bits = huffman_encode::token_bits(small, t, width);
    let more = bits.skip(code.len() as int);
    assert(bits.take(code.len() as int) =~= code);
    if t.data == 0 {
        if t.count < 7 {
            bitstream::lemma_value_bits(t.count as u32, 3);
            vstd::arithmetic::div_mod::lemma_small_mod(t.count as nat, 8);
            assert(more =~= bitstream::value_bits(t.count as u32, 3));
        } else {
            let v = (t.count - 7) as u32;
            bitstream::lemma_value_bits(7, 3);
            bitstream::lemma_value_bits(v, width);
            vstd::arithmetic::div_mod::lemma_small_mod(v as nat, pow2(width));
            assert(more.take(3) =~= bitstream::value_bits(7, 3));
            assert(more.skip(3) =~= bitstream::value_bits(v, width));
        }
    }
}

/// The lengths of the small code, in three bits each: that of symbol 0, then how many symbols above it
/// are passed over at first, then the others up to the last one that is used, and seven for the end.
pub proof fn lengths_of_the_small_code(small: Seq<u8>) -> (r: (int, int))
    requires
        small.len() == 24,
        forall|k: int| 0 <= k < small.len() ==> #[trigger] small[k] < 7,
    ensures
        ({
            let (start, stop) = r;
            let bits = huffman_encode::small_header(small);
            let shown = if stop > start {
                stop - start
            } else {
                0
            };
            &&& 1 <= start <= 8
            &&& 1 <= stop <= 24
            &&& forall|k: int| 1 <= k < start ==> #[trigger] small[k] == 0
            &&& forall|k: int| stop <= k < 24 ==> #[trigger] small[k] == 0
            &&& bits.len() == 9 + 3 * shown
            &&& bitstream::bits_value(bits.subrange(0, 3)) == small[0]
            &&& bitstream::bits_value(bits.subrange(3, 6)) == start - 1
            &&& forall|k: int|
                start <= k < stop ==> bitstream::bits_value(
                    bits.subrange(6 + 3 * (k - start), 9 + 3 * (k - start)),
                ) == #[trigger] small[k]
            &&& bitstream::bits_value(bits.subrange(6 + 3 * shown, 9 + 3 * shown)) == 7
        }),
{
    lemma2_to64();
    let start = huffman_encode::list_start(small);
    let stop = huffman_encode::list_stop(small, small.len() as int);
    huffman_encode::lemma_first_used(small, 1);
    huffman_encode::lemma_list_stop(small, small.len() as int);
    lemma_unused(small, 1);
    lemma_stopped(small, small.len() as int);
    let list = huffman_encode::small_list_bits(small, start, stop);
    let a = bitstream::value_bits(small[0] as u32, 3);
    let b = bitstream::value_bits((start - 1) as u32, 3);
    let c = bitstream::value_bits(7, 3);
    let bits = huffman_encode::small_header(small);
    lemma_list_len(small, start, stop);
    assert(bits == a + b + list + c);
    lemma_three(small[0] as u32);
    lemma_three((start - 1) as u32);
    lemma_three(7);
    assert(bits.subrange(0, 3) =~= a);
    assert(bits.subrange(3, 6) =~= b);
    let shown = if stop > start {
        stop - start
    } else {
        0
    };
    assert(bits.subrange(6 + 3 * shown, 9 + 3 * shown) =~= c);
    assert forall|k: int| start <= k < stop implies bitstream::bits_value(
        bits.subrange(6 + 3 * (k - start), 9 + 3 * (k - start)),
    ) == #[trigger] small[k] by {
        lemma_list_at(small, start, stop, k);
        lemma_three(small[k] as u32);
        assert(bits.subrange(6 + 3 * (k - start), 9 + 3 * (k - start)) =~= list.subrange(
            3 * (k - start),
            3 * (k - start) + 3,
        ));
    }
    (start, stop)
}

proof fn lemma_three(v: u32)
    requires
        v < 8,
    ensures
        bitstream::bits_value(bitstream::value_bits(v, 3)) == v,
        bitstream::value_bits(v, 3).len() == 3,
{
    lemma2_to64();
    bitstream::lemma_value_bits(v, 3);
    vstd::arithmetic::div_mod::lemma_small_mod(v as nat, 8);
}

proof fn lemma_unused(small: Seq<u8>, i: int)
    requires
        0 <= i <= small.len(),
    ensures
        i <= huffman_encode::first_used(small, i) <= small.len(),
        forall|k: int| i <= k < huffman_encode::first_used(small, i) ==> #[trigger] small[k] == 0,
    decreases small.len() - i,
{
    if i < small.len() && small[i] == 0 {
        lemma_unused(small, i + 1);
    }
}

proof fn lemma_stopped(small: Seq<u8>, n: int)
    requires
        1 <= n <= small.len(),
    ensures
        1 <= huffman_encode::list_stop(small, n) <= n,
        forall|k: int| huffman_encode::list_stop(small, n) <= k < n ==> #[trigger] small[k] == 0,
    decreases n,
{
    if n > 1 && small[n - 1] == 0 {
        lemma_stopped(small, n - 1);
    }
}

proof fn lemma_list_len(small: Seq<u8>, i: int, stop: int)
    ensures
        huffman_encode::small_list_bits(small, i, stop).len() == if i < stop {
            3 * (stop - i)
        } else {
            0
        },
    decreases stop - i,
{
    if i < stop {
        lemma_list_len(small, i + 1, stop);
    }
}

proof fn lemma_list_at(small: Seq<u8>, i: int, stop: int, k: int)
    requires
        i <= k < stop,
    ensures
        huffman_encode::small_list_bits(small, i, stop).len() == 3 * (stop - i),
        huffman_encode::small_list_bits(small, i, stop).subrange(3 * (k - i), 3 * (k - i) + 3)
            == bitstream::value_bits(small[k] as u32, 3),
    decreases k - i,
{
    lemma_list_len(small, i, stop);
    lemma_list_len(small, i + 1, stop);
    let list = huffman_encode::small_list_bits(small, i, stop);
    let rest = huffman_encode::small_list_bits(small, i + 1, stop);
    if i < k {
        lemma_list_at(small, i + 1, stop, k);
        assert(list.subrange(3 * (k - i), 3 * (k - i) + 3) =~= rest.subrange(
            3 * (k - (i + 1)),
            3 * (k - (i + 1)) + 3,
        ));
    } else {
        assert(list.subrange(0, 3) =~= bitstream::value_bits(small[k] as u32, 3));
    }
}

/// How often a symbol occurs is the number of places where it stands.
pub proof fn occurrences_are_places(data: Seq<u8>, k: u8)
    ensures
        huffman_encode::occurrences(data, k) == data.to_multiset().count(k),
    decreases data.len(),
{
    broadcast use vstd::seq_lib::group_to_multiset_ensures;

    if data.len() > 0 {
        occurrences_are_places(data.drop_last(), k);
        vstd::seq_lib::to_multiset_build(data.drop_last(), data.last());
        assert(data.drop_last().push(data.last()) =~= data);
    }
}

/// Where no code is longer than the limit with the counts themselves as weights, they are the weights.
/// Otherwise the weights are scaled down until no code is longer.
pub proof fn counts_are_weights(histo: Seq<u32>, max_bits: u8)
    requires
        huffman_encode::can_code(histo, max_bits),
    ensures
        ({
            let total = huffman_tree::sum_of(histo, histo.len()) as u32;
            let plain = huffman_tree::tree_lengths(histo, total, total);
            let lengths = huffman_encode::code_lengths(histo, max_bits);
            &&& plain.len() == histo.len() && (forall|c: int|
                0 <= c < histo.len() ==> #[trigger] plain[c] <= max_bits) ==> lengths == plain
            &&& exists|scale: u32|
                scale <= total && lengths == #[trigger] huffman_tree::tree_lengths(histo, total, scale)
            &&& forall|c: int| 0 <= c < histo.len() ==> #[trigger] lengths[c] <= max_bits
        }),
{
    let total = huffman_tree::sum_of(histo, histo.len()) as u32;
    let plain = huffman_tree::tree_lengths(histo, total, total);
    if plain.len() == histo.len() {
        huffman_tree::lemma_longest(plain, histo.len(), max_bits);
    }
    huffman_encode::code_lengths_make_a_code(histo, max_bits);
    let upper = (2 * total) as u32;
    assert((upper + 0) / 2 == total);
    if huffman_tree::longest(plain, histo.len()) > max_bits {
        lemma_scale_below(histo, total, max_bits, 0, total);
    }
}

proof fn lemma_scale_below(histo: Seq<u32>, total: u32, max_bits: u8, lower: u32, upper: u32)
    requires
        lower <= upper,
        2 * upper <= u32::MAX,
    ensures
        huffman_encode::searched_scale(histo, total, max_bits, lower, upper) <= upper,
    decreases upper - lower,
{
    let cur = ((upper + lower) / 2) as u32;
    if huffman_tree::longest(huffman_tree::tree_lengths(histo, total, cur), histo.len()) <= max_bits {
        if !(cur == total || upper - cur <= 1) {
            lemma_scale_below(histo, total, max_bits, cur, upper);
        }
    } else if !(cur == upper || cur == lower) {
        lemma_scale_below(histo, total, max_bits, lower, cur);
    }
}

/// The number of steps from the root of a tree to a symbol.
pub open spec fn depth_of(t: Tree, c: u32) -> nat
    decreases t,
{
    match t {
        Tree::Leaf { .. } => 0,
        Tree::Node { left, right, .. } => if left.has(c) {
            1 + depth_of(*left, c)
        } else {
            1 + depth_of(*right, c)
        },
    }
}

/// The code of a symbol is as long as its way down the tree; one that is alone has one bit.
pub proof fn lengths_are_depths(t: Tree, d: nat, lengths: Seq<u8>, c: u32)
    requires
        t.distinct(),
        d + t.height() <= 255,
        forall|x: u32| #[trigger] t.has(x) ==> x < lengths.len(),
        c < lengths.len(),
    ensures
        huffman_tree::with_lengths(t, d, lengths).len() == lengths.len(),
        t.has(c) ==> huffman_tree::with_lengths(t, d, lengths)[c as int] == if d + depth_of(t, c) == 0 {
            1
        } else {
            d + depth_of(t, c)
        },
        !t.has(c) ==> huffman_tree::with_lengths(t, d, lengths)[c as int] == lengths[c as int],
    decreases t,
{
    match t {
        Tree::Leaf { code, .. } => {
            assert(t.has(code));
        },
        Tree::Node { left, right, .. } => {
            assert forall|x: u32| #[trigger] left.has(x) implies x < lengths.len() by {
                assert(t.has(x));
            }
            assert forall|x: u32| #[trigger] right.has(x) implies x < lengths.len() by {
                assert(t.has(x));
            }
            lengths_are_depths(*left, d + 1, lengths, c);
            lengths_are_depths(*right, d + 1, huffman_tree::with_lengths(*left, d + 1, lengths), c);
            assert(!(left.has(c) && right.has(c)));
        },
    }
}

/// The leaves before any are joined: one for each symbol that occurs, with its weight, the heavier ones
/// first, and of those that weigh the same the lower symbols first.
pub proof fn leaves_are_in_order(histo: Seq<u32>, total: u32, scale: u32, n: nat)
    requires
        n <= histo.len() <= 256,
    ensures
        ({
            let list = huffman_tree::leaves(histo, total, scale, n);
            &&& forall|i: int|
                0 <= i < list.len() ==> (#[trigger] list[i] matches Tree::Leaf { code, weight } && code < n
                    && histo[code as int] > 0 && weight == huffman_tree::scaled_weight(
                    histo[code as int],
                    total,
                    scale,
                ))
            &&& forall|i: int, j: int|
                0 <= i < j < list.len() ==> (#[trigger] list[i])->Leaf_weight > (#[trigger] list[j])->Leaf_weight
                    || list[i]->Leaf_weight == list[j]->Leaf_weight && list[i]->Leaf_code < list[j]->Leaf_code
            &&& list.len() == huffman_tree::used(histo, n)
        }),
    decreases n,
{
    if n > 0 {
        leaves_are_in_order(histo, total, scale, (n - 1) as nat);
        let rest = huffman_tree::leaves(histo, total, scale, (n - 1) as nat);
        let list = huffman_tree::leaves(histo, total, scale, n);
        if histo[n - 1] != 0 {
            let w = huffman_tree::scaled_weight(histo[n - 1], total, scale);
            let t = Tree::Leaf { code: (n - 1) as u32, weight: w };
            let p = huffman_tree::insert_point(rest, w, 0);
            lemma_place(rest, w, 0);
            assert(list == rest.insert(p, t));
            assert forall|i: int| 0 <= i < list.len() implies (#[trigger] list[i] matches Tree::Leaf {
                code,
                weight,
            } && code < n && histo[code as int] > 0 && weight == huffman_tree::scaled_weight(
                histo[code as int],
                total,
                scale,
            )) by {
                if i < p {
                    assert(list[i] == rest[i]);
                } else if i > p {
                    assert(list[i] == rest[i - 1]);
                }
            }
            assert forall|i: int, j: int| 0 <= i < j < list.len() implies (#[trigger] list[i])->Leaf_weight
                > (#[trigger] list[j])->Leaf_weight || list[i]->Leaf_weight == list[j]->Leaf_weight
                && list[i]->Leaf_code < list[j]->Leaf_code by {
                let a = if i < p {
                    i
                } else {
                    i - 1
                };
                let b = if j < p {
                    j
                } else {
                    j - 1
                };
                if i != p {
                    assert(list[i] == rest[a]);
                }
                if j != p {
                    assert(list[j] == rest[b]);
                }
                if i == p && j > p + 1 {
                    assert(rest[p]->Leaf_weight >= rest[b]->Leaf_weight);
                }
            }
        }
    }
}

proof fn lemma_place(list: Seq<Tree>, w: u32, i: int)
    requires
        0 <= i <= list.len(),
    ensures
        ({
            let p = huffman_tree::insert_point(list, w, i);
            &&& i <= p <= list.len()
            &&& forall|k: int| i <= k < p ==> (#[trigger] list[k]).spec_weight() >= w
            &&& p < list.len() ==> list[p].spec_weight() < w
        }),
    decreases list.len() - i,
{
    if i < list.len() && w <= list[i].spec_weight() {
        lemma_place(list, w, i + 1);
    }
}

} // verus!
