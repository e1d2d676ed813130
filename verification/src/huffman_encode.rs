//! Static Huffman coding: code lengths out of a histogram, canonical codes, and the two ways
//! in which the code lengths are written down ahead of the coded symbols.

use crate::bitstream;
use crate::bitstream::BitWriter;
use crate::huffman_tree;
use vstd::arithmetic::power2::*;
use vstd::prelude::*;

verus! {

/// How often symbol `k` occurs.
pub open spec fn occurrences(data: Seq<u8>, k: u8) -> nat
    decreases data.len(),
{
    if data.len() == 0 {
        0
    } else {
        occurrences(data.drop_last(), k) + if data.last() == k {
            1nat
        } else {
            0nat
        }
    }
}

/// The number of times that each of the symbols below `n` occurs.
pub open spec fn histogram(data: Seq<u8>, n: nat) -> Seq<u32> {
    Seq::new(n, |k: int| occurrences(data, k as u8) as u32)
}

/// The weight scale that a binary search between `lower` and `upper` settles on: under it no
/// code is longer than `max_bits`.
pub open spec fn searched_scale(
    histo: Seq<u32>,
    total: u32,
    max_bits: u8,
    lower: u32,
    upper: u32,
) -> u32
    decreases upper - lower,
{
    let cur = ((upper + lower) / 2) as u32;
    if lower > upper {
        lower
    } else if huffman_tree::longest(
        huffman_tree::tree_lengths(histo, total, cur),
        histo.len(),
    ) <= max_bits {
        if cur == total || upper - cur <= 1 {
            cur
        } else {
            searched_scale(histo, total, max_bits, cur, upper)
        }
    } else if cur == upper || cur == lower {
        lower
    } else {
        searched_scale(histo, total, max_bits, lower, cur)
    }
}

/// The code lengths for a histogram, none above `max_bits`.
pub open spec fn code_lengths(histo: Seq<u32>, max_bits: u8) -> Seq<u8> {
    let total = huffman_tree::sum_of(histo, histo.len()) as u32;
    huffman_tree::tree_lengths(
        histo,
        total,
        searched_scale(histo, total, max_bits, 0, (2 * total) as u32),
    )
}

/// What a histogram must meet for codes of at most `max_bits` bits to exist and for the
/// weights to be added up in 32 bits.
pub open spec fn can_code(histo: Seq<u32>, max_bits: u8) -> bool {
    &&& histo.len() <= 256
    &&& 1 <= max_bits <= 32
    &&& 2 * huffman_tree::sum_of(histo, histo.len()) <= u32::MAX
    &&& huffman_tree::used(histo, histo.len()) <= pow2(max_bits as nat)
}

/// The canonical codes for a set of lengths; a symbol without a code has zero.
pub open spec fn codes_of(lengths: Seq<u8>) -> Seq<u32> {
    Seq::new(
        lengths.len(),
        |c: int|
            if lengths[c] == 0 {
                0u32
            } else {
                huffman_tree::canonical_code(lengths, c) as u32
            },
    )
}

/// The bits of symbol `c`.
pub open spec fn symbol_bits(lengths: Seq<u8>, c: int) -> Seq<bool> {
    bitstream::value_bits(codes_of(lengths)[c], lengths[c] as nat)
}

/// The bits of a run of symbols.
pub open spec fn coded(lengths: Seq<u8>, data: Seq<u8>) -> Seq<bool>
    decreases data.len(),
{
    if data.len() == 0 {
        Seq::empty()
    } else {
        coded(lengths, data.drop_last()) + symbol_bits(lengths, data.last() as int)
    }
}

pub proof fn lemma_occurrences_bound(data: Seq<u8>, k: u8)
    ensures
        occurrences(data, k) <= data.len(),
    decreases data.len(),
{
    if data.len() > 0 {
        lemma_occurrences_bound(data.drop_last(), k);
    }
}

/// A symbol that is there occurs.
pub proof fn lemma_occurs(data: Seq<u8>, i: int)
    requires
        0 <= i < data.len(),
    ensures
        occurrences(data, data[i]) > 0,
    decreases data.len(),
{
    if i < data.len() - 1 {
        assert(data.drop_last()[i] == data[i]);
        lemma_occurs(data.drop_last(), i);
    }
}

/// A symbol that is nowhere does not occur.
pub proof fn lemma_occurs_not(data: Seq<u8>, k: u8)
    requires
        forall|i: int| 0 <= i < data.len() ==> data[i] != k,
    ensures
        occurrences(data, k) == 0,
    decreases data.len(),
{
    if data.len() > 0 {
        assert(data[data.len() - 1] != k);
        assert forall|i: int| 0 <= i < data.drop_last().len() implies data.drop_last()[i] != k by {
            assert(data.drop_last()[i] == data[i]);
        }
        lemma_occurs_not(data.drop_last(), k);
    }
}

proof fn lemma_histogram_push(data: Seq<u8>, x: u8, n: nat)
    requires
        x < n <= 256,
        data.len() < u32::MAX,
    ensures
        histogram(data.push(x), n) == histogram(data, n).update(
            x as int,
            (histogram(data, n)[x as int] + 1) as u32,
        ),
        histogram(data, n)[x as int] < u32::MAX,
{
    assert(data.push(x).drop_last() =~= data);
    assert forall|k: int| 0 <= k < n implies #[trigger] histogram(data.push(x), n)[k] == histogram(
        data,
        n,
    ).update(x as int, (histogram(data, n)[x as int] + 1) as u32)[k] by {
        lemma_occurrences_bound(data, k as u8);
    }
    lemma_occurrences_bound(data, x);
    assert(histogram(data.push(x), n) =~= histogram(data, n).update(
        x as int,
        (histogram(data, n)[x as int] + 1) as u32,
    ));
}

proof fn lemma_sum_update(histo: Seq<u32>, c: int, v: u32, n: nat)
    requires
        0 <= c < histo.len(),
        n <= histo.len(),
    ensures
        huffman_tree::sum_of(histo.update(c, v), n) == huffman_tree::sum_of(histo, n) + if c < n {
            v - histo[c]
        } else {
            0
        },
    decreases n,
{
    if n > 0 {
        lemma_sum_update(histo, c, v, (n - 1) as nat);
    }
}

proof fn lemma_sum_zero(histo: Seq<u32>, n: nat)
    requires
        n <= histo.len(),
        forall|i: int| 0 <= i < n ==> histo[i] == 0,
    ensures
        huffman_tree::sum_of(histo, n) == 0,
    decreases n,
{
    if n > 0 {
        lemma_sum_zero(histo, (n - 1) as nat);
    }
}

proof fn lemma_used_bound(histo: Seq<u32>, n: nat)
    ensures
        huffman_tree::used(histo, n) <= n,
    decreases n,
{
    if n > 0 {
        lemma_used_bound(histo, (n - 1) as nat);
    }
}

/// The counts of a histogram add up to the number of symbols.
pub proof fn histogram_counts_all(data: Seq<u8>, n: nat)
    requires
        n <= 256,
        data.len() <= u32::MAX,
        forall|i: int| 0 <= i < data.len() ==> data[i] < n,
    ensures
        huffman_tree::sum_of(histogram(data, n), n) == data.len(),
    decreases data.len(),
{
    if data.len() == 0 {
        lemma_sum_zero(histogram(data, n), n);
    } else {
        let rest = data.drop_last();
        assert forall|i: int| 0 <= i < rest.len() implies rest[i] < n by {
            assert(rest[i] == data[i]);
        }
        histogram_counts_all(rest, n);
        assert(data[data.len() - 1] < n);
        assert(rest.push(data.last()) =~= data);
        lemma_histogram_push(rest, data.last(), n);
        let h = histogram(rest, n);
        let x = data.last() as int;
        lemma_sum_update(h, x, (h[x] + 1) as u32, n);
    }
}

/// A histogram of not too many symbols can be coded where the code length allows for every
/// symbol to occur.
pub proof fn histogram_can_be_coded(data: Seq<u8>, n: nat, max_bits: u8)
    requires
        n <= 256,
        1 <= max_bits <= 32,
        n <= pow2(max_bits as nat),
        2 * data.len() <= u32::MAX,
        forall|i: int| 0 <= i < data.len() ==> data[i] < n,
    ensures
        can_code(histogram(data, n), max_bits),
{
    histogram_counts_all(data, n);
    lemma_used_bound(histogram(data, n), n);
}

/// What holds of the search: it is down to a scale that was tried and fits, or to zero, where
/// all the weights are equal.
proof fn lemma_search_fits(histo: Seq<u32>, total: u32, max_bits: u8, lower: u32, upper: u32)
    requires
        can_code(histo, max_bits),
        total == huffman_tree::sum_of(histo, histo.len()),
        lower <= upper <= 2 * total,
        lower < upper || upper == 0,
        huffman_tree::longest(huffman_tree::tree_lengths(histo, total, lower), histo.len())
            <= max_bits,
    ensures
        huffman_tree::longest(
            huffman_tree::tree_lengths(
                histo,
                total,
                searched_scale(histo, total, max_bits, lower, upper),
            ),
            histo.len(),
        ) <= max_bits,
        searched_scale(histo, total, max_bits, lower, upper) <= 2 * total,
    decreases upper - lower,
{
    let cur = ((upper + lower) / 2) as u32;
    if huffman_tree::longest(huffman_tree::tree_lengths(histo, total, cur), histo.len())
        <= max_bits {
        if cur == total || upper - cur <= 1 {
        } else {
            lemma_search_fits(histo, total, max_bits, cur, upper);
        }
    } else {
        lemma_search_fits(histo, total, max_bits, lower, cur);
    }
}

/// The lengths chosen for a histogram make a code with no code longer than `max_bits`.
pub proof fn code_lengths_make_a_code(histo: Seq<u32>, max_bits: u8)
    requires
        can_code(histo, max_bits),
    ensures
        code_lengths(histo, max_bits).len() == histo.len(),
        forall|c: int| 0 <= c < histo.len() ==> #[trigger] code_lengths(histo, max_bits)[c] <= max_bits,
        huffman_tree::full_levels(code_lengths(histo, max_bits)),
        huffman_tree::within_levels(code_lengths(histo, max_bits)),
{
    let total = huffman_tree::sum_of(histo, histo.len()) as u32;
    huffman_tree::equal_weights_fit(histo, total, max_bits);
    lemma_search_fits(histo, total, max_bits, 0, (2 * total) as u32);
    let scale = searched_scale(histo, total, max_bits, 0, (2 * total) as u32);
    huffman_tree::tree_lengths_make_a_code(histo, total, scale);
    huffman_tree::lemma_longest(code_lengths(histo, max_bits), histo.len(), max_bits);
}

/// Exactly the symbols that occur get codes.
pub proof fn code_lengths_of_used(histo: Seq<u32>, max_bits: u8)
    requires
        can_code(histo, max_bits),
    ensures
        forall|c: int|
            0 <= c < histo.len() ==> (#[trigger] code_lengths(histo, max_bits)[c] > 0) == (histo[c]
                != 0),
{
    let total = huffman_tree::sum_of(histo, histo.len()) as u32;
    huffman_tree::equal_weights_fit(histo, total, max_bits);
    lemma_search_fits(histo, total, max_bits, 0, (2 * total) as u32);
    let scale = searched_scale(histo, total, max_bits, 0, (2 * total) as u32);
    huffman_tree::used_symbols_have_codes(histo, total, scale);
}

proof fn lemma_first_code_bound(lengths: Seq<u8>, l: nat)
    requires
        l <= 32,
    ensures
        huffman_tree::first_code(lengths, l) <= lengths.len(),
    decreases 32 - l,
{
    if l < 32 {
        lemma_first_code_bound(lengths, l + 1);
        huffman_tree::lemma_count_bound(lengths, (l + 1) as u8, lengths.len());
    }
}

/// A canonical code is below twice the number of symbols.
pub proof fn lemma_code_small(lengths: Seq<u8>, c: int)
    requires
        0 <= c < lengths.len() <= 256,
        lengths[c] <= 32,
    ensures
        huffman_tree::canonical_code(lengths, c) <= 512,
        lengths[c] > 0 ==> codes_of(lengths)[c] == huffman_tree::canonical_code(lengths, c),
{
    lemma_first_code_bound(lengths, lengths[c] as nat);
    huffman_tree::lemma_count_bound(lengths, lengths[c], c as nat);
}

/// A static Huffman encoder for the symbols below `num_codes`, with codes of at most `max_bits`
/// bits.
pub struct HuffEncoder {
    pub num_codes: usize,
    pub max_bits: u8,
    pub histo: Vec<u32>,
    pub numbits: Vec<u8>,
    pub codes: Vec<u32>,
}

impl HuffEncoder {
    pub open spec fn wf(&self) -> bool {
        &&& self.num_codes <= 256
        &&& 1 <= self.max_bits <= 32
        &&& self.histo@.len() == self.num_codes
        &&& self.numbits@.len() == self.num_codes
        &&& self.codes@.len() == self.num_codes
    }

    /// Whether the codes are those of the lengths, and no code is longer than allowed.
    pub open spec fn has_codes(&self) -> bool {
        &&& self.wf()
        &&& self.codes@ == codes_of(self.numbits@)
        &&& forall|c: int| 0 <= c < self.num_codes ==> #[trigger] self.numbits@[c] <= self.max_bits
    }

    pub fn new(num_codes: usize, max_bits: u8) -> (r: Self)
        requires
            num_codes <= 256,
            1 <= max_bits <= 32,
        ensures
            r.wf(),
            r.num_codes == num_codes,
            r.max_bits == max_bits,
            r.histo@ == histogram(Seq::empty(), num_codes as nat),
            forall|c: int| 0 <= c < num_codes ==> r.numbits@[c] == 0 && r.codes@[c] == 0,
    {
        let r = HuffEncoder {
            num_codes,
            max_bits,
            histo: vec![0u32; num_codes],
            numbits: vec![0u8; num_codes],
            codes: vec![0u32; num_codes],
        };
        assert(r.histo@ =~= histogram(Seq::empty(), num_codes as nat));
        r
    }

    /// Forgets all the symbols counted.
    pub fn histo_reset(&mut self)
        requires
            old(self).wf(),
        ensures
            final(self).wf(),
            final(self).histo@ == histogram(Seq::empty(), old(self).num_codes as nat),
            final(self).num_codes == old(self).num_codes,
            final(self).max_bits == old(self).max_bits,
            final(self).numbits@ == old(self).numbits@,
            final(self).codes@ == old(self).codes@,
    {
        self.histo = vec![0u32; self.num_codes];
        assert(self.histo@ =~= histogram(Seq::empty(), self.num_codes as nat));
    }

    /// Counts one symbol.
    pub fn histo_one(&mut self, data: u32)
        requires
            old(self).wf(),
            data < old(self).num_codes,
            old(self).histo@[data as int] < u32::MAX,
        ensures
            final(self).wf(),
            final(self).histo@ == old(self).histo@.update(
                data as int,
                (old(self).histo@[data as int] + 1) as u32,
            ),
            final(self).num_codes == old(self).num_codes,
            final(self).max_bits == old(self).max_bits,
            final(self).numbits@ == old(self).numbits@,
            final(self).codes@ == old(self).codes@,
    {
        let count = self.histo[data as usize];
        self.histo[data as usize] = count + 1;
    }

    /// Counts the symbols of `data`, and only those.
    pub fn histo_all(&mut self, data: &[u8])
        requires
            old(self).wf(),
            data@.len() < u32::MAX,
            forall|i: int| 0 <= i < data@.len() ==> data@[i] < old(self).num_codes,
        ensures
            final(self).wf(),
            final(self).histo@ == histogram(data@, old(self).num_codes as nat),
            final(self).num_codes == old(self).num_codes,
            final(self).max_bits == old(self).max_bits,
            final(self).numbits@ == old(self).numbits@,
            final(self).codes@ == old(self).codes@,
    {
        self.histo_reset();
        assert(data@.take(0) =~= Seq::empty());
        let mut i: usize = 0;
        while i < data.len()
            invariant
                i <= data@.len() < u32::MAX,
                forall|i: int| 0 <= i < data@.len() ==> data@[i] < self.num_codes,
                self.wf(),
                self.num_codes == old(self).num_codes,
                self.max_bits == old(self).max_bits,
                self.numbits@ == old(self).numbits@,
                self.codes@ == old(self).codes@,
                self.histo@ == histogram(data@.take(i as int), self.num_codes as nat),
            decreases data@.len() - i,
        {
            proof {
                lemma_histogram_push(data@.take(i as int), data@[i as int], self.num_codes as nat);
                assert(data@.take(i as int).push(data@[i as int]) =~= data@.take(i + 1));
            }
            self.histo_one(data[i] as u32);
            i = i + 1;
        }
        assert(data@.take(i as int) =~= data@);
    }

    /// Writes the code of a symbol.
    pub fn encode_one(&self, bitbuf: &mut BitWriter, data: u32)
        requires
            self.has_codes(),
            data < self.num_codes,
            old(bitbuf).wf(),
        ensures
            final(bitbuf).wf(),
            final(bitbuf)@ == old(bitbuf)@ + symbol_bits(self.numbits@, data as int),
    {
        assert(self.numbits@[data as int] <= self.max_bits);
        bitbuf.write(self.codes[data as usize], self.numbits[data as usize] as u32);
    }

    /// Writes the codes of a run of symbols.
    pub fn encode_all(&self, bitbuf: &mut BitWriter, data: &[u8])
        requires
            self.has_codes(),
            forall|i: int| 0 <= i < data@.len() ==> data@[i] < self.num_codes,
            old(bitbuf).wf(),
        ensures
            final(bitbuf).wf(),
            final(bitbuf)@ == old(bitbuf)@ + coded(self.numbits@, data@),
    {
        let mut i: usize = 0;
        assert(data@.take(0) =~= Seq::empty());
        assert(bitbuf@ + coded(self.numbits@, data@.take(0)) =~= bitbuf@);
        while i < data.len()
            invariant
                i <= data@.len(),
                self.has_codes(),
                forall|i: int| 0 <= i < data@.len() ==> data@[i] < self.num_codes,
                bitbuf.wf(),
                bitbuf@ == old(bitbuf)@ + coded(self.numbits@, data@.take(i as int)),
            decreases data@.len() - i,
        {
            self.encode_one(bitbuf, data[i] as u32);
            proof {
                let next = data@.take(i + 1);
                assert(next.drop_last() =~= data@.take(i as int));
                assert(next.last() == data@[i as int]);
                assert(bitbuf@ =~= old(bitbuf)@ + coded(self.numbits@, next));
            }
            i = i + 1;
        }
        assert(data@.take(i as int) =~= data@);
    }

    /// Finds code lengths for the symbols counted, and assigns the codes.
    pub fn compute_tree_from_histo(&mut self) -> (r: Result<(), ()>)
        requires
            old(self).wf(),
            can_code(old(self).histo@, old(self).max_bits),
        ensures
            r is Ok,
            final(self).has_codes(),
            final(self).numbits@ == code_lengths(old(self).histo@, old(self).max_bits),
            final(self).histo@ == old(self).histo@,
            final(self).num_codes == old(self).num_codes,
            final(self).max_bits == old(self).max_bits,
    {
        let ghost histo = self.histo@;
        let ghost n = self.num_codes as nat;
        let max_bits = self.max_bits;
        let mut total: u32 = 0;
        let mut i: usize = 0;
        while i < self.num_codes
            invariant
                i <= self.num_codes == histo.len(),
                self.histo@ == histo,
                self.wf(),
                total == huffman_tree::sum_of(histo, i as nat),
                huffman_tree::sum_of(histo, histo.len()) <= u32::MAX,
            decreases self.num_codes - i,
        {
            proof {
                huffman_tree::lemma_sum_mono(histo, (i + 1) as nat, histo.len());
            }
            total = total + self.histo[i];
            i = i + 1;
        }
        let mut lower: u32 = 0;
        let mut upper: u32 = total * 2;
        let ghost scale = searched_scale(histo, total, max_bits, 0, upper);
        proof {
            huffman_tree::equal_weights_fit(histo, total, max_bits);
        }
        loop
            invariant_except_break
                lower <= upper <= 2 * total,
                lower < upper || upper == 0,
                huffman_tree::longest(
                    huffman_tree::tree_lengths(histo, total, lower),
                    histo.len(),
                ) <= max_bits,
                scale == searched_scale(histo, total, max_bits, lower, upper),
            invariant
                self.wf(),
                self.histo@ == histo,
                self.max_bits == max_bits,
                self.num_codes == old(self).num_codes,
                can_code(histo, max_bits),
                total == huffman_tree::sum_of(histo, histo.len()),
            ensures
                self.numbits@ == huffman_tree::tree_lengths(histo, total, scale),
            decreases upper - lower,
        {
            let cur: u32 = ((upper as u64 + lower as u64) / 2) as u32;
            let (lengths, longest) = huffman_tree::build_tree(&self.histo, total, cur);
            if longest <= max_bits {
                if cur == total || upper - cur <= 1 {
                    self.numbits = lengths;
                    break;
                }
                lower = cur;
            } else {
                upper = cur;
            }
        }
        proof {
            code_lengths_make_a_code(histo, max_bits);
        }
        self.assign_canonical_codes()
    }

    /// Assigns the canonical codes of the code lengths. Fails where a code is too long, or where
    /// the lengths leave a gap in the code tree.
    pub fn assign_canonical_codes(&mut self) -> (r: Result<(), ()>)
        requires
            old(self).wf(),
        ensures
            final(self).wf(),
            final(self).num_codes == old(self).num_codes,
            final(self).max_bits == old(self).max_bits,
            final(self).histo@ == old(self).histo@,
            final(self).numbits@ == old(self).numbits@,
            r is Ok <==> {
                &&& forall|c: int|
                    0 <= c < old(self).num_codes ==> #[trigger] old(self).numbits@[c] <= old(
                        self,
                    ).max_bits
                &&& huffman_tree::full_levels(old(self).numbits@)
            },
            r is Ok ==> final(self).has_codes(),
            r is Err ==> final(self).codes@ == old(self).codes@,
    {
        let n = self.num_codes;
        let ghost lengths = self.numbits@;
        let mut bithisto: Vec<u32> = vec![0u32; 33];
        let mut c: usize = 0;
        while c < n
            invariant
                c <= n <= 256,
                self.wf(),
                *self == *old(self),
                lengths == self.numbits@,
                n == self.num_codes,
                bithisto@.len() == 33,
                forall|l: int|
                    0 <= l <= 32 ==> #[trigger] bithisto@[l] == huffman_tree::count_of(
                        lengths,
                        l as u8,
                        c as nat,
                    ),
                forall|k: int| 0 <= k < c ==> #[trigger] self.numbits@[k] <= self.max_bits,
            decreases n - c,
        {
            let nb = self.numbits[c];
            if nb > self.max_bits {
                assert(self.numbits@[c as int] > self.max_bits);
                return Err(());
            }
            proof {
                huffman_tree::lemma_count_bound(lengths, nb, c as nat);
            }
            let count = bithisto[nb as usize];
            bithisto[nb as usize] = count + 1;
            c = c + 1;
        }
        let mut curstart: u32 = 0;
        let mut codelen: usize = 32;
        while codelen >= 1
            invariant
                0 <= codelen <= 32,
                self.wf(),
                *self == *old(self),
                lengths == self.numbits@,
                n == self.num_codes == lengths.len(),
                bithisto@.len() == 33,
                curstart == huffman_tree::first_code(lengths, codelen as nat),
                forall|l: int|
                    0 <= l <= codelen ==> #[trigger] bithisto@[l] == huffman_tree::count_of(
                        lengths,
                        l as u8,
                        n as nat,
                    ),
                forall|l: int|
                    codelen < l <= 32 ==> #[trigger] bithisto@[l] == huffman_tree::first_code(
                        lengths,
                        l as nat,
                    ),
                forall|l: nat|
                    2 <= l <= 32 && codelen < l ==> (#[trigger] huffman_tree::first_code(lengths, l)
                        + huffman_tree::count_of(lengths, l as u8, lengths.len())) % 2 == 0,
            decreases codelen,
        {
            proof {
                lemma_first_code_bound(lengths, codelen as nat);
                huffman_tree::lemma_count_bound(lengths, codelen as u8, n as nat);
            }
            let sum = curstart + bithisto[codelen];
            let nextstart = sum / 2;
            if codelen != 1 && nextstart * 2 != sum {
                assert((huffman_tree::first_code(lengths, codelen as nat) + huffman_tree::count_of(
                    lengths,
                    codelen as nat as u8,
                    lengths.len(),
                )) % 2 != 0);
                assert(!huffman_tree::full_levels(lengths));
                return Err(());
            }
            bithisto[codelen] = curstart;
            curstart = nextstart;
            codelen = codelen - 1;
        }
        let mut d: usize = 0;
        let ghost codes0 = self.codes@;
        while d < n
            invariant
                d <= n,
                self.wf(),
                self.histo@ == old(self).histo@,
                self.max_bits == old(self).max_bits,
                lengths == self.numbits@,
                n == self.num_codes == lengths.len(),
                n <= 256,
                bithisto@.len() == 33,
                forall|k: int| 0 <= k < n ==> #[trigger] lengths[k] <= 32,
                forall|l: int|
                    1 <= l <= 32 ==> #[trigger] bithisto@[l] == huffman_tree::first_code(
                        lengths,
                        l as nat,
                    ) + huffman_tree::count_of(lengths, l as u8, d as nat),
                forall|k: int| 0 <= k < d ==> #[trigger] self.codes@[k] == codes_of(lengths)[k],
            decreases n - d,
        {
            let nb = self.numbits[d];
            if nb > 0 {
                proof {
                    lemma_first_code_bound(lengths, nb as nat);
                    huffman_tree::lemma_count_bound(lengths, nb, d as nat);
                    assert(bithisto@[nb as int] == huffman_tree::first_code(lengths, nb as nat)
                        + huffman_tree::count_of(lengths, nb, d as nat));
                }
                let code = bithisto[nb as usize];
                self.codes[d] = code;
                bithisto[nb as usize] = code + 1;
            } else {
                self.codes[d] = 0;
            }
            d = d + 1;
        }
        assert(self.codes@ =~= codes_of(lengths));
        Ok(())
    }
}


/// Where the run of equal values `v` that reaches up to `j` ends.
pub open spec fn run_end(lengths: Seq<u8>, v: u8, j: int) -> int
    decreases lengths.len() - j,
{
    if 0 <= j < lengths.len() && lengths[j] == v {
        run_end(lengths, v, j + 1)
    } else {
        j
    }
}

pub proof fn lemma_run_end(lengths: Seq<u8>, v: u8, j: int)
    requires
        0 <= j <= lengths.len(),
    ensures
        j <= run_end(lengths, v, j) <= lengths.len(),
        forall|k: int| j <= k < run_end(lengths, v, j) ==> lengths[k] == v,
        run_end(lengths, v, j) < lengths.len() ==> lengths[run_end(lengths, v, j)] != v,
    decreases lengths.len() - j,
{
    if j < lengths.len() && lengths[j] == v {
        lemma_run_end(lengths, v, j + 1);
    }
}

/// Finds the end of the run that starts at `i`.
pub fn find_run_end(lengths: &Vec<u8>, i: usize) -> (r: usize)
    requires
        i < lengths@.len(),
    ensures
        r == run_end(lengths@, lengths@[i as int], i + 1),
        i < r <= lengths@.len(),
{
    let n = lengths.len();
    let v = lengths[i];
    let mut j: usize = i + 1;
    while j < n && lengths[j] == v
        invariant
            i < j <= n == lengths@.len(),
            run_end(lengths@, v, i + 1) == run_end(lengths@, v, j as int),
        decreases lengths@.len() - j,
    {
        j = j + 1;
    }
    j
}

/// A token of the run-length form of the code lengths: one more than a length, or zero and the
/// number of further repeats, less two, of the length before it.
pub struct Token {
    pub data: u8,
    pub count: u8,
}

/// The tokens for a run of `n` equal lengths.
pub open spec fn run_tokens(v: u8, n: int) -> Seq<Token> {
    let one = Token { data: (v + 1) as u8, count: 0 };
    if n <= 1 {
        seq![one]
    } else if n == 2 {
        seq![one, one]
    } else {
        seq![one, Token { data: 0, count: (n - 3) as u8 }]
    }
}

/// The tokens for the lengths from `i` on.
pub open spec fn tree_tokens(lengths: Seq<u8>, i: int) -> Seq<Token>
    decreases lengths.len() - i,
{
    if i < 0 || i >= lengths.len() {
        Seq::empty()
    } else {
        let end = run_end(lengths, lengths[i], i + 1);
        proof {
            lemma_run_end(lengths, lengths[i], i + 1);
        }
        run_tokens(lengths[i], end - i) + tree_tokens(lengths, end)
    }
}

/// The symbols of a token stream.
pub open spec fn token_symbols(tokens: Seq<Token>) -> Seq<u8> {
    tokens.map_values(|t: Token| t.data)
}

/// The number of bits that hold `value`.
pub open spec fn bit_length(value: nat) -> nat
    decreases value,
{
    if value == 0 {
        0
    } else {
        1 + bit_length(value / 2)
    }
}

/// The bits of a token: its code, and behind a repeat its count, in three bits, or in three set
/// bits and `full_bits` more.
pub open spec fn token_bits(small: Seq<u8>, t: Token, full_bits: nat) -> Seq<bool> {
    symbol_bits(small, t.data as int) + if t.data != 0 {
        Seq::empty()
    } else if t.count < 7 {
        bitstream::value_bits(t.count as u32, 3)
    } else {
        bitstream::value_bits(7, 3) + bitstream::value_bits((t.count - 7) as u32, full_bits)
    }
}

/// The bits of the tokens from `i` on.
pub open spec fn tokens_bits(small: Seq<u8>, tokens: Seq<Token>, i: int, full_bits: nat) -> Seq<bool>
    decreases tokens.len() - i,
{
    if i < 0 || i >= tokens.len() {
        Seq::empty()
    } else {
        token_bits(small, tokens[i], full_bits) + tokens_bits(small, tokens, i + 1, full_bits)
    }
}

/// The first place from `i` on with a length that is not zero; the end if there is none.
pub open spec fn first_used(small: Seq<u8>, i: int) -> int
    decreases small.len() - i,
{
    if 0 <= i < small.len() && small[i] == 0 {
        first_used(small, i + 1)
    } else {
        i
    }
}

/// Where the list of small lengths starts: at the first used symbol above zero, but no later
/// than at 8.
pub open spec fn list_start(small: Seq<u8>) -> int {
    if first_used(small, 1) > 8 {
        8
    } else {
        first_used(small, 1)
    }
}

/// Where it stops: behind the last used symbol above zero out of the first `n`.
pub open spec fn list_stop(small: Seq<u8>, n: int) -> int
    decreases n,
{
    if n <= 1 {
        1
    } else if small[n - 1] != 0 {
        n
    } else {
        list_stop(small, n - 1)
    }
}

/// The lengths of the places from `i` up to `stop`, three bits each.
pub open spec fn small_list_bits(small: Seq<u8>, i: int, stop: int) -> Seq<bool>
    decreases stop - i,
{
    if i >= stop {
        Seq::empty()
    } else {
        bitstream::value_bits(small[i] as u32, 3) + small_list_bits(small, i + 1, stop)
    }
}

/// The lengths of the small code, which codes the tokens.
pub open spec fn small_header(small: Seq<u8>) -> Seq<bool> {
    bitstream::value_bits(small[0] as u32, 3) + bitstream::value_bits(
        (list_start(small) - 1) as u32,
        3,
    ) + small_list_bits(small, list_start(small), list_stop(small, small.len() as int))
        + bitstream::value_bits(7, 3)
}

/// The lengths of the code for the tokens of a set of code lengths.
pub open spec fn small_lengths(lengths: Seq<u8>) -> Seq<u8> {
    code_lengths(histogram(token_symbols(tree_tokens(lengths, 0)), 24), 6)
}

/// A set of code lengths as it is written ahead of 8-bit data: the small code, and the tokens
/// in the small code.
pub open spec fn tree_bits(lengths: Seq<u8>) -> Seq<bool> {
    let small = small_lengths(lengths);
    small_header(small) + tokens_bits(
        small,
        tree_tokens(lengths, 0),
        0,
        bit_length((lengths.len() - 9) as nat),
    )
}

/// Tokens stand for at least one length each, and none is above 17 where no length is above 16.
proof fn lemma_tree_tokens(lengths: Seq<u8>, i: int)
    requires
        0 <= i <= lengths.len() <= 256,
        forall|k: int| 0 <= k < lengths.len() ==> #[trigger] lengths[k] <= 16,
    ensures
        tree_tokens(lengths, i).len() <= lengths.len() - i,
        forall|k: int|
            0 <= k < tree_tokens(lengths, i).len() ==> (#[trigger] tree_tokens(lengths, i)[k]).data <= 17,
        forall|k: int|
            0 <= k < tree_tokens(lengths, i).len() && (#[trigger] tree_tokens(lengths, i)[k]).data == 0
                ==> tree_tokens(lengths, i)[k].count <= lengths.len() - 3,
    decreases lengths.len() - i,
{
    if i < lengths.len() {
        let end = run_end(lengths, lengths[i], i + 1);
        lemma_run_end(lengths, lengths[i], i + 1);
        lemma_tree_tokens(lengths, end);
        let head = run_tokens(lengths[i], end - i);
        let rest = tree_tokens(lengths, end);
        assert(head.len() <= end - i);
        assert forall|k: int| 0 <= k < (head + rest).len() implies (#[trigger] (head + rest)[k]).data
            <= 17 by {
            if k >= head.len() {
                assert((head + rest)[k] == rest[k - head.len()]);
            }
        }
        assert forall|k: int|
            0 <= k < (head + rest).len() && (#[trigger] (head + rest)[k]).data == 0 implies (head
            + rest)[k].count <= lengths.len() - 3 by {
            if k >= head.len() {
                assert((head + rest)[k] == rest[k - head.len()]);
            }
        }
    }
}

/// The code for the tokens exists.
pub proof fn lemma_small_code(lengths: Seq<u8>)
    requires
        lengths.len() <= 256,
        forall|k: int| 0 <= k < lengths.len() ==> #[trigger] lengths[k] <= 16,
    ensures
        can_code(histogram(token_symbols(tree_tokens(lengths, 0)), 24), 6),
        small_lengths(lengths).len() == 24,
        forall|k: int| 0 <= k < 24 ==> #[trigger] small_lengths(lengths)[k] <= 6,
        forall|k: int|
            0 <= k < tree_tokens(lengths, 0).len() ==> (#[trigger] tree_tokens(lengths, 0)[k]).data <= 17,
        tree_tokens(lengths, 0).len() <= 256,
{
    lemma_tree_tokens(lengths, 0);
    let tokens = tree_tokens(lengths, 0);
    let symbols = token_symbols(tokens);
    assert forall|i: int| 0 <= i < symbols.len() implies symbols[i] < 24 by {
        assert(symbols[i] == tokens[i].data);
    }
    lemma2_to64();
    histogram_can_be_coded(symbols, 24, 6);
    code_lengths_make_a_code(histogram(symbols, 24), 6);
}

pub proof fn lemma_first_used(small: Seq<u8>, i: int)
    requires
        0 <= i <= small.len(),
    ensures
        i <= first_used(small, i) <= small.len(),
        forall|k: int| i <= k < first_used(small, i) ==> small[k] == 0,
        first_used(small, i) < small.len() ==> small[first_used(small, i)] != 0,
    decreases small.len() - i,
{
    if i < small.len() && small[i] == 0 {
        lemma_first_used(small, i + 1);
    }
}

pub proof fn lemma_list_stop(small: Seq<u8>, n: int)
    requires
        1 <= n <= small.len(),
    ensures
        1 <= list_stop(small, n) <= n,
        forall|k: int| list_stop(small, n) <= k < n ==> small[k] == 0,
        list_stop(small, n) > 1 ==> small[list_stop(small, n) - 1] != 0,
    decreases n,
{
    if n > 1 && small[n - 1] == 0 {
        lemma_list_stop(small, n - 1);
    }
}

pub proof fn lemma_bit_length(value: nat)
    ensures
        value < pow2(bit_length(value)),
        value > 0 ==> pow2((bit_length(value) - 1) as nat) <= value,
    decreases value,
{
    if value == 0 {
        lemma2_to64();
    } else {
        lemma_bit_length(value / 2);
        lemma_pow2_unfold(bit_length(value));
        if value / 2 == 0 {
            lemma2_to64();
        } else {
            lemma_pow2_unfold(bit_length(value / 2));
        }
    }
}

/// Repeat counts take at most 8 bits.
pub proof fn lemma_full_bits(n: nat)
    requires
        9 <= n <= 256,
    ensures
        bit_length((n - 9) as nat) <= 8,
{
    let b = bit_length((n - 9) as nat);
    lemma_bit_length((n - 9) as nat);
    if b > 8 {
        lemma2_to64();
        if b > 9 {
            lemma_pow2_strictly_increases(8, (b - 1) as nat);
        }
    }
}

/// The number of bits that hold `value`.
pub fn bits_for_value(value: u64) -> (r: u8)
    ensures
        r == bit_length(value as nat),
        r <= 64,
{
    let mut rest = value;
    let mut r: u8 = 0;
    proof {
        lemma_bit_length_64(value as nat);
    }
    while rest != 0
        invariant
            r + bit_length(rest as nat) == bit_length(value as nat),
            bit_length(value as nat) <= 64,
        decreases rest,
    {
        rest = rest / 2;
        r = r + 1;
    }
    r
}

proof fn lemma_bit_length_64(value: nat)
    requires
        value <= u64::MAX,
    ensures
        bit_length(value) <= 64,
{
    lemma_bit_length(value);
    if value > 0 && bit_length(value) > 64 {
        lemma2_to64();
        if bit_length(value) > 65 {
            lemma_pow2_strictly_increases(64, (bit_length(value) - 1) as nat);
        }
    }
}

/// Makes the tokens of a set of code lengths.
fn make_tokens(lengths: &Vec<u8>) -> (r: Vec<Token>)
    requires
        lengths@.len() <= 256,
        forall|k: int| 0 <= k < lengths@.len() ==> #[trigger] lengths@[k] <= 16,
    ensures
        r@ == tree_tokens(lengths@, 0),
{
    let mut tokens: Vec<Token> = Vec::new();
    let mut i: usize = 0;
    while i < lengths.len()
        invariant
            i <= lengths@.len() <= 256,
            forall|k: int| 0 <= k < lengths@.len() ==> #[trigger] lengths@[k] <= 16,
            tokens@ + tree_tokens(lengths@, i as int) == tree_tokens(lengths@, 0),
        decreases lengths@.len() - i,
    {
        let ghost before = tokens@;
        let end = find_run_end(lengths, i);
        let n = end - i;
        let data: u8 = lengths[i] + 1;
        tokens.push(Token { data, count: 0 });
        if n == 2 {
            tokens.push(Token { data, count: 0 });
        } else if n > 2 {
            tokens.push(Token { data: 0, count: (n - 3) as u8 });
        }
        proof {
            let head = run_tokens(lengths@[i as int], end - i);
            assert(tokens@ =~= before + head);
            assert(tokens@ + tree_tokens(lengths@, end as int) =~= before + (head + tree_tokens(
                lengths@,
                end as int,
            )));
        }
        i = end;
    }
    assert(tokens@ + tree_tokens(lengths@, i as int) =~= tokens@);
    tokens
}

impl HuffEncoder {
    /// Writes the lengths of this small code.
    fn export_small(&self, bitbuf: &mut BitWriter)
        requires
            self.has_codes(),
            self.num_codes == 24,
            self.max_bits == 6,
            old(bitbuf).wf(),
        ensures
            final(bitbuf).wf(),
            final(bitbuf)@ == old(bitbuf)@ + small_header(self.numbits@),
    {
        let ghost small = self.numbits@;
        let ghost b0 = bitbuf@;
        let mut first: usize = 1;
        while first < 24 && self.numbits[first] == 0
            invariant
                1 <= first <= 24,
                small == self.numbits@,
                small.len() == 24,
                first_used(small, 1) == first_used(small, first as int),
            decreases 24 - first,
        {
            first = first + 1;
        }
        if first > 8 {
            first = 8;
        }
        let mut stop: usize = 24;
        while stop > 1 && self.numbits[stop - 1] == 0
            invariant
                1 <= stop <= 24,
                small == self.numbits@,
                small.len() == 24,
                list_stop(small, 24) == list_stop(small, stop as int),
            decreases stop,
        {
            stop = stop - 1;
        }
        bitbuf.write(self.numbits[0] as u32, 3);
        bitbuf.write((first - 1) as u32, 3);
        let ghost head = bitstream::value_bits(small[0] as u32, 3) + bitstream::value_bits(
            (list_start(small) - 1) as u32,
            3,
        );
        assert(bitbuf@ =~= b0 + head);
        let mut i: usize = first;
        assert(bitbuf@ + small_list_bits(small, i as int, stop as int) =~= b0 + (head
            + small_list_bits(small, list_start(small), stop as int)));
        while i < stop
            invariant
                i <= 24,
                stop <= 24,
                small == self.numbits@,
                small.len() == 24,
                bitbuf.wf(),
                bitbuf@ + small_list_bits(small, i as int, stop as int) == b0 + (head
                    + small_list_bits(small, list_start(small), stop as int)),
            decreases stop - i,
        {
            let ghost b1 = bitbuf@;
            bitbuf.write(self.numbits[i] as u32, 3);
            i = i + 1;
            assert(bitbuf@ + small_list_bits(small, i as int, stop as int) =~= b1 + (
            bitstream::value_bits(small[i - 1] as u32, 3) + small_list_bits(
                small,
                i as int,
                stop as int,
            )));
        }
        assert(bitbuf@ + small_list_bits(small, i as int, stop as int) =~= bitbuf@);
        bitbuf.write(7, 3);
        assert(bitbuf@ =~= b0 + small_header(small));
    }

    /// Writes the code lengths ahead of 8-bit data.
    pub fn export_tree_huffman(&self, bitbuf: &mut BitWriter) -> (r: Result<(), ()>)
        requires
            self.has_codes(),
            9 <= self.num_codes,
            self.max_bits <= 16,
            old(bitbuf).wf(),
        ensures
            r is Ok,
            final(bitbuf).wf(),
            final(bitbuf)@ == old(bitbuf)@ + tree_bits(self.numbits@),
    {
        let ghost b0 = bitbuf@;
        let ghost lengths = self.numbits@;
        assert forall|k: int| 0 <= k < lengths.len() implies #[trigger] lengths[k] <= 16 by {
            assert(self.numbits@[k] <= self.max_bits);
        }
        let tokens = make_tokens(&self.numbits);
        proof {
            lemma_tree_tokens(lengths, 0);
            lemma_small_code(lengths);
        }
        let mut smallhuff = HuffEncoder::new(24, 6);
        let mut i: usize = 0;
        assert(token_symbols(tokens@.take(0)) =~= Seq::empty());
        while i < tokens.len()
            invariant
                i <= tokens@.len() <= 256,
                smallhuff.wf(),
                smallhuff.num_codes == 24,
                smallhuff.max_bits == 6,
                forall|k: int| 0 <= k < tokens@.len() ==> (#[trigger] tokens@[k]).data <= 17,
                smallhuff.histo@ == histogram(token_symbols(tokens@.take(i as int)), 24),
            decreases tokens@.len() - i,
        {
            proof {
                let part = token_symbols(tokens@.take(i as int));
                lemma_histogram_push(part, tokens@[i as int].data, 24);
                assert(part.push(tokens@[i as int].data) =~= token_symbols(tokens@.take(i + 1)));
            }
            smallhuff.histo_one(tokens[i].data as u32);
            i = i + 1;
        }
        assert(tokens@.take(i as int) =~= tokens@);
        match smallhuff.compute_tree_from_histo() {
            Ok(()) => {},
            Err(()) => {
                return Err(());
            },
        }
        let ghost small = smallhuff.numbits@;
        assert(small == small_lengths(lengths));
        smallhuff.export_small(bitbuf);
        let full_bits = bits_for_value((self.num_codes - 9) as u64);
        proof {
            lemma_full_bits(self.num_codes as nat);
        }
        let mut j: usize = 0;
        assert(bitbuf@ + tokens_bits(small, tokens@, 0, full_bits as nat) =~= b0 + tree_bits(lengths));
        while j < tokens.len()
            invariant
                j <= tokens@.len(),
                smallhuff.has_codes(),
                smallhuff.num_codes == 24,
                small == smallhuff.numbits@,
                full_bits <= 8,
                bitbuf.wf(),
                forall|k: int| 0 <= k < tokens@.len() ==> (#[trigger] tokens@[k]).data <= 17,
                bitbuf@ + tokens_bits(small, tokens@, j as int, full_bits as nat) == b0 + tree_bits(
                    lengths,
                ),
            decreases tokens@.len() - j,
        {
            let ghost b1 = bitbuf@;
            let data = tokens[j].data;
            smallhuff.encode_one(bitbuf, data as u32);
            if data == 0 {
                let count = tokens[j].count;
                if count < 7 {
                    bitbuf.write(count as u32, 3);
                } else {
                    bitbuf.write(7, 3);
                    bitbuf.write((count - 7) as u32, full_bits as u32);
                }
            }
            proof {
                let t = tokens@[j as int];
                assert(bitbuf@ =~= b1 + token_bits(small, t, full_bits as nat));
                let rest = tokens_bits(small, tokens@, j + 1, full_bits as nat);
                assert(bitbuf@ + rest =~= b1 + (token_bits(small, t, full_bits as nat) + rest));
            }
            j = j + 1;
        }
        assert(bitbuf@ + tokens_bits(small, tokens@, j as int, full_bits as nat) =~= bitbuf@);
        Ok(())
    }
}

/// The bits of a run of `n` lengths `v`, in fields of `width` bits. One is the escape: it is
/// doubled where it stands for itself, and otherwise precedes a value and a repeat count.
pub open spec fn rle_run_bits(v: u8, n: int, width: nat) -> Seq<bool>
    decreases n,
{
    let field = bitstream::value_bits(v as u32, width);
    let one = bitstream::value_bits(1, width);
    if n <= 0 {
        Seq::empty()
    } else if v == 1 {
        one + one + rle_run_bits(v, n - 1, width)
    } else if n <= 2 {
        field + rle_run_bits(v, n - 1, width)
    } else {
        let most = pow2(width) - 1;
        let reps = if n - 3 < most { n - 3 } else { most as int };
        if reps < 0 {
            Seq::empty()
        } else {
            one + field + bitstream::value_bits(reps as u32, width) + rle_run_bits(
                v,
                n - (reps + 3),
                width,
            )
        }
    }
}

/// The width of the fields for codes of at most `max_bits` bits.
pub open spec fn rle_width(max_bits: u8) -> nat {
    if max_bits >= 16 {
        5
    } else if max_bits >= 8 {
        4
    } else {
        3
    }
}

/// The lengths from `i` on, run by run.
pub open spec fn rle_tree_bits(lengths: Seq<u8>, i: int, width: nat) -> Seq<bool>
    decreases lengths.len() - i,
{
    if i < 0 || i >= lengths.len() {
        Seq::empty()
    } else {
        let end = run_end(lengths, lengths[i], i + 1);
        proof {
            lemma_run_end(lengths, lengths[i], i + 1);
        }
        rle_run_bits(lengths[i], end - i, width) + rle_tree_bits(lengths, end, width)
    }
}

/// No length takes more than three fields.
proof fn lemma_rle_run_len(v: u8, n: int, width: nat)
    requires
        0 <= n,
        width == 4,
    ensures
        rle_run_bits(v, n, width).len() <= 12 * n,
    decreases n,
{
    if n > 2 && v != 1 {
        let most = pow2(width) - 1;
        let reps = if n - 3 < most {
            n - 3
        } else {
            most as int
        };
        if reps >= 0 {
            lemma_rle_run_len(v, n - (reps + 3), width);
        }
    } else if n > 0 {
        lemma_rle_run_len(v, n - 1, width);
    }
}

/// What is written of code lengths of up to 15 bits grows by no more than twelve bits a length.
pub proof fn lemma_rle_tree_len(lengths: Seq<u8>, i: int, width: nat)
    requires
        0 <= i <= lengths.len(),
        width == 4,
    ensures
        rle_tree_bits(lengths, i, width).len() <= 12 * (lengths.len() - i),
    decreases lengths.len() - i,
{
    if i < lengths.len() {
        let end = run_end(lengths, lengths[i], i + 1);
        lemma_run_end(lengths, lengths[i], i + 1);
        lemma_rle_run_len(lengths[i], end - i, width);
        lemma_rle_tree_len(lengths, end, width);
    }
}

/// What is written of symbols grows by no more than the longest code a symbol.
pub proof fn lemma_coded_len(lengths: Seq<u8>, data: Seq<u8>)
    requires
        forall|c: int| 0 <= c < lengths.len() ==> #[trigger] lengths[c] <= 8,
        forall|i: int| 0 <= i < data.len() ==> #[trigger] data[i] < lengths.len(),
    ensures
        coded(lengths, data).len() <= 8 * data.len(),
    decreases data.len(),
{
    if data.len() > 0 {
        let rest = data.drop_last();
        assert forall|i: int| 0 <= i < rest.len() implies #[trigger] rest[i] < lengths.len() by {
            assert(rest[i] == data[i]);
        }
        lemma_coded_len(lengths, rest);
        let last = data[data.len() - 1];
        assert(lengths[last as int] <= 8);
    }
}

impl HuffEncoder {
    /// Writes a run of `repcount` lengths `value`.
    fn write_rle_tree_bits(bitbuf: &mut BitWriter, value: u8, repcount: u32, width: u32)
        requires
            3 <= width <= 5,
            old(bitbuf).wf(),
        ensures
            final(bitbuf).wf(),
            final(bitbuf)@ == old(bitbuf)@ + rle_run_bits(value, repcount as int, width as nat),
    {
        let ghost b0 = bitbuf@;
        let ghost whole = rle_run_bits(value, repcount as int, width as nat);
        let most: u32 = if width == 3 {
            7
        } else if width == 4 {
            15
        } else {
            31
        };
        proof {
            lemma2_to64();
            assert(most == pow2(width as nat) - 1);
        }
        let mut left: u32 = repcount;
        while left > 0
            invariant
                3 <= width <= 5,
                most == pow2(width as nat) - 1,
                bitbuf.wf(),
                bitbuf@ + rle_run_bits(value, left as int, width as nat) == b0 + whole,
            decreases left,
        {
            let ghost b1 = bitbuf@;
            let ghost left0 = left as int;
            let ghost field = bitstream::value_bits(value as u32, width as nat);
            let ghost one = bitstream::value_bits(1, width as nat);
            if value == 1 {
                bitbuf.write(1, width);
                bitbuf.write(1, width);
                left = left - 1;
                proof {
                    let rest = rle_run_bits(value, left as int, width as nat);
                    assert(bitbuf@ + rest =~= b1 + (one + one + rest));
                }
            } else if left <= 2 {
                bitbuf.write(value as u32, width);
                left = left - 1;
                proof {
                    let rest = rle_run_bits(value, left as int, width as nat);
                    assert(bitbuf@ + rest =~= b1 + (field + rest));
                }
            } else {
                let reps: u32 = if left - 3 < most {
                    left - 3
                } else {
                    most
                };
                bitbuf.write(1, width);
                bitbuf.write(value as u32, width);
                bitbuf.write(reps, width);
                left = left - (reps + 3);
                proof {
                    let rest = rle_run_bits(value, left as int, width as nat);
                    assert(bitbuf@ + rest =~= b1 + (one + field + bitstream::value_bits(
                        reps,
                        width as nat,
                    ) + rest));
                    assert(rle_run_bits(value, left0, width as nat) == one + field
                        + bitstream::value_bits(reps, width as nat) + rest);
                }
            }
        }
        assert(bitbuf@ + rle_run_bits(value, 0, width as nat) =~= bitbuf@);
    }

    /// Writes the code lengths as plain runs.
    pub fn export_tree_rle(&self, bitbuf: &mut BitWriter)
        requires
            self.has_codes(),
            old(bitbuf).wf(),
        ensures
            final(bitbuf).wf(),
            final(bitbuf)@ == old(bitbuf)@ + rle_tree_bits(
                self.numbits@,
                0,
                rle_width(self.max_bits),
            ),
    {
        let width: u32 = if self.max_bits >= 16 {
            5
        } else if self.max_bits >= 8 {
            4
        } else {
            3
        };
        let ghost b0 = bitbuf@;
        let ghost lengths = self.numbits@;
        let ghost whole = rle_tree_bits(lengths, 0, width as nat);
        let mut i: usize = 0;
        while i < self.num_codes
            invariant
                i <= self.num_codes,
                self.has_codes(),
                lengths == self.numbits@,
                3 <= width <= 5,
                bitbuf.wf(),
                bitbuf@ + rle_tree_bits(lengths, i as int, width as nat) == b0 + whole,
            decreases self.num_codes - i,
        {
            let ghost b1 = bitbuf@;
            let end = find_run_end(&self.numbits, i);
            Self::write_rle_tree_bits(bitbuf, self.numbits[i], (end - i) as u32, width);
            proof {
                let run = rle_run_bits(lengths[i as int], end - i, width as nat);
                let rest = rle_tree_bits(lengths, end as int, width as nat);
                assert(bitbuf@ + rest =~= b1 + (run + rest));
            }
            i = end;
        }
        assert(bitbuf@ + rle_tree_bits(lengths, i as int, width as nat) =~= bitbuf@);
    }
}

/// The code lengths for 8-bit data.
pub open spec fn byte_lengths(data: Seq<u8>) -> Seq<u8> {
    code_lengths(histogram(data, 256), 16)
}

/// 8-bit data in Huffman codes, behind the code lengths.
pub open spec fn encoded_8bit(data: Seq<u8>) -> Seq<u8> {
    bitstream::packed(tree_bits(byte_lengths(data)) + coded(byte_lengths(data), data))
}

/// Encodes 8-bit data, with codes of at most 16 bits.
pub fn encode_8bit(source: &[u8]) -> (r: Result<Vec<u8>, ()>)
    requires
        2 * source@.len() <= u32::MAX,
    ensures
        r matches Ok(v) && v@ == encoded_8bit(source@),
{
    let mut enc = HuffEncoder::new(256, 16);
    enc.histo_all(source);
    proof {
        lemma2_to64();
        histogram_can_be_coded(source@, 256, 16);
    }
    match enc.compute_tree_from_histo() {
        Ok(()) => {},
        Err(()) => {
            return Err(());
        },
    }
    let mut bitbuf = BitWriter::new();
    match enc.export_tree_huffman(&mut bitbuf) {
        Ok(()) => {},
        Err(()) => {
            return Err(());
        },
    }
    assert(bitbuf@ =~= tree_bits(byte_lengths(source@)));
    enc.encode_all(&mut bitbuf, source);
    Ok(bitbuf.flush())
}

} // verus!
