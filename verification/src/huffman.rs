//! The decoding side of static Huffman coding.

use crate::bitstream;
use crate::bitstream::BitCursor;
use crate::error::Error;
use crate::huffman_encode;
use crate::huffman_encode::HuffEncoder;
use crate::huffman_tree;
use vstd::arithmetic::div_mod::*;
use vstd::arithmetic::power2::*;
use vstd::prelude::*;

verus! {

/// Whether the number `w`, of `max_bits` bits, starts with the code of symbol `c`.
pub open spec fn starts_with(lengths: Seq<u8>, max_bits: nat, w: nat, c: int) -> bool {
    &&& 0 <= c < lengths.len()
    &&& 0 < lengths[c] <= max_bits
    &&& w / pow2((max_bits - lengths[c]) as nat) == huffman_tree::canonical_code(lengths, c)
}

/// The symbol whose code the number `w` starts with, and the length of the code; symbol zero,
/// without a code, where there is none.
pub open spec fn symbol_of(lengths: Seq<u8>, max_bits: nat, w: nat) -> (int, nat) {
    if exists|c: int| starts_with(lengths, max_bits, w, c) {
        let c = choose|c: int| starts_with(lengths, max_bits, w, c);
        (c, lengths[c] as nat)
    } else {
        (0, 0)
    }
}

/// The symbol at `pos` of a stream, and the place behind it; nothing where the code found there
/// is longer than the rest of the stream.
pub open spec fn symbol_at(lengths: Seq<u8>, max_bits: nat, stream: Seq<bool>, pos: int) -> Option<
    (int, int),
> {
    let (c, l) = symbol_of(
        lengths,
        max_bits,
        bitstream::bits_value(bitstream::window(stream, pos, max_bits)),
    );
    if pos + l <= stream.len() {
        Some((c, pos + l))
    } else {
        None
    }
}

/// The next `n` symbols of a stream, and the place behind them.
pub open spec fn symbols_at(
    lengths: Seq<u8>,
    max_bits: nat,
    stream: Seq<bool>,
    pos: int,
    n: nat,
) -> Option<(Seq<u8>, int)>
    decreases n,
{
    if n == 0 {
        Some((Seq::empty(), pos))
    } else {
        match symbols_at(lengths, max_bits, stream, pos, (n - 1) as nat) {
            None => None,
            Some((s, p)) => match symbol_at(lengths, max_bits, stream, p) {
                None => None,
                Some((c, q)) => Some((s.push(c as u8), q)),
            },
        }
    }
}

/// Whether lengths can be decoded: none is too long, there is no gap in the code tree, and every
/// code fits its length.
pub open spec fn decodable(lengths: Seq<u8>, max_bits: u8) -> bool {
    &&& forall|c: int| 0 <= c < lengths.len() ==> #[trigger] lengths[c] <= max_bits
    &&& huffman_tree::full_levels(lengths)
    &&& huffman_tree::codes_fit(lengths)
}

/// A number starts with at most one code.
pub proof fn lemma_one_symbol(lengths: Seq<u8>, max_bits: nat, w: nat, c: int, d: int)
    requires
        huffman_tree::full_levels(lengths),
        max_bits <= 32,
        starts_with(lengths, max_bits, w, c),
        starts_with(lengths, max_bits, w, d),
    ensures
        c == d,
{
    if c != d {
        let (a, b) = if lengths[c] <= lengths[d] { (c, d) } else { (d, c) };
        huffman_tree::codes_are_prefix_free(lengths, a, b);
        let x = (max_bits - lengths[b]) as nat;
        let y = (lengths[b] - lengths[a]) as nat;
        lemma_pow2_pos(x);
        lemma_pow2_pos(y);
        lemma_pow2_adds(x, y);
        lemma_div_denominator(w as int, pow2(x) as int, pow2(y) as int);
    }
}

pub proof fn lemma_symbol_of(lengths: Seq<u8>, max_bits: nat, w: nat, c: int)
    requires
        huffman_tree::full_levels(lengths),
        max_bits <= 32,
        starts_with(lengths, max_bits, w, c),
    ensures
        symbol_of(lengths, max_bits, w) == (c, lengths[c] as nat),
{
    let d = choose|d: int| starts_with(lengths, max_bits, w, d);
    lemma_one_symbol(lengths, max_bits, w, c, d);
}

/// What a number of `max_bits` bits starts with.
#[derive(Clone, Copy)]
pub struct Lookup {
    pub symbol: u8,
    pub numbits: u8,
}

/// A decoder for a set of code lengths.
pub struct HuffmanDecoder {
    pub max_bits: u8,
    pub numbits: Vec<u8>,
    pub lookup: Vec<Lookup>,
}

impl HuffmanDecoder {
    pub open spec fn wf(&self) -> bool {
        &&& 1 <= self.max_bits <= 16
        &&& 0 < self.numbits@.len() <= 256
        &&& decodable(self.numbits@, self.max_bits)
        &&& self.lookup@.len() == pow2(self.max_bits as nat)
        &&& forall|w: int|
            0 <= w < self.lookup@.len() ==> ((#[trigger] self.lookup@[w]).symbol as int,
                self.lookup@[w].numbits as nat) == symbol_of(
                self.numbits@,
                self.max_bits as nat,
                w as nat,
            )
    }

    /// Makes the decoder for a set of code lengths, where they can be decoded.
    pub fn from_lengths(numbits: Vec<u8>, max_bits: u8) -> (r: Result<HuffmanDecoder, Error>)
        requires
            1 <= max_bits <= 16,
            0 < numbits@.len() <= 256,
        ensures
            match r {
                Ok(d) => decodable(numbits@, max_bits) && d.wf() && d.numbits@ == numbits@ && d.max_bits
                    == max_bits,
                Err(e) => !decodable(numbits@, max_bits) && e == Error::DecompressionError,
            },
    {
        let n = numbits.len();
        let ghost lengths = numbits@;
        let mut enc = HuffEncoder::new(n, max_bits);
        enc.numbits = numbits;
        if enc.assign_canonical_codes().is_err() {
            return Err(Error::DecompressionError);
        }
        proof {
            lemma2_to64();
            vstd::bits::lemma_u64_pow2_no_overflow(max_bits as nat);
            vstd::bits::lemma_u64_shl_is_mul(1, max_bits as u64);
            if max_bits < 16 {
                lemma_pow2_strictly_increases(max_bits as nat, 16);
            }
        }
        let size: u64 = 1u64 << (max_bits as u64);
        let mut lookup: Vec<Lookup> = vec![Lookup { symbol: 0, numbits: 0 }; size as usize];
        let mut c: usize = 0;
        while c < n
            invariant
                lengths == numbits@,
                c <= n == lengths.len(),
                n <= 256,
                1 <= max_bits <= 16,
                size == pow2(max_bits as nat) <= 65536,
                enc.has_codes(),
                enc.numbits@ == lengths,
                enc.num_codes == n,
                enc.max_bits == max_bits,
                lookup@.len() == size,
                forall|d: int|
                    0 <= d < c && lengths[d] > 0 ==> #[trigger] huffman_tree::canonical_code(lengths, d)
                        < pow2(lengths[d] as nat),
                forall|w: int|
                    0 <= w < size && (#[trigger] lookup@[w]).numbits > 0 ==> lookup@[w].symbol < c
                        && starts_with(
                        lengths,
                        max_bits as nat,
                        w as nat,
                        lookup@[w].symbol as int,
                    ) && lookup@[w].numbits == lengths[lookup@[w].symbol as int],
                forall|w: int, d: int|
                    0 <= w < size && (#[trigger] lookup@[w]).numbits == 0 && 0 <= d < c
                        ==> !(#[trigger] starts_with(lengths, max_bits as nat, w as nat, d)),
                forall|w: int|
                    0 <= w < size && (#[trigger] lookup@[w]).numbits == 0 ==> lookup@[w].symbol == 0,
            decreases n - c,
        {
            let nb = enc.numbits[c];
            let ghost lookup0 = lookup@;
            if nb > 0 {
                let code = enc.codes[c];
                let shift: u64 = (max_bits - nb) as u64;
                let ghost p = pow2(shift as nat);
                proof {
                    assert(enc.numbits@[c as int] <= max_bits);
                    huffman_encode::lemma_code_small(lengths, c as int);
                    assert(code == huffman_tree::canonical_code(lengths, c as int));
                    lemma_pow2_adds(shift as nat, nb as nat);
                    lemma_pow2_pos(shift as nat);
                    lemma_pow2_pos(nb as nat);
                    vstd::bits::lemma_u64_pow2_no_overflow(shift as nat);
                    vstd::bits::lemma_u64_shl_is_mul(1, shift);
                    lemma_pow2_pos(shift as nat);
                    assert(p <= 65536) by (nonlinear_arith)
                        requires
                            p * pow2(nb as nat) <= 65536,
                            pow2(nb as nat) > 0,
                    ;
                    assert(code * p <= 512 * 65536) by (nonlinear_arith)
                        requires
                            code <= 512,
                            p <= 65536,
                    ;
                    assert((code + 1) * p == code * p + p) by (nonlinear_arith);
                }
                let span: u64 = 1u64 << shift;
                let start: u64 = code as u64 * span;
                let end: u64 = start + span;
                if end > size {
                    proof {
                        let nbn = nb as nat;
                        assert(!(code < pow2(nbn))) by (nonlinear_arith)
                            requires
                                (code + 1) * p > p * pow2(nbn),
                                p > 0,
                        ;
                        assert(!huffman_tree::codes_fit(lengths));
                    }
                    return Err(Error::DecompressionError);
                }
                proof {
                    let nbn = nb as nat;
                    assert(code < pow2(nbn)) by (nonlinear_arith)
                        requires
                            (code + 1) * p <= p * pow2(nbn),
                            p > 0,
                    ;
                    assert forall|w: int| 0 <= w < size implies #[trigger] starts_with(
                        lengths,
                        max_bits as nat,
                        w as nat,
                        c as int,
                    ) == (start <= w < end) by {
                        lemma_quotient(w, p as int, code as int);
                    }
                }
                let mut w: u64 = start;
                while w < end
                    invariant
                        start <= w <= end <= size <= 65536,
                        c < 256,
                        lookup@.len() == size,
                        forall|x: int|
                            0 <= x < size ==> #[trigger] lookup@[x] == (if start <= x < w {
                                Lookup { symbol: c as u8, numbits: nb }
                            } else {
                                lookup0[x]
                            }),
                    decreases end - w,
                {
                    lookup[w as usize] = Lookup { symbol: c as u8, numbits: nb };
                    w = w + 1;
                }
            }
            c = c + 1;
        }
        proof {
            assert forall|w: int| 0 <= w < size implies ((#[trigger] lookup@[w]).symbol as int,
                lookup@[w].numbits as nat) == symbol_of(lengths, max_bits as nat, w as nat) by {
                if lookup@[w].numbits > 0 {
                    lemma_symbol_of(lengths, max_bits as nat, w as nat, lookup@[w].symbol as int);
                } else {
                    assert forall|d: int| !(#[trigger] starts_with(lengths, max_bits as nat, w as nat, d)) by {
                        if 0 <= d < lengths.len() {
                            assert(lookup@[w].numbits == 0);
                        }
                    }
                }
            }
        }
        let numbits = enc.numbits;
        Ok(HuffmanDecoder { max_bits, numbits, lookup })
    }

    /// Decodes the symbol ahead. Zero bits stand in past the end of the input for finding it, but
    /// the code found must not reach there.
    pub fn decode_one(&self, cur: &mut BitCursor) -> (r: Result<u8, Error>)
        requires
            self.wf(),
            old(cur).wf(),
        ensures
            final(cur).wf(),
            final(cur).input@ == old(cur).input@,
            match r {
                Ok(c) => symbol_at(
                    self.numbits@,
                    self.max_bits as nat,
                    old(cur).stream(),
                    old(cur).pos as int,
                ) == Some((c as int, final(cur).pos as int)),
                Err(e) => symbol_at(
                    self.numbits@,
                    self.max_bits as nat,
                    old(cur).stream(),
                    old(cur).pos as int,
                ) is None && e == Error::DecompressionError && final(cur).pos == old(cur).pos,
            },
    {
        proof {
            lemma2_to64();
            if self.max_bits < 16 {
                lemma_pow2_strictly_increases(self.max_bits as nat, 16);
            }
        }
        let w = cur.peek(self.max_bits);
        let entry = self.lookup[w as usize];
        assert((self.lookup@[w as int].symbol as int, self.lookup@[w as int].numbits as nat) == symbol_of(
            self.numbits@,
            self.max_bits as nat,
            w as nat,
        ));
        if entry.numbits as u64 > cur.remaining() {
            return Err(Error::DecompressionError);
        }
        cur.pos = cur.pos + entry.numbits as u64;
        Ok(entry.symbol)
    }

    /// Decodes the next `n` symbols.
    pub fn decode_all(&self, cur: &mut BitCursor, n: usize) -> (r: Result<Vec<u8>, Error>)
        requires
            self.wf(),
            old(cur).wf(),
        ensures
            final(cur).wf(),
            final(cur).input@ == old(cur).input@,
            match r {
                Ok(v) => symbols_at(
                    self.numbits@,
                    self.max_bits as nat,
                    old(cur).stream(),
                    old(cur).pos as int,
                    n as nat,
                ) == Some((v@, final(cur).pos as int)) && v@.len() == n,
                Err(e) => symbols_at(
                    self.numbits@,
                    self.max_bits as nat,
                    old(cur).stream(),
                    old(cur).pos as int,
                    n as nat,
                ) is None && e == Error::DecompressionError,
            },
    {
        let mut out: Vec<u8> = Vec::new();
        let mut i: usize = 0;
        while i < n
            invariant
                i <= n,
                self.wf(),
                cur.wf(),
                cur.input@ == old(cur).input@,
                out@.len() == i,
                symbols_at(
                    self.numbits@,
                    self.max_bits as nat,
                    old(cur).stream(),
                    old(cur).pos as int,
                    i as nat,
                ) == Some((out@, cur.pos as int)),
            decreases n - i,
        {
            match self.decode_one(cur) {
                Ok(c) => {
                    out.push(c);
                },
                Err(e) => {
                    proof {
                        lemma_symbols_fail(
                            self.numbits@,
                            self.max_bits as nat,
                            old(cur).stream(),
                            old(cur).pos as int,
                            (i + 1) as nat,
                            n as nat,
                        );
                    }
                    return Err(e);
                },
            }
            i = i + 1;
        }
        Ok(out)
    }
}

proof fn lemma_symbols_fail(
    lengths: Seq<u8>,
    max_bits: nat,
    stream: Seq<bool>,
    pos: int,
    n: nat,
    m: nat,
)
    requires
        n <= m,
        symbols_at(lengths, max_bits, stream, pos, n) is None,
    ensures
        symbols_at(lengths, max_bits, stream, pos, m) is None,
    decreases m,
{
    if n < m {
        lemma_symbols_fail(lengths, max_bits, stream, pos, n, (m - 1) as nat);
    }
}

proof fn lemma_quotient(w: int, p: int, code: int)
    requires
        p > 0,
        w >= 0,
    ensures
        (w / p == code) == (code * p <= w < code * p + p),
{
    lemma_fundamental_div_mod(w, p);
    let q = w / p;
    let r = w % p;
    assert(w == p * q + r && 0 <= r < p);
    if q == code {
        assert(p * q == code * p) by (nonlinear_arith)
            requires
                q == code,
        ;
    } else if code * p <= w < code * p + p {
        assert(false) by (nonlinear_arith)
            requires
                q != code,
                w == p * q + r,
                0 <= r < p,
                code * p <= w < code * p + p,
        ;
    }
}

/// The bits of a symbol are decoded to it.
pub proof fn symbol_is_decoded(lengths: Seq<u8>, max_bits: u8, stream: Seq<bool>, pos: int, c: int)
    requires
        max_bits <= 32,
        decodable(lengths, max_bits),
        0 <= c < lengths.len() <= 256,
        lengths[c] > 0,
        0 <= pos,
        holds(stream, pos, huffman_encode::symbol_bits(lengths, c)),
    ensures
        symbol_at(lengths, max_bits as nat, stream, pos) == Some((c, pos + lengths[c])),
{
    let l = lengths[c] as nat;
    let m = max_bits as nat;
    let win = bitstream::window(stream, pos, m);
    let w = bitstream::bits_value(win);
    let bits = huffman_encode::symbol_bits(lengths, c);
    bitstream::lemma_bits_value_take(win, (m - l) as nat);
    assert(win.take(l as int) =~= bits) by {
        assert forall|i: int| 0 <= i < l implies win[i] == bits[i] by {
            assert(stream.subrange(pos, pos + l)[i] == stream[pos + i]);
        }
    }
    huffman_encode::lemma_code_small(lengths, c);
    let code = huffman_tree::canonical_code(lengths, c);
    assert(code < pow2(l));
    bitstream::lemma_value_bits_fit(code as u32, l);
    assert(starts_with(lengths, m, w, c));
    lemma_symbol_of(lengths, m, w, c);
}

/// Whether a stream holds `bits` at `pos`.
pub open spec fn holds(stream: Seq<bool>, pos: int, bits: Seq<bool>) -> bool {
    &&& 0 <= pos
    &&& pos + bits.len() <= stream.len()
    &&& stream.subrange(pos, pos + bits.len()) == bits
}

pub proof fn lemma_holds_concat(stream: Seq<bool>, pos: int, a: Seq<bool>, b: Seq<bool>)
    ensures
        holds(stream, pos, a + b) <==> holds(stream, pos, a) && holds(stream, pos + a.len(), b),
{
    if holds(stream, pos, a + b) {
        let s = stream.subrange(pos, pos + (a + b).len());
        assert(s.subrange(0, a.len() as int) =~= a);
        assert(s.subrange(a.len() as int, (a + b).len() as int) =~= b);
        assert(stream.subrange(pos, pos + a.len()) =~= a) by {
            assert forall|i: int| 0 <= i < a.len() implies stream.subrange(pos, pos + a.len())[i] == a[i] by {
                assert(s[i] == (a + b)[i]);
            }
        }
        assert(stream.subrange(pos + a.len(), pos + a.len() + b.len()) =~= b) by {
            assert forall|i: int| 0 <= i < b.len() implies stream.subrange(
                pos + a.len(),
                pos + a.len() + b.len(),
            )[i] == b[i] by {
                assert(s[i + a.len()] == (a + b)[i + a.len()]);
            }
        }
    }
    if holds(stream, pos, a) && holds(stream, pos + a.len(), b) {
        assert(stream.subrange(pos, pos + (a + b).len()) =~= a + b) by {
            assert forall|i: int| 0 <= i < (a + b).len() implies stream.subrange(
                pos,
                pos + (a + b).len(),
            )[i] == (a + b)[i] by {
                if i < a.len() {
                    assert(stream.subrange(pos, pos + a.len())[i] == a[i]);
                } else {
                    assert(stream.subrange(pos + a.len(), pos + a.len() + b.len())[i - a.len()] == b[i
                        - a.len()]);
                }
            }
        }
    }
}

/// The bits of a run of symbols are decoded to the run.
pub proof fn symbols_are_decoded(
    lengths: Seq<u8>,
    max_bits: u8,
    stream: Seq<bool>,
    pos: int,
    data: Seq<u8>,
)
    requires
        max_bits <= 32,
        decodable(lengths, max_bits),
        lengths.len() <= 256,
        forall|i: int|
            0 <= i < data.len() ==> #[trigger] data[i] < lengths.len() && lengths[data[i] as int] > 0,
        holds(stream, pos, huffman_encode::coded(lengths, data)),
    ensures
        symbols_at(lengths, max_bits as nat, stream, pos, data.len()) == Some(
            (data, pos + huffman_encode::coded(lengths, data).len()),
        ),
    decreases data.len(),
{
    if data.len() == 0 {
        assert(data =~= Seq::empty());
    } else {
        let rest = data.drop_last();
        let c = data.last() as int;
        lemma_holds_concat(
            stream,
            pos,
            huffman_encode::coded(lengths, rest),
            huffman_encode::symbol_bits(lengths, c),
        );
        assert forall|i: int| 0 <= i < rest.len() implies #[trigger] rest[i] < lengths.len()
            && lengths[rest[i] as int] > 0 by {
            assert(rest[i] == data[i]);
        }
        symbols_are_decoded(lengths, max_bits, stream, pos, rest);
        assert(data[data.len() - 1] < lengths.len() && lengths[data[data.len() - 1] as int] > 0);
        symbol_is_decoded(
            lengths,
            max_bits,
            stream,
            pos + huffman_encode::coded(lengths, rest).len(),
            c,
        );
        assert(rest.push(data.last()) =~= data);
    }
}


/// `n` times the length `v`.
pub open spec fn repeated(v: u8, n: int) -> Seq<u8> {
    Seq::new(
        if n < 0 {
            0
        } else {
            n as nat
        },
        |i: int| v,
    )
}

/// The lengths of the small code from symbol `acc.len()` on. They start at symbol `start`, three
/// bits each, up to seven, which ends them; the other lengths are zero.
pub open spec fn parse_small_list(
    stream: Seq<bool>,
    pos: int,
    start: nat,
    ended: bool,
    acc: Seq<u8>,
) -> Option<(Seq<u8>, int)>
    decreases 24 - acc.len(),
{
    if acc.len() >= 24 {
        Some((acc, pos))
    } else if acc.len() < start || ended {
        parse_small_list(stream, pos, start, ended, acc.push(0))
    } else {
        match bitstream::field(stream, pos, 3) {
            None => None,
            Some(v) => if v == 7 {
                parse_small_list(stream, pos + 3, start, true, acc.push(0))
            } else {
                parse_small_list(stream, pos + 3, start, false, acc.push(v as u8))
            },
        }
    }
}

/// The lengths of the small code at `pos`, and the place behind them.
pub open spec fn parse_small(stream: Seq<bool>, pos: int) -> Option<(Seq<u8>, int)> {
    match bitstream::field(stream, pos, 3) {
        None => None,
        Some(zero) => match bitstream::field(stream, pos + 3, 3) {
            None => None,
            Some(s) => parse_small_list(stream, pos + 6, s + 1, false, seq![zero as u8]),
        },
    }
}

/// The lengths that the tokens at `pos` add to `acc`, up to `n` lengths in all, and the place
/// behind the tokens.
#[verifier::opaque]
pub open spec fn parse_tokens(
    small: Seq<u8>,
    stream: Seq<bool>,
    pos: int,
    full_bits: nat,
    n: nat,
    last: u8,
    acc: Seq<u8>,
) -> Option<(Seq<u8>, int)>
    decreases n - acc.len(),
{
    if acc.len() >= n {
        Some((acc, pos))
    } else {
        match symbol_at(small, 6, stream, pos) {
            None => None,
            Some((c, p)) => if c != 0 {
                parse_tokens(
                    small,
                    stream,
                    p,
                    full_bits,
                    n,
                    (c - 1) as u8,
                    acc.push((c - 1) as u8),
                )
            } else {
                match bitstream::field(stream, p, 3) {
                    None => None,
                    Some(k) => if k < 7 {
                        parse_tokens(
                            small,
                            stream,
                            p + 3,
                            full_bits,
                            n,
                            last,
                            acc + repeated(last, at_most((k + 2) as int, n - acc.len())),
                        )
                    } else {
                        match bitstream::field(stream, p + 3, full_bits) {
                            None => None,
                            Some(e) => parse_tokens(
                                small,
                                stream,
                                p + 3 + full_bits,
                                full_bits,
                                n,
                                last,
                                acc + repeated(last, at_most((k + 2 + e) as int, n - acc.len())),
                            ),
                        }
                    },
                }
            },
        }
    }
}

pub open spec fn at_most(a: int, b: int) -> int {
    if a < b {
        a
    } else {
        b
    }
}

/// The `n` code lengths written at the start of a stream, and the place behind them.
pub open spec fn parse_tree(stream: Seq<bool>, n: nat) -> Option<(Seq<u8>, int)> {
    match parse_small(stream, 0) {
        None => None,
        Some((small, p)) => if decodable(small, 6) {
            parse_tokens(
                small,
                stream,
                p,
                huffman_encode::bit_length((n - 9) as nat),
                n,
                0,
                Seq::empty(),
            )
        } else {
            None
        },
    }
}

/// Reads the lengths of the small code.
fn read_small(cur: &mut BitCursor) -> (r: Result<Vec<u8>, Error>)
    requires
        old(cur).wf(),
    ensures
        final(cur).wf(),
        final(cur).input@ == old(cur).input@,
        match r {
            Ok(v) => parse_small(old(cur).stream(), old(cur).pos as int) == Some(
                (v@, final(cur).pos as int),
            ) && v@.len() == 24,
            Err(e) => parse_small(old(cur).stream(), old(cur).pos as int) is None && e
                == Error::DecompressionError,
        },
{
    let ghost stream = cur.stream();
    let ghost p0 = cur.pos as int;
    let zero = match cur.read(3) {
        Some(v) => v,
        None => {
            return Err(Error::DecompressionError);
        },
    };
    proof {
        bitstream::lemma_field_bound(stream, p0, 3);
        lemma2_to64();
    }
    let start = match cur.read(3) {
        Some(v) => v,
        None => {
            return Err(Error::DecompressionError);
        },
    };
    proof {
        bitstream::lemma_field_bound(stream, p0 + 3, 3);
    }
    let mut small: Vec<u8> = Vec::new();
    small.push(zero as u8);
    assert(small@ =~= seq![zero as u8]);
    let mut ended: bool = false;
    while small.len() < 24
        invariant
            cur.wf(),
            cur.input@ == old(cur).input@,
            stream == cur.stream(),
            stream == old(cur).stream(),
            1 <= small@.len() <= 24,
            start < 8,
            parse_small(stream, old(cur).pos as int) == parse_small_list(
                stream,
                cur.pos as int,
                (start + 1) as nat,
                ended,
                small@,
            ),
        decreases 24 - small@.len(),
    {
        if (small.len() as u64) < start + 1 || ended {
            small.push(0);
        } else {
            let ghost p1 = cur.pos as int;
            match cur.read(3) {
                None => {
                    return Err(Error::DecompressionError);
                },
                Some(v) => {
                    proof {
                        bitstream::lemma_field_bound(stream, p1, 3);
                        lemma2_to64();
                    }
                    if v == 7 {
                        ended = true;
                        small.push(0);
                    } else {
                        small.push(v as u8);
                    }
                },
            }
        }
    }
    Ok(small)
}

/// Reads the tokens in the small code.
#[verifier::spinoff_prover]
#[verifier::rlimit(60)]
fn read_tokens(decoder: &HuffmanDecoder, cur: &mut BitCursor, n: usize) -> (r: Result<Vec<u8>, Error>)
    requires
        decoder.wf(),
        decoder.max_bits == 6,
        old(cur).wf(),
        9 <= n <= 256,
    ensures
        final(cur).wf(),
        final(cur).input@ == old(cur).input@,
        match r {
            Ok(v) => parse_tokens(
                decoder.numbits@,
                old(cur).stream(),
                old(cur).pos as int,
                huffman_encode::bit_length((n - 9) as nat),
                n as nat,
                0,
                Seq::empty(),
            ) == Some((v@, final(cur).pos as int)) && v@.len() == n,
            Err(e) => parse_tokens(
                decoder.numbits@,
                old(cur).stream(),
                old(cur).pos as int,
                huffman_encode::bit_length((n - 9) as nat),
                n as nat,
                0,
                Seq::empty(),
            ) is None && e == Error::DecompressionError,
        },
{
    let ghost stream = cur.stream();
    let full_bits = huffman_encode::bits_for_value((n - 9) as u64);
    proof {
        huffman_encode::lemma_full_bits(n as nat);
    }
    let mut out: Vec<u8> = Vec::new();
    let mut last: u8 = 0;
    while out.len() < n
        invariant
            decoder.wf(),
            decoder.max_bits == 6,
            cur.wf(),
            cur.input@ == old(cur).input@,
            stream == cur.stream(),
            stream == old(cur).stream(),
            9 <= n <= 256,
            out@.len() <= n,
            full_bits == huffman_encode::bit_length((n - 9) as nat) <= 8,
            parse_tokens(
                decoder.numbits@,
                stream,
                old(cur).pos as int,
                full_bits as nat,
                n as nat,
                0,
                Seq::empty(),
            ) == parse_tokens(
                decoder.numbits@,
                stream,
                cur.pos as int,
                full_bits as nat,
                n as nat,
                last,
                out@,
            ),
        decreases n - out@.len(),
    {
        proof {
            reveal_with_fuel(parse_tokens, 2);
        }
        let c = match decoder.decode_one(cur) {
            Ok(c) => c,
            Err(e) => {
                return Err(e);
            },
        };
        if c != 0 {
            last = c - 1;
            out.push(last);
        } else {
            let ghost acc = out@;
            let ghost p1 = cur.pos as int;
            let k = match cur.read(3) {
                Some(v) => v,
                None => {
                    return Err(Error::DecompressionError);
                },
            };
            proof {
                bitstream::lemma_field_bound(stream, p1, 3);
                lemma2_to64();
            }
            let mut count: u64 = k + 2;
            if k >= 7 {
                let e = match cur.read(full_bits) {
                    Some(v) => v,
                    None => {
                        return Err(Error::DecompressionError);
                    },
                };
                proof {
                    bitstream::lemma_field_bound(stream, p1 + 3, full_bits as nat);
                    if full_bits < 8 {
                        lemma_pow2_strictly_increases(full_bits as nat, 8);
                    }
                }
                count = count + e;
            }
            let ghost goal = at_most(count as int, n - acc.len());
            let ghost mut done: int = 0;
            assert(out@ =~= acc + repeated(last, 0));
            while count != 0 && out.len() < n
                invariant
                    acc.len() <= out@.len() <= n,
                    0 <= done <= goal,
                    goal - done == at_most(count as int, n - out@.len()),
                    out@ == acc + repeated(last, done),
                decreases count,
            {
                out.push(last);
                count = count - 1;
                proof {
                    done = done + 1;
                    assert(out@ =~= acc + repeated(last, done));
                }
            }
        }
    }
    proof {
        reveal_with_fuel(parse_tokens, 2);
    }
    Ok(out)
}

impl HuffmanDecoder {
    /// Reads the `n` code lengths at the start of the input, and makes their decoder.
    pub fn from_huffman_tree(cur: &mut BitCursor, n: usize, max_bits: u8) -> (r: Result<
        HuffmanDecoder,
        Error,
    >)
        requires
            old(cur).wf(),
            old(cur).pos == 0,
            9 <= n <= 256,
            1 <= max_bits <= 16,
        ensures
            final(cur).wf(),
            final(cur).input@ == old(cur).input@,
            match r {
                Ok(d) => d.wf() && d.max_bits == max_bits && d.numbits@.len() == n && parse_tree(
                    old(cur).stream(),
                    n as nat,
                ) == Some((d.numbits@, final(cur).pos as int)),
                Err(e) => e == Error::DecompressionError && (parse_tree(
                    old(cur).stream(),
                    n as nat,
                ) matches Some((lengths, p)) ==> !decodable(lengths, max_bits)),
            },
    {
        let small = match read_small(cur) {
            Ok(v) => v,
            Err(e) => {
                return Err(e);
            },
        };
        let small_decoder = match HuffmanDecoder::from_lengths(small, 6) {
            Ok(d) => d,
            Err(e) => {
                return Err(e);
            },
        };
        let lengths = match read_tokens(&small_decoder, cur, n) {
            Ok(v) => v,
            Err(e) => {
                return Err(e);
            },
        };
        HuffmanDecoder::from_lengths(lengths, max_bits)
    }
}

/// A list of small lengths is read back.
proof fn lemma_small_list(
    small: Seq<u8>,
    stream: Seq<bool>,
    pos: int,
    start: nat,
    i: int,
    stop: int,
)
    requires
        small.len() == 24,
        1 <= start <= i <= 24,
        start <= 8,
        stop < 24,
        forall|k: int| 0 <= k < 24 ==> #[trigger] small[k] <= 6,
        forall|k: int| stop <= k < 24 && k >= 1 ==> #[trigger] small[k] == 0,
        i <= stop || i == start,
        holds(stream, pos, huffman_encode::small_list_bits(small, i, stop) + bitstream::value_bits(7, 3)),
    ensures
        parse_small_list(stream, pos, start, false, small.take(i)) == Some(
            (small, pos + huffman_encode::small_list_bits(small, i, stop).len() + 3),
        ),
    decreases 24 - i,
{
    let seven = bitstream::value_bits(7, 3);
    lemma2_to64();
    if i < stop {
        let head = bitstream::value_bits(small[i] as u32, 3);
        let rest = huffman_encode::small_list_bits(small, i + 1, stop);
        assert(huffman_encode::small_list_bits(small, i, stop) + seven =~= head + (rest + seven));
        lemma_holds_concat(stream, pos, head, rest + seven);
        bitstream::lemma_value_bits_fit(small[i] as u32, 3);
        assert(small.take(i).push(small[i]) =~= small.take(i + 1));
        lemma_small_list(small, stream, pos + 3, start, i + 1, stop);
    } else {
        assert(huffman_encode::small_list_bits(small, i, stop) + seven =~= seven);
        bitstream::lemma_value_bits_fit(7, 3);
        if i < 24 {
            assert(small[i] == 0);
            assert(small.take(i).push(0) =~= small.take(i + 1));
            lemma_small_ended(small, stream, pos + 3, start, i + 1);
        }
    }
}

proof fn lemma_small_ended(small: Seq<u8>, stream: Seq<bool>, pos: int, start: nat, i: int)
    requires
        small.len() == 24,
        1 <= i <= 24,
        forall|k: int| i <= k < 24 ==> #[trigger] small[k] == 0,
    ensures
        parse_small_list(stream, pos, start, true, small.take(i)) == Some((small, pos)),
    decreases 24 - i,
{
    if i < 24 {
        assert(small[i] == 0);
        assert(small.take(i).push(0) =~= small.take(i + 1));
        lemma_small_ended(small, stream, pos, start, i + 1);
    } else {
        assert(small.take(i) =~= small);
    }
}

proof fn lemma_small_skipped(small: Seq<u8>, stream: Seq<bool>, pos: int, start: nat, i: int)
    requires
        small.len() == 24,
        1 <= i <= start <= 24,
        forall|k: int| i <= k < start ==> #[trigger] small[k] == 0,
    ensures
        parse_small_list(stream, pos, start, false, small.take(i)) == parse_small_list(
            stream,
            pos,
            start,
            false,
            small.take(start as int),
        ),
    decreases start - i,
{
    if i < start {
        assert(small[i] == 0);
        assert(small.take(i).push(0) =~= small.take(i + 1));
        lemma_small_skipped(small, stream, pos, start, i + 1);
    }
}

/// The lengths of a small code are read back.
proof fn lemma_small_round_trip(small: Seq<u8>, stream: Seq<bool>, pos: int)
    requires
        small.len() == 24,
        forall|k: int| 0 <= k < 24 ==> #[trigger] small[k] <= 6,
        small[23] == 0,
        holds(stream, pos, huffman_encode::small_header(small)),
    ensures
        parse_small(stream, pos) == Some(
            (small, pos + huffman_encode::small_header(small).len()),
        ),
{
    let start = huffman_encode::list_start(small);
    let stop = huffman_encode::list_stop(small, 24);
    let a = bitstream::value_bits(small[0] as u32, 3);
    let b = bitstream::value_bits((start - 1) as u32, 3);
    let c = huffman_encode::small_list_bits(small, start, stop);
    let d = bitstream::value_bits(7, 3);
    huffman_encode::lemma_first_used(small, 1);
    huffman_encode::lemma_list_stop(small, 24);
    assert(huffman_encode::small_header(small) =~= a + (b + (c + d)));
    lemma_holds_concat(stream, pos, a, b + (c + d));
    lemma_holds_concat(stream, pos + 3, b, c + d);
    lemma2_to64();
    bitstream::lemma_value_bits_fit(small[0] as u32, 3);
    bitstream::lemma_value_bits_fit((start - 1) as u32, 3);
    assert(seq![small[0]] =~= small.take(1));
    assert(stop < 24) by {
        if stop == 24 {
            assert(small[23] != 0);
        }
    }
    lemma_small_skipped(small, stream, pos + 6, start as nat, 1);
    lemma_small_list(small, stream, pos + 6, start as nat, start, stop);
}

proof fn lemma_tokens_concat(
    small: Seq<u8>,
    a: Seq<huffman_encode::Token>,
    b: Seq<huffman_encode::Token>,
    i: int,
    full_bits: nat,
)
    requires
        0 <= i <= a.len(),
    ensures
        huffman_encode::tokens_bits(small, a + b, i, full_bits) == huffman_encode::tokens_bits(
            small,
            a,
            i,
            full_bits,
        ) + huffman_encode::tokens_bits(small, b, 0, full_bits),
    decreases a.len() - i,
{
    if i == a.len() {
        lemma_tokens_shift(small, a, b, 0, full_bits);
        assert(huffman_encode::tokens_bits(small, a, i, full_bits) =~= Seq::empty());
        assert(huffman_encode::tokens_bits(small, a + b, i, full_bits) =~= Seq::empty()
            + huffman_encode::tokens_bits(small, b, 0, full_bits));
    } else {
        lemma_tokens_concat(small, a, b, i + 1, full_bits);
        let head = huffman_encode::token_bits(small, a[i], full_bits);
        assert((a + b)[i] == a[i]);
        assert(huffman_encode::tokens_bits(small, a + b, i, full_bits) =~= head
            + huffman_encode::tokens_bits(small, a, i + 1, full_bits) + huffman_encode::tokens_bits(
            small,
            b,
            0,
            full_bits,
        ));
    }
}

proof fn lemma_tokens_shift(
    small: Seq<u8>,
    a: Seq<huffman_encode::Token>,
    b: Seq<huffman_encode::Token>,
    i: int,
    full_bits: nat,
)
    requires
        0 <= i <= b.len(),
    ensures
        huffman_encode::tokens_bits(small, a + b, a.len() + i, full_bits)
            == huffman_encode::tokens_bits(small, b, i, full_bits),
    decreases b.len() - i,
{
    if i < b.len() {
        assert((a + b)[a.len() + i] == b[i]);
        lemma_tokens_shift(small, a, b, i + 1, full_bits);
    }
}

/// What holds of the code for the tokens of a set of lengths.
spec fn token_code(small: Seq<u8>, tokens: Seq<huffman_encode::Token>) -> bool {
    &&& small.len() == 24
    &&& decodable(small, 6)
    &&& forall|i: int|
        0 <= i < tokens.len() ==> (#[trigger] tokens[i]).data < 24 && small[tokens[i].data as int] > 0
}

/// A token for a length is read back.
proof fn lemma_value_token(
    small: Seq<u8>,
    stream: Seq<bool>,
    pos: int,
    full_bits: nat,
    n: nat,
    last: u8,
    acc: Seq<u8>,
    t: huffman_encode::Token,
)
    requires
        small.len() == 24,
        decodable(small, 6),
        0 < t.data < 24,
        small[t.data as int] > 0,
        acc.len() < n,
        holds(stream, pos, huffman_encode::token_bits(small, t, full_bits)),
    ensures
        parse_tokens(small, stream, pos, full_bits, n, last, acc) == parse_tokens(
            small,
            stream,
            pos + huffman_encode::token_bits(small, t, full_bits).len(),
            full_bits,
            n,
            (t.data - 1) as u8,
            acc.push((t.data - 1) as u8),
        ),
{
    reveal_with_fuel(parse_tokens, 2);
    assert(huffman_encode::token_bits(small, t, full_bits) =~= huffman_encode::symbol_bits(
        small,
        t.data as int,
    ));
    symbol_is_decoded(small, 6, stream, pos, t.data as int);
}

/// A token for a repeat is read back.
#[verifier::spinoff_prover]
#[verifier::rlimit(60)]
proof fn lemma_repeat_token(
    small: Seq<u8>,
    stream: Seq<bool>,
    pos: int,
    full_bits: nat,
    n: nat,
    last: u8,
    acc: Seq<u8>,
    t: huffman_encode::Token,
)
    requires
        small.len() == 24,
        decodable(small, 6),
        t.data == 0,
        small[0] > 0,
        9 <= n <= 256,
        full_bits == huffman_encode::bit_length((n - 9) as nat),
        acc.len() + t.count + 2 <= n,
        acc.len() >= 1,
        holds(stream, pos, huffman_encode::token_bits(small, t, full_bits)),
    ensures
        parse_tokens(small, stream, pos, full_bits, n, last, acc) == parse_tokens(
            small,
            stream,
            pos + huffman_encode::token_bits(small, t, full_bits).len(),
            full_bits,
            n,
            last,
            acc + repeated(last, t.count + 2),
        ),
{
    reveal_with_fuel(parse_tokens, 2);
    let bits = huffman_encode::token_bits(small, t, full_bits);
    let zero = huffman_encode::symbol_bits(small, 0);
    let pz = pos + zero.len();
    lemma2_to64();
    if t.count < 7 {
        let cb = bitstream::value_bits(t.count as u32, 3);
        lemma_holds_concat(stream, pos, zero, cb);
        bitstream::lemma_value_bits_fit(t.count as u32, 3);
        assert(bitstream::field(stream, pz, 3) == Some(t.count as nat));
    } else {
        let cb = bitstream::value_bits(7, 3);
        let db = bitstream::value_bits((t.count - 7) as u32, full_bits);
        assert(bits =~= zero + (cb + db));
        lemma_holds_concat(stream, pos, zero, cb + db);
        lemma_holds_concat(stream, pz, cb, db);
        bitstream::lemma_value_bits_fit(7, 3);
        huffman_encode::lemma_full_bits(n);
        huffman_encode::lemma_bit_length((n - 9) as nat);
        bitstream::lemma_value_bits_fit((t.count - 7) as u32, full_bits);
        assert(bitstream::field(stream, pz, 3) == Some(7nat));
        assert(bitstream::field(stream, pz + 3, full_bits) == Some((t.count - 7) as nat));
    }
    symbol_is_decoded(small, 6, stream, pos, 0);
}

/// The tokens of the lengths from `i` on are read back.
proof fn lemma_tokens_round_trip(
    lengths: Seq<u8>,
    small: Seq<u8>,
    stream: Seq<bool>,
    pos: int,
    full_bits: nat,
    i: int,
    last: u8,
)
    requires
        0 <= i <= lengths.len() <= 256,
        9 <= lengths.len(),
        forall|k: int| 0 <= k < lengths.len() ==> #[trigger] lengths[k] <= 16,
        token_code(small, huffman_encode::tree_tokens(lengths, i)),
        full_bits == huffman_encode::bit_length((lengths.len() - 9) as nat),
        holds(
            stream,
            pos,
            huffman_encode::tokens_bits(
                small,
                huffman_encode::tree_tokens(lengths, i),
                0,
                full_bits,
            ),
        ),
    ensures
        parse_tokens(small, stream, pos, full_bits, lengths.len(), last, lengths.take(i)) == Some(
            (
                lengths,
                pos + huffman_encode::tokens_bits(
                    small,
                    huffman_encode::tree_tokens(lengths, i),
                    0,
                    full_bits,
                ).len(),
            ),
        ),
    decreases lengths.len() - i,
{
    if i == lengths.len() {
        assert(lengths.take(i) =~= lengths);
        reveal_with_fuel(parse_tokens, 2);
    } else {
        let v = lengths[i];
        let end = huffman_encode::run_end(lengths, v, i + 1);
        huffman_encode::lemma_run_end(lengths, v, i + 1);
        let n = end - i;
        let head = huffman_encode::run_tokens(v, n);
        let rest = huffman_encode::tree_tokens(lengths, end);
        let tokens = huffman_encode::tree_tokens(lengths, i);
        assert(tokens == head + rest);
        assert forall|k: int| 0 <= k < head.len() implies (#[trigger] head[k]).data < 24
            && small[head[k].data as int] > 0 by {
            assert(tokens[k] == head[k]);
        }
        assert(token_code(small, rest)) by {
            assert forall|k: int| 0 <= k < rest.len() implies (#[trigger] rest[k]).data < 24
                && small[rest[k].data as int] > 0 by {
                assert(tokens[k + head.len()] == rest[k]);
            }
        }
        let rest_bits = huffman_encode::tokens_bits(small, rest, 0, full_bits);
        lemma_tokens_concat(small, head, rest, 0, full_bits);
        let head_bits = huffman_encode::tokens_bits(small, head, 0, full_bits);
        lemma_holds_concat(stream, pos, head_bits, rest_bits);
        let first = huffman_encode::token_bits(small, head[0], full_bits);
        let tail_bits = huffman_encode::tokens_bits(small, head, 1, full_bits);
        assert(head_bits == first + tail_bits);
        lemma_holds_concat(stream, pos, first, tail_bits);
        assert(head[0].data == v + 1);
        lemma_value_token(small, stream, pos, full_bits, lengths.len(), last, lengths.take(i), head[0]);
        assert(lengths.take(i).push(v) =~= lengths.take(i + 1));
        let p1 = pos + first.len();
        if n == 1 {
            assert(tail_bits =~= Seq::empty());
            lemma_tokens_round_trip(lengths, small, stream, p1, full_bits, end, v);
        } else {
            let second = huffman_encode::token_bits(small, head[1], full_bits);
            assert(huffman_encode::tokens_bits(small, head, 2, full_bits) =~= Seq::empty());
            assert(tail_bits =~= second);
            let p2 = p1 + second.len();
            if n == 2 {
                lemma_value_token(
                    small,
                    stream,
                    p1,
                    full_bits,
                    lengths.len(),
                    v,
                    lengths.take(i + 1),
                    head[1],
                );
                assert(lengths.take(i + 1).push(v) =~= lengths.take(i + 2));
            } else {
                lemma_repeat_token(
                    small,
                    stream,
                    p1,
                    full_bits,
                    lengths.len(),
                    v,
                    lengths.take(i + 1),
                    head[1],
                );
                assert(lengths.take(i + 1) + repeated(v, n - 1) =~= lengths.take(end)) by {
                    assert forall|k: int| i + 1 <= k < end implies lengths[k] == v by {}
                }
            }
            lemma_tokens_round_trip(lengths, small, stream, p2, full_bits, end, v);
        }
    }
}

/// The code lengths written ahead of data are read back.
pub proof fn tree_is_read_back(lengths: Seq<u8>, stream: Seq<bool>)
    requires
        9 <= lengths.len() <= 256,
        forall|k: int| 0 <= k < lengths.len() ==> #[trigger] lengths[k] <= 16,
        holds(stream, 0, huffman_encode::tree_bits(lengths)),
    ensures
        parse_tree(stream, lengths.len()) == Some(
            (lengths, huffman_encode::tree_bits(lengths).len() as int),
        ),
{
    let small = huffman_encode::small_lengths(lengths);
    let tokens = huffman_encode::tree_tokens(lengths, 0);
    let symbols = huffman_encode::token_symbols(tokens);
    let full_bits = huffman_encode::bit_length((lengths.len() - 9) as nat);
    huffman_encode::lemma_small_code(lengths);
    let histo = huffman_encode::histogram(symbols, 24);
    huffman_encode::code_lengths_make_a_code(histo, 6);
    huffman_encode::code_lengths_of_used(histo, 6);
    huffman_tree::lemma_codes_fit(small);
    assert(token_code(small, tokens)) by {
        assert forall|i: int| 0 <= i < tokens.len() implies (#[trigger] tokens[i]).data < 24
            && small[tokens[i].data as int] > 0 by {
            assert(symbols[i] == tokens[i].data);
            huffman_encode::lemma_occurs(symbols, i);
            huffman_encode::lemma_occurrences_bound(symbols, tokens[i].data);
        }
    }
    assert(small[23] == 0) by {
        assert forall|i: int| 0 <= i < symbols.len() implies symbols[i] != 23 by {
            assert(symbols[i] == tokens[i].data);
        }
        huffman_encode::lemma_occurs_not(symbols, 23);
    }
    lemma_holds_concat(
        stream,
        0,
        huffman_encode::small_header(small),
        huffman_encode::tokens_bits(small, tokens, 0, full_bits),
    );
    lemma_small_round_trip(small, stream, 0);
    assert(lengths.take(0) =~= Seq::empty());
    lemma_tokens_round_trip(
        lengths,
        small,
        stream,
        huffman_encode::small_header(small).len() as int,
        full_bits,
        0,
        0,
    );
}

/// What decoding `input` to `n` bytes gives, and the place in bits behind the last code.
pub open spec fn decoded_8bit(input: Seq<u8>, n: nat) -> Option<(Seq<u8>, int)> {
    let stream = bitstream::byte_bits(input);
    match parse_tree(stream, 256) {
        None => None,
        Some((lengths, p)) => if decodable(lengths, 16) {
            symbols_at(lengths, 16, stream, p, n)
        } else {
            None
        },
    }
}

/// 8-bit data is decoded from what it was encoded to.
pub proof fn encoded_8bit_is_decoded(data: Seq<u8>)
    requires
        2 * data.len() <= u32::MAX,
    ensures
        decoded_8bit(huffman_encode::encoded_8bit(data), data.len()) matches Some((d, p)) && d == data,
{
    let lengths = huffman_encode::byte_lengths(data);
    let histo = huffman_encode::histogram(data, 256);
    let head = huffman_encode::tree_bits(lengths);
    let body = huffman_encode::coded(lengths, data);
    let stream = bitstream::byte_bits(huffman_encode::encoded_8bit(data));
    bitstream::packed_holds_stream(head + body);
    assert(holds(stream, 0, head + body)) by {
        assert(stream == (head + body) + bitstream::padding(head + body));
        assert(stream.subrange(0, (head + body).len() as int) =~= head + body);
    }
    lemma_holds_concat(stream, 0, head, body);
    lemma2_to64();
    huffman_encode::histogram_can_be_coded(data, 256, 16);
    huffman_encode::code_lengths_make_a_code(histo, 16);
    huffman_encode::code_lengths_of_used(histo, 16);
    huffman_tree::lemma_codes_fit(lengths);
    tree_is_read_back(lengths, stream);
    assert forall|i: int| 0 <= i < data.len() implies #[trigger] data[i] < lengths.len()
        && lengths[data[i] as int] > 0 by {
        huffman_encode::lemma_occurs(data, i);
        huffman_encode::lemma_occurrences_bound(data, data[i]);
    }
    symbols_are_decoded(lengths, 16, stream, head.len() as int, data);
}


/// The lengths that plain runs, in fields of `width` bits, add to `acc`, up to `n` lengths in
/// all, and the place behind them. A run that goes past `n` is an error.
pub open spec fn parse_rle(
    stream: Seq<bool>,
    pos: int,
    width: nat,
    n: nat,
    acc: Seq<u8>,
) -> Option<(Seq<u8>, int)>
    decreases n - acc.len(),
{
    if acc.len() >= n {
        Some((acc, pos))
    } else {
        match bitstream::field(stream, pos, width) {
            None => None,
            Some(v) => if v != 1 {
                parse_rle(stream, pos + width, width, n, acc.push(v as u8))
            } else {
                match bitstream::field(stream, pos + width, width) {
                    None => None,
                    Some(u) => if u == 1 {
                        parse_rle(stream, pos + 2 * width, width, n, acc.push(1))
                    } else {
                        match bitstream::field(stream, pos + 2 * width, width) {
                            None => None,
                            Some(k) => if acc.len() + k + 3 > n {
                                None
                            } else {
                                parse_rle(
                                    stream,
                                    pos + 3 * width,
                                    width,
                                    n,
                                    acc + repeated(u as u8, (k + 3) as int),
                                )
                            },
                        }
                    },
                }
            },
        }
    }
}

impl HuffmanDecoder {
    /// Reads `n` code lengths as plain runs, and makes their decoder.
    pub fn from_tree_rle(cur: &mut BitCursor, n: usize, max_bits: u8) -> (r: Result<
        HuffmanDecoder,
        Error,
    >)
        requires
            old(cur).wf(),
            1 <= n <= 256,
            1 <= max_bits <= 16,
        ensures
            final(cur).wf(),
            final(cur).input@ == old(cur).input@,
            match r {
                Ok(d) => d.wf() && d.max_bits == max_bits && d.numbits@.len() == n && parse_rle(
                    old(cur).stream(),
                    old(cur).pos as int,
                    huffman_encode::rle_width(max_bits),
                    n as nat,
                    Seq::empty(),
                ) == Some((d.numbits@, final(cur).pos as int)),
                Err(e) => e == Error::DecompressionError && (parse_rle(
                    old(cur).stream(),
                    old(cur).pos as int,
                    huffman_encode::rle_width(max_bits),
                    n as nat,
                    Seq::empty(),
                ) matches Some((lengths, p)) ==> !decodable(lengths, max_bits)),
            },
    {
        let width: u8 = if max_bits >= 16 {
            5
        } else if max_bits >= 8 {
            4
        } else {
            3
        };
        let ghost stream = cur.stream();
        let mut out: Vec<u8> = Vec::new();
        proof {
            lemma2_to64();
        }
        while out.len() < n
            invariant
                cur.wf(),
                cur.input@ == old(cur).input@,
                stream == cur.stream(),
                stream == old(cur).stream(),
                1 <= n <= 256,
                out@.len() <= n,
                3 <= width <= 5,
                width == huffman_encode::rle_width(max_bits),
                pow2(width as nat) <= 32,
                parse_rle(stream, old(cur).pos as int, width as nat, n as nat, Seq::empty())
                    == parse_rle(stream, cur.pos as int, width as nat, n as nat, out@),
            decreases n - out@.len(),
        {
            let ghost p = cur.pos as int;
            proof {
                bitstream::lemma_field_bound(stream, p, width as nat);
                bitstream::lemma_field_bound(stream, p + width, width as nat);
                bitstream::lemma_field_bound(stream, p + 2 * width, width as nat);
            }
            let v = match cur.read(width) {
                Some(v) => v,
                None => {
                    return Err(Error::DecompressionError);
                },
            };
            if v != 1 {
                out.push(v as u8);
            } else {
                let u = match cur.read(width) {
                    Some(u) => u,
                    None => {
                        return Err(Error::DecompressionError);
                    },
                };
                if u == 1 {
                    out.push(1);
                } else {
                    let k = match cur.read(width) {
                        Some(k) => k,
                        None => {
                            return Err(Error::DecompressionError);
                        },
                    };
                    if out.len() as u64 + k + 3 > n as u64 {
                        return Err(Error::DecompressionError);
                    }
                    let ghost acc = out@;
                    let mut j: u64 = 0;
                    assert(out@ =~= acc + repeated(u as u8, 0));
                    while j < k + 3
                        invariant
                            j <= k + 3,
                            k < 32,
                            out@ == acc + repeated(u as u8, j as int),
                        decreases k + 3 - j,
                    {
                        out.push(u as u8);
                        j = j + 1;
                        assert(out@ =~= acc + repeated(u as u8, j as int));
                    }
                }
            }
        }
        HuffmanDecoder::from_lengths(out, max_bits)
    }
}

/// A run is read back.
#[verifier::spinoff_prover]
#[verifier::rlimit(60)]
proof fn lemma_rle_run(stream: Seq<bool>, pos: int, width: nat, n: nat, acc: Seq<u8>, v: u8, k: int)
    requires
        3 <= width <= 5,
        v < pow2(width),
        0 <= k,
        acc.len() + k <= n,
        holds(stream, pos, huffman_encode::rle_run_bits(v, k, width)),
    ensures
        parse_rle(stream, pos, width, n, acc) == parse_rle(
            stream,
            pos + huffman_encode::rle_run_bits(v, k, width).len(),
            width,
            n,
            acc + repeated(v, k),
        ),
    decreases k,
{
    lemma2_to64();
    let field = bitstream::value_bits(v as u32, width);
    let one = bitstream::value_bits(1, width);
    let bits = huffman_encode::rle_run_bits(v, k, width);
    bitstream::lemma_value_bits_fit(v as u32, width);
    bitstream::lemma_value_bits_fit(1, width);
    if k == 0 {
        assert(acc + repeated(v, 0) =~= acc);
    } else if v == 1 {
        let rest = huffman_encode::rle_run_bits(v, k - 1, width);
        assert(bits =~= one + (one + rest));
        lemma_holds_concat(stream, pos, one, one + rest);
        lemma_holds_concat(stream, pos + width, one, rest);
        assert(acc.push(1) + repeated(v, k - 1) =~= acc + repeated(v, k));
        lemma_rle_run(stream, pos + 2 * width, width, n, acc.push(1), v, k - 1);
    } else if k <= 2 {
        let rest = huffman_encode::rle_run_bits(v, k - 1, width);
        lemma_holds_concat(stream, pos, field, rest);
        assert(acc.push(v) + repeated(v, k - 1) =~= acc + repeated(v, k));
        lemma_rle_run(stream, pos + width, width, n, acc.push(v), v, k - 1);
    } else {
        let most = pow2(width) - 1;
        let reps: int = if k - 3 < most { k - 3 } else { most as int };
        let count = bitstream::value_bits(reps as u32, width);
        let rest = huffman_encode::rle_run_bits(v, k - (reps + 3), width);
        bitstream::lemma_value_bits_fit(reps as u32, width);
        assert(bits =~= one + (field + (count + rest)));
        lemma_holds_concat(stream, pos, one, field + (count + rest));
        lemma_holds_concat(stream, pos + width, field, count + rest);
        lemma_holds_concat(stream, pos + 2 * width, count, rest);
        let next = acc + repeated(v, reps + 3);
        assert(next + repeated(v, k - (reps + 3)) =~= acc + repeated(v, k));
        lemma_rle_run(stream, pos + 3 * width, width, n, next, v, k - (reps + 3));
    }
}

/// Code lengths written as plain runs are read back.
pub proof fn rle_tree_is_read_back(lengths: Seq<u8>, stream: Seq<bool>, pos: int, width: nat, i: int)
    requires
        3 <= width <= 5,
        0 <= i <= lengths.len(),
        forall|k: int| 0 <= k < lengths.len() ==> #[trigger] lengths[k] < pow2(width),
        holds(stream, pos, huffman_encode::rle_tree_bits(lengths, i, width)),
    ensures
        parse_rle(stream, pos, width, lengths.len(), lengths.take(i)) == Some(
            (lengths, pos + huffman_encode::rle_tree_bits(lengths, i, width).len()),
        ),
    decreases lengths.len() - i,
{
    if i == lengths.len() {
        assert(lengths.take(i) =~= lengths);
    } else {
        let v = lengths[i];
        let end = huffman_encode::run_end(lengths, v, i + 1);
        huffman_encode::lemma_run_end(lengths, v, i + 1);
        let run = huffman_encode::rle_run_bits(v, end - i, width);
        let rest = huffman_encode::rle_tree_bits(lengths, end, width);
        lemma_holds_concat(stream, pos, run, rest);
        lemma_rle_run(stream, pos, width, lengths.len(), lengths.take(i), v, end - i);
        assert(lengths.take(i) + repeated(v, end - i) =~= lengths.take(end)) by {
            assert forall|k: int| i + 1 <= k < end implies lengths[k] == v by {}
        }
        rle_tree_is_read_back(lengths, stream, pos + run.len(), width, end);
    }
}

} // verus!
