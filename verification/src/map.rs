//! The hunk map of a compressed file: how it is packed, and how it is read back.

use crate::bitstream;
use crate::bitstream::{BitCursor, BitWriter};
use crate::bytes;
use crate::error::Error;
use crate::hash;
use crate::huffman;
use crate::huffman::HuffmanDecoder;
use crate::huffman_encode;
use crate::huffman_encode::HuffEncoder;
use crate::huffman_tree;
use vstd::arithmetic::power2::*;
use vstd::prelude::*;

verus! {

/// A hunk that is stored as it is. The kinds below are those of the four codec slots.
pub const COMPRESSION_NONE: u8 = 4;

/// A hunk that equals an earlier one.
pub const COMPRESSION_SELF: u8 = 5;

/// A hunk that is found in the parent.
pub const COMPRESSION_PARENT: u8 = 6;

/// In a packed map: the last kind, 3 to 18 times more.
pub const COMPRESSION_RLE_SMALL: u8 = 7;

/// In a packed map: the last kind, 19 to 274 times more.
pub const COMPRESSION_RLE_LARGE: u8 = 8;

/// In a packed map: the earlier hunk of the last such reference again.
pub const COMPRESSION_SELF_0: u8 = 9;

/// In a packed map: the hunk after that one.
pub const COMPRESSION_SELF_1: u8 = 10;

/// In a packed map: the same place in the parent.
pub const COMPRESSION_PARENT_SELF: u8 = 11;

/// In a packed map: the place in the parent of the last such reference again.
pub const COMPRESSION_PARENT_0: u8 = 12;

/// In a packed map: the place one hunk behind that one.
pub const COMPRESSION_PARENT_1: u8 = 13;

/// An entry of the map. `offset` is a place in the file, a hunk number, or a unit number in the
/// parent, as `kind` has it.
#[derive(Debug, Clone, Copy, PartialEq, Eq, Structural)]
pub struct RawEntry {
    pub kind: u8,
    pub length: u32,
    pub offset: u64,
    pub crc: u16,
}

/// The twelve bytes of an entry.
pub open spec fn entry_bytes(e: RawEntry) -> Seq<u8> {
    seq![e.kind] + bytes::be_bytes(e.length as nat, 3) + bytes::be_bytes(e.offset as nat, 6)
        + bytes::be_bytes(e.crc as nat, 2)
}

/// The entries one after the other.
pub open spec fn rawmap_bytes(m: Seq<RawEntry>) -> Seq<u8>
    decreases m.len(),
{
    if m.len() == 0 {
        Seq::empty()
    } else {
        rawmap_bytes(m.drop_last()) + entry_bytes(m.last())
    }
}

/// Serialises the entries.
pub fn rawmap_to_bytes(m: &[RawEntry]) -> (r: Vec<u8>)
    ensures
        r@ == rawmap_bytes(m@),
{
    let mut out: Vec<u8> = Vec::new();
    let mut i: usize = 0;
    assert(m@.take(0) =~= Seq::empty());
    while i < m.len()
        invariant
            i <= m@.len(),
            out@ == rawmap_bytes(m@.take(i as int)),
        decreases m@.len() - i,
    {
        let ghost before = out@;
        out.push(m[i].kind);
        bytes::push_be(&mut out, m[i].length as u64, 3);
        bytes::push_be(&mut out, m[i].offset, 6);
        bytes::push_be(&mut out, m[i].crc as u64, 2);
        proof {
            let next = m@.take(i + 1);
            assert(next.drop_last() =~= m@.take(i as int));
            assert(next.last() == m@[i as int]);
            assert(out@ =~= before + entry_bytes(m@[i as int]));
        }
        i = i + 1;
    }
    assert(m@.take(i as int) =~= m@);
    out
}

/// The reference of the last entry of the given kind ahead of entry `i`; zero where there is none.
pub open spec fn last_ref(m: Seq<RawEntry>, kind: u8, i: int) -> u64
    decreases i,
{
    if i <= 0 {
        0
    } else if m[i - 1].kind == kind {
        m[i - 1].offset
    } else {
        last_ref(m, kind, i - 1)
    }
}

/// The unit at which hunk `i` starts.
pub open spec fn home_unit(i: int, hunk_bytes: u32, unit_bytes: u32) -> int {
    (i * hunk_bytes) / (unit_bytes as int)
}

/// The kind of entry `i` in the packed map: references to places that can be foretold have kinds of
/// their own.
pub open spec fn compact_kind(m: Seq<RawEntry>, i: int, hunk_bytes: u32, unit_bytes: u32) -> u8 {
    let e = m[i];
    if e.kind == COMPRESSION_SELF {
        let last = last_ref(m, COMPRESSION_SELF, i);
        if e.offset == last {
            COMPRESSION_SELF_0
        } else if e.offset == last + 1 {
            COMPRESSION_SELF_1
        } else {
            COMPRESSION_SELF
        }
    } else if e.kind == COMPRESSION_PARENT {
        let last = last_ref(m, COMPRESSION_PARENT, i);
        if e.offset == home_unit(i, hunk_bytes, unit_bytes) {
            COMPRESSION_PARENT_SELF
        } else if e.offset == last {
            COMPRESSION_PARENT_0
        } else if e.offset == last + hunk_bytes / unit_bytes {
            COMPRESSION_PARENT_1
        } else {
            COMPRESSION_PARENT
        }
    } else {
        e.kind
    }
}

pub open spec fn compact_kinds(m: Seq<RawEntry>, hunk_bytes: u32, unit_bytes: u32) -> Seq<u8> {
    Seq::new(m.len(), |i: int| compact_kind(m, i, hunk_bytes, unit_bytes))
}

/// The greatest length of the first `n` entries that are no references.
pub open spec fn max_length(m: Seq<RawEntry>, n: nat) -> u32
    decreases n,
{
    if n == 0 {
        0
    } else {
        let rest = max_length(m, (n - 1) as nat);
        let e = m[n - 1];
        if e.kind != COMPRESSION_SELF && e.kind != COMPRESSION_PARENT && e.length > rest {
            e.length
        } else {
            rest
        }
    }
}

/// The greatest reference of the first `n` entries that keep the given kind in the packed map.
pub open spec fn max_ref(m: Seq<RawEntry>, kinds: Seq<u8>, kind: u8, n: nat) -> u64
    decreases n,
{
    if n == 0 {
        0
    } else {
        let rest = max_ref(m, kinds, kind, (n - 1) as nat);
        if kinds[n - 1] == kind && m[n - 1].offset > rest {
            m[n - 1].offset
        } else {
            rest
        }
    }
}

/// The tokens for `count` repeats of a kind.
pub open spec fn repeat_tokens(kind: u8, count: nat) -> Seq<u8>
    decreases count,
{
    if count == 0 {
        Seq::empty()
    } else if count < 3 {
        seq![kind] + repeat_tokens(kind, (count - 1) as nat)
    } else if count <= 18 {
        seq![COMPRESSION_RLE_SMALL, (count - 3) as u8]
    } else {
        let now: nat = if count < 274 {
            count
        } else {
            274
        };
        seq![
            COMPRESSION_RLE_LARGE,
            ((now - 19) / 16) as u8,
            ((now - 19) % 16) as u8,
        ] + repeat_tokens(kind, (count - now) as nat)
    }
}

/// The tokens for the kinds from `i` on. Each run is its kind and the repeats of it; ahead of the
/// first run the last kind is zero.
pub open spec fn kind_tokens(kinds: Seq<u8>, i: int) -> Seq<u8>
    decreases kinds.len() - i,
{
    if i < 0 || i >= kinds.len() {
        Seq::empty()
    } else {
        let v = kinds[i];
        let end = huffman_encode::run_end(kinds, v, i + 1);
        proof {
            huffman_encode::lemma_run_end(kinds, v, i + 1);
        }
        (if i == 0 && v == 0 {
            repeat_tokens(0, (end - i) as nat)
        } else {
            seq![v] + repeat_tokens(v, (end - i - 1) as nat)
        }) + kind_tokens(kinds, end)
    }
}

/// What an entry adds to the packed map behind the kinds.
pub open spec fn entry_bits(e: RawEntry, kind: u8, length_bits: nat, self_bits: nat, parent_bits: nat) -> Seq<
    bool,
> {
    if kind < COMPRESSION_NONE {
        bitstream::value_bits(e.length, length_bits) + bitstream::value_bits(e.crc as u32, 16)
    } else if kind == COMPRESSION_NONE {
        bitstream::value_bits(e.crc as u32, 16)
    } else if kind == COMPRESSION_SELF {
        bitstream::value_bits(e.offset as u32, self_bits)
    } else if kind == COMPRESSION_PARENT {
        bitstream::value_bits(e.offset as u32, parent_bits)
    } else {
        Seq::empty()
    }
}

/// What the first `n` entries add.
pub open spec fn entries_bits(
    m: Seq<RawEntry>,
    kinds: Seq<u8>,
    length_bits: nat,
    self_bits: nat,
    parent_bits: nat,
    n: nat,
) -> Seq<bool>
    decreases n,
{
    if n == 0 {
        Seq::empty()
    } else {
        entries_bits(m, kinds, length_bits, self_bits, parent_bits, (n - 1) as nat) + entry_bits(
            m[n - 1],
            kinds[n - 1],
            length_bits,
            self_bits,
            parent_bits,
        )
    }
}

/// The first place, other than zero, of a hunk that is stored in the file.
pub open spec fn first_offset(m: Seq<RawEntry>, i: int) -> u64
    decreases m.len() - i,
{
    if i < 0 || i >= m.len() {
        0
    } else if m[i].kind <= COMPRESSION_NONE && m[i].offset != 0 {
        m[i].offset
    } else {
        first_offset(m, i + 1)
    }
}

pub open spec fn length_bits(m: Seq<RawEntry>) -> nat {
    huffman_encode::bit_length(max_length(m, m.len()) as nat)
}

pub open spec fn self_bits(m: Seq<RawEntry>, hunk_bytes: u32, unit_bytes: u32) -> nat {
    huffman_encode::bit_length(
        max_ref(m, compact_kinds(m, hunk_bytes, unit_bytes), COMPRESSION_SELF, m.len()) as nat,
    )
}

pub open spec fn parent_bits(m: Seq<RawEntry>, hunk_bytes: u32, unit_bytes: u32) -> nat {
    huffman_encode::bit_length(
        max_ref(m, compact_kinds(m, hunk_bytes, unit_bytes), COMPRESSION_PARENT, m.len()) as nat,
    )
}

/// The code lengths for the tokens of the kinds.
pub open spec fn kind_lengths(kinds: Seq<u8>) -> Seq<u8> {
    huffman_encode::code_lengths(huffman_encode::histogram(kind_tokens(kinds, 0), 16), 8)
}

/// The bits of a packed map: the code lengths, the tokens of the kinds, the entries.
pub open spec fn map_bits(m: Seq<RawEntry>, hunk_bytes: u32, unit_bytes: u32) -> Seq<bool> {
    let kinds = compact_kinds(m, hunk_bytes, unit_bytes);
    let lengths = kind_lengths(kinds);
    huffman_encode::rle_tree_bits(lengths, 0, huffman_encode::rle_width(8)) + huffman_encode::coded(
        lengths,
        kind_tokens(kinds, 0),
    ) + entries_bits(
        m,
        kinds,
        length_bits(m),
        self_bits(m, hunk_bytes, unit_bytes),
        parent_bits(m, hunk_bytes, unit_bytes),
        m.len(),
    )
}

/// A packed map: its length, the first offset, the checksum of the entries, the widths of the
/// fields, and the bits.
pub open spec fn packed_map(m: Seq<RawEntry>, hunk_bytes: u32, unit_bytes: u32) -> Seq<u8> {
    let body = bitstream::packed(map_bits(m, hunk_bytes, unit_bytes));
    bytes::be_bytes(body.len(), 4) + bytes::be_bytes(first_offset(m, 0) as nat, 6) + bytes::be_bytes(
        hash::crc16_of(rawmap_bytes(m)) as nat,
        2,
    ) + seq![
        length_bits(m) as u8,
        self_bits(m, hunk_bytes, unit_bytes) as u8,
        parent_bits(m, hunk_bytes, unit_bytes) as u8,
        0u8,
    ] + body
}

/// What a map must meet to be packed: kinds that exist, references to earlier hunks below 2^32 - 1,
/// and 32 bits enough for a reference to the parent that cannot be foretold.
pub open spec fn can_pack(m: Seq<RawEntry>, hunk_bytes: u32, unit_bytes: u32) -> bool {
    &&& 2 * m.len() <= u32::MAX
    &&& unit_bytes > 0
    &&& forall|i: int| 0 <= i < m.len() ==> (#[trigger] m[i]).kind <= COMPRESSION_PARENT
    &&& forall|i: int|
        0 <= i < m.len() && (#[trigger] m[i]).kind == COMPRESSION_SELF ==> m[i].offset < u32::MAX
    &&& forall|i: int| 0 <= i < m.len() ==> (#[trigger] m[i]).offset < 0x1_0000_0000_0000
    &&& parent_bits(m, hunk_bytes, unit_bytes) <= 32
}

proof fn lemma_repeat_tokens(kind: u8, count: nat)
    requires
        kind < 16,
    ensures
        repeat_tokens(kind, count).len() <= count,
        forall|i: int|
            0 <= i < repeat_tokens(kind, count).len() ==> #[trigger] repeat_tokens(kind, count)[i] < 16,
    decreases count,
{
    if count == 0 {
    } else if count < 3 {
        let rest = repeat_tokens(kind, (count - 1) as nat);
        lemma_repeat_tokens(kind, (count - 1) as nat);
        assert forall|i: int| 0 <= i < repeat_tokens(kind, count).len() implies #[trigger] repeat_tokens(
            kind,
            count,
        )[i] < 16 by {
            if i > 0 {
                assert((seq![kind] + rest)[i] == rest[i - 1]);
            }
        }
    } else if count > 18 {
        let now: nat = if count < 274 { count } else { 274 };
        let rest = repeat_tokens(kind, (count - now) as nat);
        lemma_repeat_tokens(kind, (count - now) as nat);
        let head = seq![
            COMPRESSION_RLE_LARGE,
            ((now - 19) / 16) as u8,
            ((now - 19) % 16) as u8,
        ];
        assert forall|i: int| 0 <= i < repeat_tokens(kind, count).len() implies #[trigger] repeat_tokens(
            kind,
            count,
        )[i] < 16 by {
            if i >= 3 {
                assert((head + rest)[i] == rest[i - 3]);
            } else {
                assert((head + rest)[i] == head[i]);
            }
        }
    }
}

proof fn lemma_kind_tokens(kinds: Seq<u8>, i: int)
    requires
        0 <= i <= kinds.len(),
        forall|k: int| 0 <= k < kinds.len() ==> #[trigger] kinds[k] < 16,
    ensures
        kind_tokens(kinds, i).len() <= kinds.len() - i,
        forall|k: int|
            0 <= k < kind_tokens(kinds, i).len() ==> #[trigger] kind_tokens(kinds, i)[k] < 16,
    decreases kinds.len() - i,
{
    if i < kinds.len() {
        let v = kinds[i];
        let end = huffman_encode::run_end(kinds, v, i + 1);
        huffman_encode::lemma_run_end(kinds, v, i + 1);
        let head = if i == 0 && v == 0 {
            repeat_tokens(0, (end - i) as nat)
        } else {
            seq![v] + repeat_tokens(v, (end - i - 1) as nat)
        };
        let rest = kind_tokens(kinds, end);
        lemma_repeat_tokens(v, (end - i) as nat);
        lemma_repeat_tokens(v, (end - i - 1) as nat);
        lemma_kind_tokens(kinds, end);
        assert forall|k: int| 0 <= k < head.len() implies #[trigger] head[k] < 16 by {
            if !(i == 0 && v == 0) && k > 0 {
                assert(head[k] == repeat_tokens(v, (end - i - 1) as nat)[k - 1]);
            }
        }
        assert forall|k: int| 0 <= k < kind_tokens(kinds, i).len() implies #[trigger] kind_tokens(
            kinds,
            i,
        )[k] < 16 by {
            if k < head.len() {
                assert((head + rest)[k] == head[k]);
            } else {
                assert((head + rest)[k] == rest[k - head.len()]);
            }
        }
    }
}

proof fn lemma_max_length(m: Seq<RawEntry>, n: nat)
    requires
        n <= m.len(),
    ensures
        forall|i: int|
            0 <= i < n && (#[trigger] m[i]).kind < COMPRESSION_NONE ==> m[i].length <= max_length(m, n),
    decreases n,
{
    if n > 0 {
        lemma_max_length(m, (n - 1) as nat);
    }
}

proof fn lemma_max_ref(m: Seq<RawEntry>, kinds: Seq<u8>, kind: u8, n: nat)
    requires
        n <= m.len(),
    ensures
        forall|i: int|
            0 <= i < n && kinds[i] == kind ==> (#[trigger] m[i]).offset <= max_ref(m, kinds, kind, n),
    decreases n,
{
    if n > 0 {
        lemma_max_ref(m, kinds, kind, (n - 1) as nat);
    }
}

proof fn lemma_max_self_bound(m: Seq<RawEntry>, hunk_bytes: u32, unit_bytes: u32, n: nat)
    requires
        can_pack(m, hunk_bytes, unit_bytes),
        n <= m.len(),
    ensures
        max_ref(m, compact_kinds(m, hunk_bytes, unit_bytes), COMPRESSION_SELF, n) <= u32::MAX,
    decreases n,
{
    if n > 0 {
        lemma_max_self_bound(m, hunk_bytes, unit_bytes, (n - 1) as nat);
        let e = m[n - 1];
        assert(compact_kinds(m, hunk_bytes, unit_bytes)[n - 1] == compact_kind(
            m,
            n - 1,
            hunk_bytes,
            unit_bytes,
        ));
    }
}

pub proof fn lemma_bit_length_32(v: nat)
    requires
        v <= u32::MAX,
    ensures
        huffman_encode::bit_length(v) <= 32,
{
    huffman_encode::lemma_bit_length(v);
    if v > 0 && huffman_encode::bit_length(v) > 32 {
        lemma2_to64();
        if huffman_encode::bit_length(v) > 33 {
            lemma_pow2_strictly_increases(32, (huffman_encode::bit_length(v) - 1) as nat);
        }
    }
}

/// Appends the tokens for `count` repeats.
fn push_repeats(out: &mut Vec<u8>, kind: u8, count: u64)
    ensures
        final(out)@ == old(out)@ + repeat_tokens(kind, count as nat),
{
    let ghost whole = old(out)@ + repeat_tokens(kind, count as nat);
    let mut left: u64 = count;
    while left != 0
        invariant
            out@ + repeat_tokens(kind, left as nat) == whole,
        decreases left,
    {
        let ghost before = out@;
        let ghost left0 = left as nat;
        if left < 3 {
            out.push(kind);
            left = left - 1;
            assert(out@ + repeat_tokens(kind, left as nat) =~= before + (seq![kind] + repeat_tokens(
                kind,
                left as nat,
            )));
        } else if left <= 18 {
            out.push(COMPRESSION_RLE_SMALL);
            out.push((left - 3) as u8);
            left = 0;
            assert(out@ + repeat_tokens(kind, 0) =~= before + seq![
                COMPRESSION_RLE_SMALL,
                (left0 - 3) as u8,
            ]);
        } else {
            let now: u64 = if left < 274 {
                left
            } else {
                274
            };
            out.push(COMPRESSION_RLE_LARGE);
            out.push(((now - 19) / 16) as u8);
            out.push(((now - 19) % 16) as u8);
            left = left - now;
            assert(out@ + repeat_tokens(kind, left as nat) =~= before + (seq![
                COMPRESSION_RLE_LARGE,
                ((now - 19) / 16) as u8,
                ((now - 19) % 16) as u8,
            ] + repeat_tokens(kind, left as nat)));
        }
    }
    assert(out@ + repeat_tokens(kind, 0) =~= out@);
}

/// Makes the tokens of the kinds.
fn make_kind_tokens(kinds: &Vec<u8>) -> (r: Vec<u8>)
    ensures
        r@ == kind_tokens(kinds@, 0),
{
    let mut out: Vec<u8> = Vec::new();
    let mut i: usize = 0;
    while i < kinds.len()
        invariant
            i <= kinds@.len(),
            out@ + kind_tokens(kinds@, i as int) == kind_tokens(kinds@, 0),
        decreases kinds@.len() - i,
    {
        let ghost before = out@;
        let v = kinds[i];
        let end = huffman_encode::find_run_end(kinds, i);
        if i == 0 && v == 0 {
            push_repeats(&mut out, 0, (end - i) as u64);
        } else {
            out.push(v);
            push_repeats(&mut out, v, (end - i - 1) as u64);
        }
        proof {
            let head = if i == 0 && v == 0 {
                repeat_tokens(0, (end - i) as nat)
            } else {
                seq![v] + repeat_tokens(v, (end - i - 1) as nat)
            };
            assert(out@ =~= before + head);
            assert(out@ + kind_tokens(kinds@, end as int) =~= before + (head + kind_tokens(
                kinds@,
                end as int,
            )));
        }
        i = end;
    }
    assert(out@ + kind_tokens(kinds@, i as int) =~= out@);
    out
}

/// The kinds of the entries in the packed map, the greatest length, and the greatest references
/// to an earlier hunk and to the parent.
fn compact(m: &[RawEntry], hunk_bytes: u32, unit_bytes: u32) -> (r: (Vec<u8>, u32, u64, u64))
    requires
        can_pack(m@, hunk_bytes, unit_bytes),
    ensures
        r.0@ == compact_kinds(m@, hunk_bytes, unit_bytes),
        r.1 == max_length(m@, m@.len()),
        r.2 == max_ref(m@, r.0@, COMPRESSION_SELF, m@.len()),
        r.3 == max_ref(m@, r.0@, COMPRESSION_PARENT, m@.len()),
{
    let ghost all = compact_kinds(m@, hunk_bytes, unit_bytes);
    let mut kinds: Vec<u8> = Vec::new();
    let mut last_self: u64 = 0;
    let mut last_parent: u64 = 0;
    let mut longest: u32 = 0;
    let mut most_self: u64 = 0;
    let mut most_parent: u64 = 0;
    let per_hunk: u64 = (hunk_bytes / unit_bytes) as u64;
    let mut i: usize = 0;
    while i < m.len()
        invariant
            i <= m@.len(),
            can_pack(m@, hunk_bytes, unit_bytes),
            all == compact_kinds(m@, hunk_bytes, unit_bytes),
            per_hunk == hunk_bytes / unit_bytes,
            kinds@ == all.take(i as int),
            last_self == last_ref(m@, COMPRESSION_SELF, i as int),
            last_parent == last_ref(m@, COMPRESSION_PARENT, i as int),
            last_self < u32::MAX,
            last_parent < 0x1_0000_0000_0000,
            longest == max_length(m@, i as nat),
            most_self == max_ref(m@, all, COMPRESSION_SELF, i as nat),
            most_parent == max_ref(m@, all, COMPRESSION_PARENT, i as nat),
        decreases m@.len() - i,
    {
        let e = m[i];
        assert(m@[i as int].kind <= COMPRESSION_PARENT);
        assert(all[i as int] == compact_kind(m@, i as int, hunk_bytes, unit_bytes));
        let mut kind: u8 = e.kind;
        if e.kind == COMPRESSION_SELF {
            if e.offset == last_self {
                kind = COMPRESSION_SELF_0;
            } else if e.offset == last_self + 1 {
                kind = COMPRESSION_SELF_1;
            } else if e.offset > most_self {
                most_self = e.offset;
            }
            last_self = e.offset;
        } else if e.kind == COMPRESSION_PARENT {
            proof {
                assert(i * hunk_bytes <= u64::MAX) by (nonlinear_arith)
                    requires
                        i <= u32::MAX,
                        hunk_bytes <= u32::MAX,
                ;
            }
            if e.offset == (i as u64 * hunk_bytes as u64) / unit_bytes as u64 {
                kind = COMPRESSION_PARENT_SELF;
            } else if e.offset == last_parent {
                kind = COMPRESSION_PARENT_0;
            } else if e.offset == last_parent + per_hunk {
                kind = COMPRESSION_PARENT_1;
            } else if e.offset > most_parent {
                most_parent = e.offset;
            }
            last_parent = e.offset;
        } else if e.length > longest {
            longest = e.length;
        }
        kinds.push(kind);
        assert(kinds@ =~= all.take(i + 1));
        i = i + 1;
    }
    assert(all.take(i as int) =~= all);
    (kinds, longest, most_self, most_parent)
}

/// Packs the map.
pub fn compress_v5_map(m: &[RawEntry], hunk_bytes: u32, unit_bytes: u32) -> (r: Vec<u8>)
    requires
        can_pack(m@, hunk_bytes, unit_bytes),
    ensures
        r@ == packed_map(m@, hunk_bytes, unit_bytes),
{
    let (kinds, longest, most_self, most_parent) = compact(m, hunk_bytes, unit_bytes);
    let lb = huffman_encode::bits_for_value(longest as u64);
    let sb = huffman_encode::bits_for_value(most_self);
    let pb = huffman_encode::bits_for_value(most_parent);
    proof {
        lemma_bit_length_32(longest as nat);
        lemma_max_self_bound(m@, hunk_bytes, unit_bytes, m@.len());
        lemma_bit_length_32(most_self as nat);
    }
    let tokens = make_kind_tokens(&kinds);
    proof {
        assert forall|k: int| 0 <= k < kinds@.len() implies #[trigger] kinds@[k] < 16 by {
            assert(kinds@[k] == compact_kind(m@, k, hunk_bytes, unit_bytes));
            assert(m@[k].kind <= COMPRESSION_PARENT);
        }
        lemma_kind_tokens(kinds@, 0);
        lemma2_to64();
        huffman_encode::histogram_can_be_coded(tokens@, 16, 8);
    }
    let mut encoder = HuffEncoder::new(16, 8);
    encoder.histo_all(tokens.as_slice());
    let coded = encoder.compute_tree_from_histo();
    assert(coded is Ok);
    let mut bitbuf = BitWriter::new();
    encoder.export_tree_rle(&mut bitbuf);
    encoder.encode_all(&mut bitbuf, tokens.as_slice());
    let ghost head = bitbuf@;
    let mut first: u64 = 0;
    let mut i: usize = 0;
    assert(head + entries_bits(m@, kinds@, lb as nat, sb as nat, pb as nat, 0) =~= head);
    while i < m.len()
        invariant
            i <= m@.len(),
            kinds@.len() == m@.len(),
            kinds@ == compact_kinds(m@, hunk_bytes, unit_bytes),
            can_pack(m@, hunk_bytes, unit_bytes),
            lb <= 32,
            sb <= 32,
            pb <= 32,
            bitbuf.wf(),
            bitbuf@ == head + entries_bits(m@, kinds@, lb as nat, sb as nat, pb as nat, i as nat),
            first == 0 ==> first_offset(m@, 0) == first_offset(m@, i as int),
            first != 0 ==> first == first_offset(m@, 0),
        decreases m@.len() - i,
    {
        let ghost before = bitbuf@;
        let e = m[i];
        let kind = kinds[i];
        assert(kind == compact_kind(m@, i as int, hunk_bytes, unit_bytes));
        if kind < COMPRESSION_NONE {
            bitbuf.write(e.length, lb as u32);
            bitbuf.write(e.crc as u32, 16);
            if first == 0 {
                first = e.offset;
            }
        } else if kind == COMPRESSION_NONE {
            bitbuf.write(e.crc as u32, 16);
            if first == 0 {
                first = e.offset;
            }
        } else if kind == COMPRESSION_SELF {
            #[verifier::truncate]
            let low: u32 = e.offset as u32;
            bitbuf.write(low, sb as u32);
        } else if kind == COMPRESSION_PARENT {
            #[verifier::truncate]
            let low: u32 = e.offset as u32;
            bitbuf.write(low, pb as u32);
        }
        assert(bitbuf@ =~= head + entries_bits(
            m@,
            kinds@,
            lb as nat,
            sb as nat,
            pb as nat,
            (i + 1) as nat,
        ));
        i = i + 1;
    }
    assert(bitbuf@ =~= map_bits(m@, hunk_bytes, unit_bytes));
    let body = bitbuf.flush();
    let raw = rawmap_to_bytes(m);
    let mapcrc = hash::crc16(raw.as_slice());
    let mut out: Vec<u8> = Vec::new();
    bytes::push_be(&mut out, body.len() as u64, 4);
    bytes::push_be(&mut out, first, 6);
    bytes::push_be(&mut out, mapcrc as u64, 2);
    out.push(lb);
    out.push(sb);
    out.push(pb);
    out.push(0);
    out.extend_from_slice(body.as_slice());
    assert(out@ =~= packed_map(m@, hunk_bytes, unit_bytes));
    out
}


/// The kinds that the tokens at `pos` add to `acc`, up to `n` kinds in all, and the place behind the
/// tokens. The last kind is still due `rep` times.
#[verifier::opaque]
pub open spec fn kinds_at(
    lengths: Seq<u8>,
    stream: Seq<bool>,
    pos: int,
    n: nat,
    rep: nat,
    last: u8,
    acc: Seq<u8>,
) -> Option<(Seq<u8>, int)>
    decreases n - acc.len(),
{
    if acc.len() >= n {
        Some((acc, pos))
    } else if rep > 0 {
        kinds_at(lengths, stream, pos, n, (rep - 1) as nat, last, acc.push(last))
    } else {
        match huffman::symbol_at(lengths, 8, stream, pos) {
            None => None,
            Some((c, p)) => if c == COMPRESSION_RLE_SMALL {
                match huffman::symbol_at(lengths, 8, stream, p) {
                    None => None,
                    Some((a, q)) => kinds_at(
                        lengths,
                        stream,
                        q,
                        n,
                        (2 + a) as nat,
                        last,
                        acc.push(last),
                    ),
                }
            } else if c == COMPRESSION_RLE_LARGE {
                match huffman::symbol_at(lengths, 8, stream, p) {
                    None => None,
                    Some((a, q)) => match huffman::symbol_at(lengths, 8, stream, q) {
                        None => None,
                        Some((b, r)) => kinds_at(
                            lengths,
                            stream,
                            r,
                            n,
                            (18 + 16 * a + b) as nat,
                            last,
                            acc.push(last),
                        ),
                    },
                }
            } else {
                kinds_at(lengths, stream, p, n, 0, c as u8, acc.push(c as u8))
            },
        }
    }
}

/// How far a map has been read: the place in the stream, the place in the file of the next hunk
/// stored there, and the last references.
pub struct MapState {
    pub pos: u64,
    pub cur: u64,
    pub last_self: u64,
    pub last_parent: u64,
}

/// The widths of the fields of a packed map, and the sizes of the file.
#[derive(Clone, Copy)]
pub struct MapLayout {
    pub length_bits: u8,
    pub self_bits: u8,
    pub parent_bits: u8,
    pub hunk_bytes: u32,
    pub unit_bytes: u32,
}

/// Entry `i`, read from its kind and from the stream; nothing where the stream ends early, where the
/// kind does not exist, or where an offset does not fit 64 bits.
#[verifier::opaque]
pub open spec fn entry_at(
    kind: u8,
    i: int,
    stream: Seq<bool>,
    st: MapState,
    lay: MapLayout,
) -> Option<(RawEntry, MapState)> {
    let per_hunk = (lay.hunk_bytes / lay.unit_bytes) as int;
    if kind < COMPRESSION_NONE {
        match bitstream::field(stream, st.pos as int, lay.length_bits as nat) {
            None => None,
            Some(length) => match bitstream::field(stream, st.pos + lay.length_bits, 16) {
                None => None,
                Some(crc) => if st.cur + length > u64::MAX {
                    None
                } else {
                    Some(
                        (
                            RawEntry { kind, length: length as u32, offset: st.cur, crc: crc as u16 },
                            MapState {
                                pos: (st.pos + lay.length_bits + 16) as u64,
                                cur: (st.cur + length) as u64,
                                ..st
                            },
                        ),
                    )
                },
            },
        }
    } else if kind == COMPRESSION_NONE {
        match bitstream::field(stream, st.pos as int, 16) {
            None => None,
            Some(crc) => if st.cur + lay.hunk_bytes > u64::MAX {
                None
            } else {
                Some(
                    (
                        RawEntry { kind, length: lay.hunk_bytes, offset: st.cur, crc: crc as u16 },
                        MapState {
                            pos: (st.pos + 16) as u64,
                            cur: (st.cur + lay.hunk_bytes) as u64,
                            ..st
                        },
                    ),
                )
            },
        }
    } else if kind == COMPRESSION_SELF {
        match bitstream::field(stream, st.pos as int, lay.self_bits as nat) {
            None => None,
            Some(v) => Some(
                (
                    RawEntry { kind: COMPRESSION_SELF, length: 0, offset: v as u64, crc: 0 },
                    MapState { pos: (st.pos + lay.self_bits) as u64, last_self: v as u64, ..st },
                ),
            ),
        }
    } else if kind == COMPRESSION_PARENT {
        match bitstream::field(stream, st.pos as int, lay.parent_bits as nat) {
            None => None,
            Some(v) => Some(
                (
                    RawEntry { kind: COMPRESSION_PARENT, length: 0, offset: v as u64, crc: 0 },
                    MapState { pos: (st.pos + lay.parent_bits) as u64, last_parent: v as u64, ..st },
                ),
            ),
        }
    } else if kind == COMPRESSION_SELF_0 || kind == COMPRESSION_SELF_1 {
        let v = st.last_self + if kind == COMPRESSION_SELF_1 {
            1int
        } else {
            0
        };
        if v > u64::MAX {
            None
        } else {
            Some(
                (
                    RawEntry { kind: COMPRESSION_SELF, length: 0, offset: v as u64, crc: 0 },
                    MapState { last_self: v as u64, ..st },
                ),
            )
        }
    } else if kind == COMPRESSION_PARENT_SELF || kind == COMPRESSION_PARENT_0 || kind
        == COMPRESSION_PARENT_1 {
        let v = if kind == COMPRESSION_PARENT_SELF {
            home_unit(i, lay.hunk_bytes, lay.unit_bytes)
        } else if kind == COMPRESSION_PARENT_0 {
            st.last_parent as int
        } else {
            st.last_parent + per_hunk
        };
        if v > u64::MAX {
            None
        } else {
            Some(
                (
                    RawEntry { kind: COMPRESSION_PARENT, length: 0, offset: v as u64, crc: 0 },
                    MapState { last_parent: v as u64, ..st },
                ),
            )
        }
    } else {
        None
    }
}

/// The first `n` entries, and the state behind them.
pub open spec fn entries_at(
    kinds: Seq<u8>,
    stream: Seq<bool>,
    st: MapState,
    lay: MapLayout,
    n: nat,
) -> Option<(Seq<RawEntry>, MapState)>
    decreases n,
{
    if n == 0 {
        Some((Seq::empty(), st))
    } else {
        match entries_at(kinds, stream, st, lay, (n - 1) as nat) {
            None => None,
            Some((m, s)) => match entry_at(kinds[n - 1], n - 1, stream, s, lay) {
                None => None,
                Some((e, t)) => Some((m.push(e), t)),
            },
        }
    }
}

/// The layout that the head of a packed map gives.
pub open spec fn layout_of(map: Seq<u8>, hunk_bytes: u32, unit_bytes: u32) -> MapLayout {
    MapLayout {
        length_bits: map[12],
        self_bits: map[13],
        parent_bits: map[14],
        hunk_bytes,
        unit_bytes,
    }
}

/// The `n` entries of a packed map. There are none where the map is cut short, a field is wider than
/// 32 bits, the tokens or entries cannot be read, or the checksum of the entries is another one.
pub open spec fn unpacked_map(map: Seq<u8>, n: nat, hunk_bytes: u32, unit_bytes: u32) -> Option<
    Seq<RawEntry>,
> {
    let lay = layout_of(map, hunk_bytes, unit_bytes);
    if map.len() < 16 || map.len() < 16 + bytes::be_at(map, 0, 4) || lay.length_bits > 32
        || lay.self_bits > 32 || lay.parent_bits > 32 {
        None
    } else {
        let stream = bitstream::byte_bits(map.subrange(16, (16 + bytes::be_at(map, 0, 4)) as int));
        match huffman::parse_rle(stream, 0, huffman_encode::rle_width(8), 16, Seq::empty()) {
            None => None,
            Some((lengths, p)) => if !huffman::decodable(lengths, 8) {
                None
            } else {
                match kinds_at(lengths, stream, p, n, 0, 0, Seq::empty()) {
                    None => None,
                    Some((kinds, q)) => {
                        let st = MapState {
                            pos: q as u64,
                            cur: bytes::be_at(map, 4, 6) as u64,
                            last_self: 0,
                            last_parent: 0,
                        };
                        match entries_at(kinds, stream, st, lay, n) {
                            None => None,
                            Some((m, t)) => if hash::crc16_of(rawmap_bytes(m)) == bytes::be_at(
                                map,
                                10,
                                2,
                            ) {
                                Some(m)
                            } else {
                                None
                            },
                        }
                    },
                }
            },
        }
    }
}

/// Reads the kinds.
fn read_kinds(decoder: &HuffmanDecoder, cur: &mut BitCursor, n: usize) -> (r: Result<Vec<u8>, Error>)
    requires
        decoder.wf(),
        decoder.max_bits == 8,
        decoder.numbits@.len() == 16,
        old(cur).wf(),
    ensures
        final(cur).wf(),
        final(cur).input@ == old(cur).input@,
        match r {
            Ok(v) => v@.len() == n && kinds_at(
                decoder.numbits@,
                old(cur).stream(),
                old(cur).pos as int,
                n as nat,
                0,
                0,
                Seq::empty(),
            ) == Some((v@, final(cur).pos as int)),
            Err(e) => e == Error::DecompressionError && kinds_at(
                decoder.numbits@,
                old(cur).stream(),
                old(cur).pos as int,
                n as nat,
                0,
                0,
                Seq::empty(),
            ) is None,
        },
{
    let ghost stream = cur.stream();
    let mut out: Vec<u8> = Vec::new();
    let mut rep: u64 = 0;
    let mut last: u8 = 0;
    while out.len() < n
        invariant
            decoder.wf(),
            decoder.max_bits == 8,
            decoder.numbits@.len() == 16,
            cur.wf(),
            cur.input@ == old(cur).input@,
            stream == cur.stream(),
            stream == old(cur).stream(),
            out@.len() <= n,
            kinds_at(
                decoder.numbits@,
                stream,
                old(cur).pos as int,
                n as nat,
                0,
                0,
                Seq::empty(),
            ) == kinds_at(
                decoder.numbits@,
                stream,
                cur.pos as int,
                n as nat,
                rep as nat,
                last,
                out@,
            ),
        decreases n - out@.len(),
    {
        proof {
            reveal_with_fuel(kinds_at, 2);
        }
        if rep > 0 {
            out.push(last);
            rep = rep - 1;
        } else {
            let c = match decoder.decode_one(cur) {
                Ok(c) => c,
                Err(e) => {
                    return Err(e);
                },
            };
            if c == COMPRESSION_RLE_SMALL {
                let a = match decoder.decode_one(cur) {
                    Ok(a) => a,
                    Err(e) => {
                        return Err(e);
                    },
                };
                out.push(last);
                rep = 2 + a as u64;
            } else if c == COMPRESSION_RLE_LARGE {
                let a = match decoder.decode_one(cur) {
                    Ok(a) => a,
                    Err(e) => {
                        return Err(e);
                    },
                };
                let b = match decoder.decode_one(cur) {
                    Ok(b) => b,
                    Err(e) => {
                        return Err(e);
                    },
                };
                out.push(last);
                rep = 18 + 16 * a as u64 + b as u64;
            } else {
                out.push(c);
                last = c;
            }
        }
    }
    proof {
        reveal_with_fuel(kinds_at, 2);
    }
    Ok(out)
}

/// Reads entry `i`.
fn read_entry(kind: u8, i: u32, input: &[u8], st: &MapState, lay: &MapLayout) -> (r: Option<
    (RawEntry, MapState),
>)
    requires
        input@.len() < 0x1000_0000_0000_0000,
        st.pos <= 8 * input@.len(),
        lay.unit_bytes > 0,
        lay.length_bits <= 32,
        lay.self_bits <= 32,
        lay.parent_bits <= 32,
    ensures
        r == entry_at(kind, i as int, bitstream::byte_bits(input@), *st, *lay),
        r matches Some((e, t)) ==> t.pos <= 8 * input@.len(),
{
    let ghost stream = bitstream::byte_bits(input@);
    let mut cur = BitCursor { input, pos: st.pos };
    proof {
        reveal(entry_at);
        lemma2_to64();
        bitstream::lemma_field_bound(stream, st.pos as int, lay.length_bits as nat);
        bitstream::lemma_field_bound(stream, st.pos + lay.length_bits, 16);
        bitstream::lemma_field_bound(stream, st.pos as int, 16);
        if lay.length_bits < 32 {
            lemma_pow2_strictly_increases(lay.length_bits as nat, 32);
        }
    }
    if kind < COMPRESSION_NONE {
        let length = match cur.read(lay.length_bits) {
            Some(v) => v,
            None => {
                return None;
            },
        };
        let crc = match cur.read(16) {
            Some(v) => v,
            None => {
                return None;
            },
        };
        match st.cur.checked_add(length) {
            None => None,
            Some(next) => Some(
                (
                    RawEntry { kind, length: length as u32, offset: st.cur, crc: crc as u16 },
                    MapState {
                        pos: cur.pos,
                        cur: next,
                        last_self: st.last_self,
                        last_parent: st.last_parent,
                    },
                ),
            ),
        }
    } else if kind == COMPRESSION_NONE {
        let crc = match cur.read(16) {
            Some(v) => v,
            None => {
                return None;
            },
        };
        match st.cur.checked_add(lay.hunk_bytes as u64) {
            None => None,
            Some(next) => Some(
                (
                    RawEntry { kind, length: lay.hunk_bytes, offset: st.cur, crc: crc as u16 },
                    MapState {
                        pos: cur.pos,
                        cur: next,
                        last_self: st.last_self,
                        last_parent: st.last_parent,
                    },
                ),
            ),
        }
    } else if kind == COMPRESSION_SELF {
        match cur.read(lay.self_bits) {
            None => None,
            Some(v) => Some(
                (
                    RawEntry { kind: COMPRESSION_SELF, length: 0, offset: v, crc: 0 },
                    MapState {
                        pos: cur.pos,
                        cur: st.cur,
                        last_self: v,
                        last_parent: st.last_parent,
                    },
                ),
            ),
        }
    } else if kind == COMPRESSION_PARENT {
        match cur.read(lay.parent_bits) {
            None => None,
            Some(v) => Some(
                (
                    RawEntry { kind: COMPRESSION_PARENT, length: 0, offset: v, crc: 0 },
                    MapState { pos: cur.pos, cur: st.cur, last_self: st.last_self, last_parent: v },
                ),
            ),
        }
    } else if kind == COMPRESSION_SELF_0 || kind == COMPRESSION_SELF_1 {
        let step: u64 = if kind == COMPRESSION_SELF_1 {
            1
        } else {
            0
        };
        match st.last_self.checked_add(step) {
            None => None,
            Some(v) => Some(
                (
                    RawEntry { kind: COMPRESSION_SELF, length: 0, offset: v, crc: 0 },
                    MapState {
                        pos: st.pos,
                        cur: st.cur,
                        last_self: v,
                        last_parent: st.last_parent,
                    },
                ),
            ),
        }
    } else if kind == COMPRESSION_PARENT_SELF || kind == COMPRESSION_PARENT_0 || kind
        == COMPRESSION_PARENT_1 {
        proof {
            assert(i * lay.hunk_bytes <= u64::MAX) by (nonlinear_arith)
                requires
                    i <= u32::MAX,
                    lay.hunk_bytes <= u32::MAX,
            ;
        }
        let place: Option<u64> = if kind == COMPRESSION_PARENT_SELF {
            Some((i as u64 * lay.hunk_bytes as u64) / lay.unit_bytes as u64)
        } else if kind == COMPRESSION_PARENT_0 {
            Some(st.last_parent)
        } else {
            st.last_parent.checked_add((lay.hunk_bytes / lay.unit_bytes) as u64)
        };
        match place {
            None => None,
            Some(v) => Some(
                (
                    RawEntry { kind: COMPRESSION_PARENT, length: 0, offset: v, crc: 0 },
                    MapState { pos: st.pos, cur: st.cur, last_self: st.last_self, last_parent: v },
                ),
            ),
        }
    } else {
        None
    }
}

proof fn lemma_entries_fail(
    kinds: Seq<u8>,
    stream: Seq<bool>,
    st: MapState,
    lay: MapLayout,
    n: nat,
    m: nat,
)
    requires
        n <= m,
        entries_at(kinds, stream, st, lay, n) is None,
    ensures
        entries_at(kinds, stream, st, lay, m) is None,
    decreases m,
{
    if n < m {
        lemma_entries_fail(kinds, stream, st, lay, n, (m - 1) as nat);
    }
}

/// Reads the `n` entries of a packed map.
pub fn decompress_v5_map(map: &[u8], n: u32, hunk_bytes: u32, unit_bytes: u32) -> (r: Result<
    Vec<RawEntry>,
    Error,
>)
    requires
        unit_bytes > 0,
    ensures
        match r {
            Ok(v) => unpacked_map(map@, n as nat, hunk_bytes, unit_bytes) == Some(v@) && v@.len() == n,
            Err(e) => unpacked_map(map@, n as nat, hunk_bytes, unit_bytes) is None && e
                == Error::DecompressionError,
        },
{
    if map.len() < 16 {
        return Err(Error::DecompressionError);
    }
    let size = bytes::get_be(map, 0, 4);
    let lay = MapLayout {
        length_bits: map[12],
        self_bits: map[13],
        parent_bits: map[14],
        hunk_bytes,
        unit_bytes,
    };
    if ((map.len() - 16) as u64) < size || lay.length_bits > 32 || lay.self_bits > 32
        || lay.parent_bits > 32 {
        return Err(Error::DecompressionError);
    }
    proof {
        lemma2_to64();
    }
    let body = &map[16..16 + size as usize];
    let ghost stream = bitstream::byte_bits(body@);
    let mut cur = BitCursor::new(body);
    let decoder = match HuffmanDecoder::from_tree_rle(&mut cur, 16, 8) {
        Ok(d) => d,
        Err(e) => {
            return Err(e);
        },
    };
    let kinds = match read_kinds(&decoder, &mut cur, n as usize) {
        Ok(v) => v,
        Err(e) => {
            return Err(e);
        },
    };
    let first = bytes::get_be(map, 4, 6);
    let mut st = MapState { pos: cur.pos, cur: first, last_self: 0, last_parent: 0 };
    let ghost st0 = st;
    let mut out: Vec<RawEntry> = Vec::new();
    let mut i: u32 = 0;
    while i < n
        invariant
            i <= n,
            kinds@.len() == n,
            body@.len() < 0x1000_0000_0000_0000,
            stream == bitstream::byte_bits(body@),
            st.pos <= 8 * body@.len(),
            lay.unit_bytes > 0,
            lay.length_bits <= 32,
            lay.self_bits <= 32,
            lay.parent_bits <= 32,
            out@.len() == i,
            entries_at(kinds@, stream, st0, lay, i as nat) == Some((out@, st)),
            entries_at(kinds@, stream, st0, lay, n as nat) is None ==> unpacked_map(
                map@,
                n as nat,
                hunk_bytes,
                unit_bytes,
            ) is None,
        decreases n - i,
    {
        match read_entry(kinds[i as usize], i, body, &st, &lay) {
            None => {
                proof {
                    lemma_entries_fail(kinds@, stream, st0, lay, (i + 1) as nat, n as nat);
                }
                return Err(Error::DecompressionError);
            },
            Some((e, t)) => {
                out.push(e);
                st = t;
            },
        }
        i = i + 1;
    }
    let raw = rawmap_to_bytes(out.as_slice());
    if hash::crc16(raw.as_slice()) as u64 != bytes::get_be(map, 10, 2) {
        return Err(Error::DecompressionError);
    }
    Ok(out)
}


/// The place in a stream of token `i`, where the tokens start at `pos`.
spec fn token_pos(lengths: Seq<u8>, tokens: Seq<u8>, pos: int, i: int) -> int {
    pos + huffman_encode::coded(lengths, tokens.take(i)).len()
}

/// What holds of tokens in a stream.
spec fn tokens_in(lengths: Seq<u8>, tokens: Seq<u8>, stream: Seq<bool>, pos: int) -> bool {
    &&& lengths.len() == 16
    &&& huffman::decodable(lengths, 8)
    &&& forall|i: int|
        0 <= i < tokens.len() ==> #[trigger] tokens[i] < 16 && lengths[tokens[i] as int] > 0
    &&& huffman::holds(stream, pos, huffman_encode::coded(lengths, tokens))
}

proof fn lemma_coded_take(lengths: Seq<u8>, tokens: Seq<u8>, stream: Seq<bool>, pos: int, i: int)
    requires
        0 <= i <= tokens.len(),
        huffman::holds(stream, pos, huffman_encode::coded(lengths, tokens)),
    ensures
        huffman::holds(stream, pos, huffman_encode::coded(lengths, tokens.take(i))),
    decreases tokens.len() - i,
{
    if i == tokens.len() {
        assert(tokens.take(i) =~= tokens);
    } else {
        lemma_coded_take(lengths, tokens, stream, pos, i + 1);
        let next = tokens.take(i + 1);
        assert(next.drop_last() =~= tokens.take(i));
        huffman::lemma_holds_concat(
            stream,
            pos,
            huffman_encode::coded(lengths, tokens.take(i)),
            huffman_encode::symbol_bits(lengths, next.last() as int),
        );
    }
}

proof fn lemma_token_decoded(lengths: Seq<u8>, tokens: Seq<u8>, stream: Seq<bool>, pos: int, i: int)
    requires
        tokens_in(lengths, tokens, stream, pos),
        0 <= i < tokens.len(),
    ensures
        huffman::symbol_at(lengths, 8, stream, token_pos(lengths, tokens, pos, i)) == Some(
            (tokens[i] as int, token_pos(lengths, tokens, pos, i + 1)),
        ),
{
    lemma_coded_take(lengths, tokens, stream, pos, i + 1);
    let next = tokens.take(i + 1);
    assert(next.drop_last() =~= tokens.take(i));
    assert(next.last() == tokens[i]);
    huffman::lemma_holds_concat(
        stream,
        pos,
        huffman_encode::coded(lengths, tokens.take(i)),
        huffman_encode::symbol_bits(lengths, tokens[i] as int),
    );
    assert(tokens[i] < 16 && lengths[tokens[i] as int] > 0);
    huffman::symbol_is_decoded(
        lengths,
        8,
        stream,
        token_pos(lengths, tokens, pos, i),
        tokens[i] as int,
    );
}

proof fn lemma_due(
    lengths: Seq<u8>,
    stream: Seq<bool>,
    pos: int,
    n: nat,
    rep: nat,
    last: u8,
    acc: Seq<u8>,
)
    requires
        acc.len() + rep <= n,
    ensures
        kinds_at(lengths, stream, pos, n, rep, last, acc) == kinds_at(
            lengths,
            stream,
            pos,
            n,
            0,
            last,
            acc + huffman::repeated(last, rep as int),
        ),
    decreases rep,
{
    reveal_with_fuel(kinds_at, 2);
    if rep == 0 {
        assert(acc + huffman::repeated(last, 0) =~= acc);
    } else {
        lemma_due(lengths, stream, pos, n, (rep - 1) as nat, last, acc.push(last));
        assert(acc.push(last) + huffman::repeated(last, rep - 1) =~= acc + huffman::repeated(
            last,
            rep as int,
        ));
    }
}

/// A token for a kind is read.
proof fn lemma_plain_token(
    lengths: Seq<u8>,
    tokens: Seq<u8>,
    stream: Seq<bool>,
    pos: int,
    n: nat,
    last: u8,
    t: int,
    acc: Seq<u8>,
)
    requires
        tokens_in(lengths, tokens, stream, pos),
        0 <= t < tokens.len(),
        tokens[t] != COMPRESSION_RLE_SMALL,
        tokens[t] != COMPRESSION_RLE_LARGE,
        acc.len() < n,
    ensures
        kinds_at(lengths, stream, token_pos(lengths, tokens, pos, t), n, 0, last, acc) == kinds_at(
            lengths,
            stream,
            token_pos(lengths, tokens, pos, t + 1),
            n,
            0,
            tokens[t],
            acc.push(tokens[t]),
        ),
{
    reveal_with_fuel(kinds_at, 2);
    lemma_token_decoded(lengths, tokens, stream, pos, t);
}

/// Tokens for a few repeats are read.
proof fn lemma_small_tokens(
    lengths: Seq<u8>,
    tokens: Seq<u8>,
    stream: Seq<bool>,
    pos: int,
    n: nat,
    last: u8,
    t: int,
    acc: Seq<u8>,
)
    requires
        tokens_in(lengths, tokens, stream, pos),
        0 <= t,
        t + 1 < tokens.len(),
        tokens[t] == COMPRESSION_RLE_SMALL,
        acc.len() + 3 + tokens[t + 1] <= n,
    ensures
        kinds_at(lengths, stream, token_pos(lengths, tokens, pos, t), n, 0, last, acc) == kinds_at(
            lengths,
            stream,
            token_pos(lengths, tokens, pos, t + 2),
            n,
            0,
            last,
            acc + huffman::repeated(last, 3 + tokens[t + 1]),
        ),
{
    let count = 3 + tokens[t + 1] as int;
    lemma_token_decoded(lengths, tokens, stream, pos, t);
    lemma_token_decoded(lengths, tokens, stream, pos, t + 1);
    lemma_due(
        lengths,
        stream,
        token_pos(lengths, tokens, pos, t + 2),
        n,
        (count - 1) as nat,
        last,
        acc.push(last),
    );
    assert(acc.push(last) + huffman::repeated(last, count - 1) =~= acc + huffman::repeated(
        last,
        count,
    ));
    reveal_with_fuel(kinds_at, 2);
}

/// Tokens for many repeats are read.
#[verifier::spinoff_prover]
#[verifier::rlimit(60)]
proof fn lemma_large_tokens(
    lengths: Seq<u8>,
    tokens: Seq<u8>,
    stream: Seq<bool>,
    pos: int,
    n: nat,
    last: u8,
    t: int,
    acc: Seq<u8>,
)
    requires
        tokens_in(lengths, tokens, stream, pos),
        0 <= t,
        t + 2 < tokens.len(),
        tokens[t] == COMPRESSION_RLE_LARGE,
        acc.len() + 19 + 16 * tokens[t + 1] + tokens[t + 2] <= n,
    ensures
        kinds_at(lengths, stream, token_pos(lengths, tokens, pos, t), n, 0, last, acc) == kinds_at(
            lengths,
            stream,
            token_pos(lengths, tokens, pos, t + 3),
            n,
            0,
            last,
            acc + huffman::repeated(last, 19 + 16 * tokens[t + 1] + tokens[t + 2]),
        ),
{
    let count = 19 + 16 * tokens[t + 1] + tokens[t + 2];
    lemma_token_decoded(lengths, tokens, stream, pos, t);
    lemma_token_decoded(lengths, tokens, stream, pos, t + 1);
    lemma_token_decoded(lengths, tokens, stream, pos, t + 2);
    lemma_due(
        lengths,
        stream,
        token_pos(lengths, tokens, pos, t + 3),
        n,
        (count - 1) as nat,
        last,
        acc.push(last),
    );
    assert(acc.push(last) + huffman::repeated(last, count - 1) =~= acc + huffman::repeated(
        last,
        count,
    ));
    reveal_with_fuel(kinds_at, 2);
}

/// The tokens for `count` repeats are read.
#[verifier::spinoff_prover]
#[verifier::rlimit(60)]
proof fn lemma_repeats_read(
    lengths: Seq<u8>,
    tokens: Seq<u8>,
    stream: Seq<bool>,
    pos: int,
    n: nat,
    kind: u8,
    count: nat,
    t: int,
    acc: Seq<u8>,
)
    requires
        tokens_in(lengths, tokens, stream, pos),
        kind != COMPRESSION_RLE_SMALL,
        kind != COMPRESSION_RLE_LARGE,
        0 <= t,
        t + repeat_tokens(kind, count).len() <= tokens.len(),
        forall|k: int|
            0 <= k < repeat_tokens(kind, count).len() ==> tokens[t + k] == #[trigger] repeat_tokens(
                kind,
                count,
            )[k],
        acc.len() + count <= n,
    ensures
        kinds_at(lengths, stream, token_pos(lengths, tokens, pos, t), n, 0, kind, acc) == kinds_at(
            lengths,
            stream,
            token_pos(lengths, tokens, pos, t + repeat_tokens(kind, count).len()),
            n,
            0,
            kind,
            acc + huffman::repeated(kind, count as int),
        ),
    decreases count,
{
    let all = repeat_tokens(kind, count);
    if count == 0 {
        assert(acc + huffman::repeated(kind, 0) =~= acc);
    } else if count < 3 {
        let rest = repeat_tokens(kind, (count - 1) as nat);
        assert(all == seq![kind] + rest);
        assert(tokens[t + 0] == all[0]);
        lemma_plain_token(lengths, tokens, stream, pos, n, kind, t, acc);
        assert forall|k: int| 0 <= k < rest.len() implies tokens[t + 1 + k] == #[trigger] rest[k] by {
            assert(all[k + 1] == rest[k]);
            assert(tokens[t + (k + 1)] == all[k + 1]);
        }
        lemma_repeats_read(
            lengths,
            tokens,
            stream,
            pos,
            n,
            kind,
            (count - 1) as nat,
            t + 1,
            acc.push(kind),
        );
        assert(acc.push(kind) + huffman::repeated(kind, count - 1) =~= acc + huffman::repeated(
            kind,
            count as int,
        ));
    } else if count <= 18 {
        assert(tokens[t + 0] == all[0] && tokens[t + 1] == all[1]);
        lemma_small_tokens(lengths, tokens, stream, pos, n, kind, t, acc);
    } else {
        let now: nat = if count < 274 { count } else { 274 };
        let rest = repeat_tokens(kind, (count - now) as nat);
        let head = seq![
            COMPRESSION_RLE_LARGE,
            ((now - 19) / 16) as u8,
            ((now - 19) % 16) as u8,
        ];
        assert(all == head + rest);
        assert(tokens[t + 0] == all[0] && tokens[t + 1] == all[1] && tokens[t + 2] == all[2]);
        lemma_large_tokens(lengths, tokens, stream, pos, n, kind, t, acc);
        let next = acc + huffman::repeated(kind, now as int);
        assert forall|k: int| 0 <= k < rest.len() implies tokens[t + 3 + k] == #[trigger] rest[k] by {
            assert(all[k + 3] == rest[k]);
            assert(tokens[t + (k + 3)] == all[k + 3]);
        }
        lemma_repeats_read(
            lengths,
            tokens,
            stream,
            pos,
            n,
            kind,
            (count - now) as nat,
            t + 3,
            next,
        );
        assert(next + huffman::repeated(kind, count - now) =~= acc + huffman::repeated(
            kind,
            count as int,
        ));
    }
}

/// The tokens of the kinds from `i` on are read.
proof fn lemma_kinds_read(
    lengths: Seq<u8>,
    tokens: Seq<u8>,
    stream: Seq<bool>,
    pos: int,
    kinds: Seq<u8>,
    i: int,
    t: int,
    last: u8,
)
    requires
        tokens_in(lengths, tokens, stream, pos),
        forall|k: int|
            0 <= k < kinds.len() ==> #[trigger] kinds[k] < 16 && kinds[k] != COMPRESSION_RLE_SMALL
                && kinds[k] != COMPRESSION_RLE_LARGE,
        0 <= i <= kinds.len(),
        i == 0 ==> last == 0,
        0 <= t,
        t + kind_tokens(kinds, i).len() == tokens.len(),
        forall|k: int|
            0 <= k < kind_tokens(kinds, i).len() ==> tokens[t + k] == #[trigger] kind_tokens(kinds, i)[k],
    ensures
        kinds_at(
            lengths,
            stream,
            token_pos(lengths, tokens, pos, t),
            kinds.len(),
            0,
            last,
            kinds.take(i),
        ) == Some((kinds, token_pos(lengths, tokens, pos, tokens.len() as int))),
    decreases kinds.len() - i,
{
    let whole = kind_tokens(kinds, i);
    if i == kinds.len() {
        assert(kinds.take(i) =~= kinds);
        reveal_with_fuel(kinds_at, 2);
    } else {
        let v = kinds[i];
        let end = huffman_encode::run_end(kinds, v, i + 1);
        huffman_encode::lemma_run_end(kinds, v, i + 1);
        let rest = kind_tokens(kinds, end);
        let first = i == 0 && v == 0;
        let count = if first { (end - i) as nat } else { (end - i - 1) as nat };
        let reps = repeat_tokens(v, count);
        let lead = if first { Seq::<u8>::empty() } else { seq![v] };
        assert(whole =~= lead + reps + rest);
        let t1 = t + lead.len();
        let t2 = t1 + reps.len();
        let acc = kinds.take(i) + lead;
        if !first {
            assert(tokens[t + 0] == whole[0]);
            lemma_plain_token(lengths, tokens, stream, pos, kinds.len(), last, t, kinds.take(i));
            assert(kinds.take(i).push(v) =~= acc);
        } else {
            assert(acc =~= kinds.take(i));
        }
        assert forall|k: int| 0 <= k < reps.len() implies tokens[t1 + k] == #[trigger] reps[k] by {
            assert(whole[lead.len() + k] == reps[k]);
            assert(tokens[t + (lead.len() + k)] == whole[lead.len() + k]);
        }
        assert forall|k: int| 0 <= k < rest.len() implies tokens[t2 + k] == #[trigger] rest[k] by {
            let j = lead.len() + reps.len() + k;
            assert(whole[j] == rest[k]);
            assert(tokens[t + j] == whole[j]);
        }
        lemma_repeats_read(lengths, tokens, stream, pos, kinds.len(), v, count, t1, acc);
        assert(acc + huffman::repeated(v, count as int) =~= kinds.take(end)) by {
            assert forall|k: int| i + 1 <= k < end implies kinds[k] == v by {}
        }
        lemma_kinds_read(lengths, tokens, stream, pos, kinds, end, t2, v);
    }
}

/// Where the first `n` hunks stored in the file end, if they are stored one behind the other from
/// `start` on.
pub open spec fn stored_end(m: Seq<RawEntry>, start: nat, n: nat) -> nat
    decreases n,
{
    if n == 0 {
        start
    } else {
        stored_end(m, start, (n - 1) as nat) + if m[n - 1].kind <= COMPRESSION_NONE {
            m[n - 1].length as nat
        } else {
            0nat
        }
    }
}

/// Whether the hunks of a map are stored one behind the other from `start` on, those that are
/// stored as they are in full length, and references carry neither length nor checksum.
pub open spec fn laid_out(m: Seq<RawEntry>, start: nat, hunk_bytes: u32) -> bool {
    &&& 0 < start
    &&& stored_end(m, start, m.len()) < 0x1_0000_0000_0000
    &&& forall|i: int|
        0 <= i < m.len() && (#[trigger] m[i]).kind <= COMPRESSION_NONE ==> m[i].offset == stored_end(
            m,
            start,
            i as nat,
        )
    &&& forall|i: int|
        0 <= i < m.len() && (#[trigger] m[i]).kind == COMPRESSION_NONE ==> m[i].length == hunk_bytes
    &&& forall|i: int|
        0 <= i < m.len() && (#[trigger] m[i]).kind > COMPRESSION_NONE ==> m[i].length == 0 && m[i].crc
            == 0
}

proof fn lemma_stored_end_mono(m: Seq<RawEntry>, start: nat, n: nat, k: nat)
    requires
        n <= k <= m.len(),
    ensures
        start <= stored_end(m, start, n) <= stored_end(m, start, k),
    decreases k,
{
    if n < k {
        lemma_stored_end_mono(m, start, n, (k - 1) as nat);
    } else if n > 0 {
        lemma_stored_end_mono(m, start, (n - 1) as nat, (n - 1) as nat);
    }
}

/// The first hunk stored is at the start.
proof fn lemma_first_offset(m: Seq<RawEntry>, start: nat, i: nat)
    requires
        i <= m.len(),
        0 < start,
        forall|k: int|
            0 <= k < m.len() && (#[trigger] m[k]).kind <= COMPRESSION_NONE ==> m[k].offset == stored_end(
                m,
                start,
                k as nat,
            ),
        stored_end(m, start, i) == start,
    ensures
        first_offset(m, i as int) == 0 ==> stored_end(m, start, m.len()) == start && forall|k: int|
            i <= k < m.len() ==> (#[trigger] m[k]).kind > COMPRESSION_NONE,
        first_offset(m, i as int) != 0 ==> first_offset(m, i as int) == start,
    decreases m.len() - i,
{
    if i < m.len() {
        if m[i as int].kind > COMPRESSION_NONE {
            lemma_first_offset(m, start, i + 1);
        }
    }
}

/// The state of a reader behind the first `n` entries.
spec fn read_state(
    m: Seq<RawEntry>,
    kinds: Seq<u8>,
    lay: MapLayout,
    pos: int,
    cur: nat,
    n: nat,
) -> MapState {
    MapState {
        pos: (pos + entries_bits(
            m,
            kinds,
            lay.length_bits as nat,
            lay.self_bits as nat,
            lay.parent_bits as nat,
            n,
        ).len()) as u64,
        cur: stored_end(m, cur, n) as u64,
        last_self: last_ref(m, COMPRESSION_SELF, n as int),
        last_parent: last_ref(m, COMPRESSION_PARENT, n as int),
    }
}

/// One entry is read back.
proof fn lemma_entry_read(
    m: Seq<RawEntry>,
    kinds: Seq<u8>,
    stream: Seq<bool>,
    pos: int,
    cur: nat,
    lay: MapLayout,
    n: nat,
)
    requires
        n < m.len(),
        can_pack(m, lay.hunk_bytes, lay.unit_bytes),
        kinds == compact_kinds(m, lay.hunk_bytes, lay.unit_bytes),
        lay.length_bits == length_bits(m),
        lay.self_bits == self_bits(m, lay.hunk_bytes, lay.unit_bytes),
        lay.parent_bits == parent_bits(m, lay.hunk_bytes, lay.unit_bytes),
        stream.len() < 0x8000_0000_0000_0000,
        stored_end(m, cur, (n + 1) as nat) < 0x1_0000_0000_0000,
        m[n as int].kind <= COMPRESSION_NONE ==> m[n as int].offset == stored_end(m, cur, n),
        m[n as int].kind == COMPRESSION_NONE ==> m[n as int].length == lay.hunk_bytes,
        m[n as int].kind > COMPRESSION_NONE ==> m[n as int].length == 0 && m[n as int].crc == 0,
        huffman::holds(
            stream,
            pos,
            entries_bits(
                m,
                kinds,
                lay.length_bits as nat,
                lay.self_bits as nat,
                lay.parent_bits as nat,
                (n + 1) as nat,
            ),
        ),
    ensures
        entry_at(kinds[n as int], n as int, stream, read_state(m, kinds, lay, pos, cur, n), lay) == Some(
            (m[n as int], read_state(m, kinds, lay, pos, cur, (n + 1) as nat)),
        ),
{
    reveal(entry_at);
    let e = m[n as int];
    let kind = kinds[n as int];
    let lb = lay.length_bits as nat;
    let sb = lay.self_bits as nat;
    let pb = lay.parent_bits as nat;
    let before = entries_bits(m, kinds, lb, sb, pb, n);
    let own = entry_bits(e, kind, lb, sb, pb);
    huffman::lemma_holds_concat(stream, pos, before, own);
    let p = pos + before.len();
    assert(kind == compact_kind(m, n as int, lay.hunk_bytes, lay.unit_bytes));
    assert(m[n as int].kind <= COMPRESSION_PARENT);
    lemma2_to64();
    if kind <= COMPRESSION_NONE {
        assert(e.crc < pow2(16));
        bitstream::lemma_value_bits_fit(e.crc as u32, 16);
        if kind < COMPRESSION_NONE {
            lemma_max_length(m, m.len());
            lemma_bit_length_32(max_length(m, m.len()) as nat);
            huffman_encode::lemma_bit_length(max_length(m, m.len()) as nat);
            bitstream::lemma_value_bits_fit(e.length, lb);
            huffman::lemma_holds_concat(
                stream,
                p,
                bitstream::value_bits(e.length, lb),
                bitstream::value_bits(e.crc as u32, 16),
            );
        }
    } else if kind == COMPRESSION_SELF {
        lemma_max_ref(m, kinds, COMPRESSION_SELF, m.len());
        lemma_max_self_bound(m, lay.hunk_bytes, lay.unit_bytes, m.len());
        let most = max_ref(m, kinds, COMPRESSION_SELF, m.len()) as nat;
        lemma_bit_length_32(most);
        huffman_encode::lemma_bit_length(most);
        bitstream::lemma_value_bits_fit(e.offset as u32, sb);
    } else if kind == COMPRESSION_PARENT {
        lemma_max_ref(m, kinds, COMPRESSION_PARENT, m.len());
        let most = max_ref(m, kinds, COMPRESSION_PARENT, m.len()) as nat;
        huffman_encode::lemma_bit_length(most);
        if pb < 32 {
            lemma_pow2_strictly_increases(pb, 32);
        }
        bitstream::lemma_value_bits_fit(e.offset as u32, pb);
    }
}

/// The entries are read back.
proof fn lemma_entries_read(
    m: Seq<RawEntry>,
    kinds: Seq<u8>,
    stream: Seq<bool>,
    pos: int,
    cur: nat,
    lay: MapLayout,
    n: nat,
)
    requires
        n <= m.len(),
        can_pack(m, lay.hunk_bytes, lay.unit_bytes),
        kinds == compact_kinds(m, lay.hunk_bytes, lay.unit_bytes),
        lay.length_bits == length_bits(m),
        lay.self_bits == self_bits(m, lay.hunk_bytes, lay.unit_bytes),
        lay.parent_bits == parent_bits(m, lay.hunk_bytes, lay.unit_bytes),
        stream.len() < 0x8000_0000_0000_0000,
        stored_end(m, cur, m.len()) < 0x1_0000_0000_0000,
        forall|i: int|
            0 <= i < m.len() && (#[trigger] m[i]).kind <= COMPRESSION_NONE ==> m[i].offset == stored_end(
                m,
                cur,
                i as nat,
            ),
        forall|i: int|
            0 <= i < m.len() && (#[trigger] m[i]).kind == COMPRESSION_NONE ==> m[i].length
                == lay.hunk_bytes,
        forall|i: int|
            0 <= i < m.len() && (#[trigger] m[i]).kind > COMPRESSION_NONE ==> m[i].length == 0
                && m[i].crc == 0,
        huffman::holds(
            stream,
            pos,
            entries_bits(
                m,
                kinds,
                lay.length_bits as nat,
                lay.self_bits as nat,
                lay.parent_bits as nat,
                n,
            ),
        ),
    ensures
        entries_at(kinds, stream, read_state(m, kinds, lay, pos, cur, 0), lay, n) == Some(
            (m.take(n as int), read_state(m, kinds, lay, pos, cur, n)),
        ),
    decreases n,
{
    if n == 0 {
        assert(m.take(0) =~= Seq::empty());
    } else {
        let k = (n - 1) as nat;
        let lb = lay.length_bits as nat;
        let sb = lay.self_bits as nat;
        let pb = lay.parent_bits as nat;
        huffman::lemma_holds_concat(
            stream,
            pos,
            entries_bits(m, kinds, lb, sb, pb, k),
            entry_bits(m[k as int], kinds[k as int], lb, sb, pb),
        );
        lemma_entries_read(m, kinds, stream, pos, cur, lay, k);
        lemma_stored_end_mono(m, cur, n, m.len());
        lemma_entry_read(m, kinds, stream, pos, cur, lay, k);
        assert(m.take(k as int).push(m[k as int]) =~= m.take(n as int));
    }
}

proof fn lemma_first_offset_bound(m: Seq<RawEntry>, i: int)
    requires
        0 <= i,
        forall|k: int| 0 <= k < m.len() ==> (#[trigger] m[k]).offset < 0x1_0000_0000_0000,
    ensures
        first_offset(m, i) < 0x1_0000_0000_0000,
    decreases m.len() - i,
{
    if i < m.len() {
        lemma_first_offset_bound(m, i + 1);
    }
}

/// The head of a packed map says how long the body is, where the first stored hunk is, what the
/// checksum of the entries is and how wide the fields are; it ends with a zero.
pub proof fn head_of_a_packed_map(m: Seq<RawEntry>, hunk_bytes: u32, unit_bytes: u32)
    requires
        can_pack(m, hunk_bytes, unit_bytes),
        map_bits(m, hunk_bytes, unit_bytes).len() <= 8 * u32::MAX,
    ensures
        ({
            let map = packed_map(m, hunk_bytes, unit_bytes);
            let body = bitstream::packed(map_bits(m, hunk_bytes, unit_bytes));
            &&& map.len() == 16 + body.len()
            &&& bytes::be_at(map, 0, 4) == body.len()
            &&& bytes::be_at(map, 4, 6) == first_offset(m, 0)
            &&& bytes::be_at(map, 10, 2) == hash::crc16_of(rawmap_bytes(m))
            &&& map.subrange(16, 16 + body.len() as int) == body
            &&& map[12] == length_bits(m) <= 32
            &&& map[13] == self_bits(m, hunk_bytes, unit_bytes) <= 32
            &&& map[14] == parent_bits(m, hunk_bytes, unit_bytes) <= 32
            &&& map[15] == 0
        }),
{
    lemma_first_offset_bound(m, 0);
    let kinds = compact_kinds(m, hunk_bytes, unit_bytes);
    let body = bitstream::packed(map_bits(m, hunk_bytes, unit_bytes));
    let map = packed_map(m, hunk_bytes, unit_bytes);
    lemma_bit_length_32(max_length(m, m.len()) as nat);
    lemma_max_self_bound(m, hunk_bytes, unit_bytes, m.len());
    lemma_bit_length_32(max_ref(m, kinds, COMPRESSION_SELF, m.len()) as nat);
    lemma2_to64();
    lemma2_to64_rest();
    let first = first_offset(m, 0) as nat;
    let crc = hash::crc16_of(rawmap_bytes(m)) as nat;
    let a = bytes::be_bytes(body.len(), 4);
    let b = bytes::be_bytes(first, 6);
    let c = bytes::be_bytes(crc, 2);
    bytes::lemma_be_len(body.len(), 4);
    bytes::lemma_be_len(first, 6);
    bytes::lemma_be_len(crc, 2);
    assert(map.subrange(0, 4) =~= a);
    assert(map.subrange(4, 10) =~= b);
    assert(map.subrange(10, 12) =~= c);
    assert(map.subrange(16, 16 + body.len() as int) =~= body);
    bytes::lemma_be_at(map, 0, body.len(), 4);
    bytes::lemma_be_at(map, 4, first, 6);
    bytes::lemma_be_at(map, 10, crc, 2);
}

/// The kinds are read from the body of a packed map.
proof fn lemma_map_kinds(m: Seq<RawEntry>, hunk_bytes: u32, unit_bytes: u32, stream: Seq<bool>)
    requires
        can_pack(m, hunk_bytes, unit_bytes),
        huffman::holds(stream, 0, map_bits(m, hunk_bytes, unit_bytes)),
    ensures
        ({
            let kinds = compact_kinds(m, hunk_bytes, unit_bytes);
            let lengths = kind_lengths(kinds);
            let a = huffman_encode::rle_tree_bits(lengths, 0, 4);
            let b = huffman_encode::coded(lengths, kind_tokens(kinds, 0));
            &&& huffman::parse_rle(stream, 0, 4, 16, Seq::empty()) == Some((lengths, a.len() as int))
            &&& huffman::decodable(lengths, 8)
            &&& kinds_at(lengths, stream, a.len() as int, m.len(), 0, 0, Seq::empty()) == Some(
                (kinds, (a + b).len() as int),
            )
            &&& huffman::holds(
                stream,
                (a + b).len() as int,
                entries_bits(
                    m,
                    kinds,
                    length_bits(m),
                    self_bits(m, hunk_bytes, unit_bytes),
                    parent_bits(m, hunk_bytes, unit_bytes),
                    m.len(),
                ),
            )
        }),
{
    let kinds = compact_kinds(m, hunk_bytes, unit_bytes);
    let tokens = kind_tokens(kinds, 0);
    let lengths = kind_lengths(kinds);
    let histo = huffman_encode::histogram(tokens, 16);
    let a = huffman_encode::rle_tree_bits(lengths, 0, 4);
    let b = huffman_encode::coded(lengths, tokens);
    let c = entries_bits(
        m,
        kinds,
        length_bits(m),
        self_bits(m, hunk_bytes, unit_bytes),
        parent_bits(m, hunk_bytes, unit_bytes),
        m.len(),
    );
    assert(map_bits(m, hunk_bytes, unit_bytes) == a + b + c);
    huffman::lemma_holds_concat(stream, 0, a + b, c);
    huffman::lemma_holds_concat(stream, 0, a, b);
    assert forall|k: int| 0 <= k < kinds.len() implies #[trigger] kinds[k] < 16 && kinds[k]
        != COMPRESSION_RLE_SMALL && kinds[k] != COMPRESSION_RLE_LARGE by {
        assert(kinds[k] == compact_kind(m, k, hunk_bytes, unit_bytes));
        assert(m[k].kind <= COMPRESSION_PARENT);
    }
    lemma_kind_tokens(kinds, 0);
    lemma2_to64();
    huffman_encode::histogram_can_be_coded(tokens, 16, 8);
    huffman_encode::code_lengths_make_a_code(histo, 8);
    huffman_encode::code_lengths_of_used(histo, 8);
    huffman_tree::lemma_codes_fit(lengths);
    assert(lengths.take(0) =~= Seq::empty());
    huffman::rle_tree_is_read_back(lengths, stream, 0, 4, 0);
    assert(tokens_in(lengths, tokens, stream, a.len() as int)) by {
        assert forall|i: int| 0 <= i < tokens.len() implies #[trigger] tokens[i] < 16
            && lengths[tokens[i] as int] > 0 by {
            huffman_encode::lemma_occurs(tokens, i);
            huffman_encode::lemma_occurrences_bound(tokens, tokens[i]);
        }
    }
    assert(tokens.take(0) =~= Seq::empty());
    assert(kinds.take(0) =~= Seq::empty());
    assert(tokens.take(tokens.len() as int) =~= tokens);
    lemma_kinds_read(lengths, tokens, stream, a.len() as int, kinds, 0, 0, 0);
}

proof fn lemma_entries_len(
    m: Seq<RawEntry>,
    kinds: Seq<u8>,
    length_bits: nat,
    self_bits: nat,
    parent_bits: nat,
    n: nat,
)
    requires
        length_bits <= 32,
        self_bits <= 32,
        parent_bits <= 32,
    ensures
        entries_bits(m, kinds, length_bits, self_bits, parent_bits, n).len() <= 48 * n,
    decreases n,
{
    if n > 0 {
        lemma_entries_len(m, kinds, length_bits, self_bits, parent_bits, (n - 1) as nat);
    }
}

/// The body of the packed map of up to 2^29 hunks is not longer than the head can say.
pub proof fn packed_map_fits(m: Seq<RawEntry>, hunk_bytes: u32, unit_bytes: u32)
    requires
        can_pack(m, hunk_bytes, unit_bytes),
        m.len() <= 0x2000_0000,
    ensures
        map_bits(m, hunk_bytes, unit_bytes).len() <= 8 * u32::MAX,
{
    let kinds = compact_kinds(m, hunk_bytes, unit_bytes);
    let tokens = kind_tokens(kinds, 0);
    let lengths = kind_lengths(kinds);
    assert forall|k: int| 0 <= k < kinds.len() implies #[trigger] kinds[k] < 16 by {
        assert(kinds[k] == compact_kind(m, k, hunk_bytes, unit_bytes));
        assert(m[k].kind <= COMPRESSION_PARENT);
    }
    lemma_kind_tokens(kinds, 0);
    lemma2_to64();
    huffman_encode::histogram_can_be_coded(tokens, 16, 8);
    huffman_encode::code_lengths_make_a_code(huffman_encode::histogram(tokens, 16), 8);
    assert(lengths.len() == 16);
    huffman_encode::lemma_rle_tree_len(lengths, 0, huffman_encode::rle_width(8));
    huffman_encode::lemma_coded_len(lengths, tokens);
    lemma_bit_length_32(max_length(m, m.len()) as nat);
    lemma_max_self_bound(m, hunk_bytes, unit_bytes, m.len());
    lemma_bit_length_32(max_ref(m, kinds, COMPRESSION_SELF, m.len()) as nat);
    lemma_entries_len(
        m,
        kinds,
        length_bits(m),
        self_bits(m, hunk_bytes, unit_bytes),
        parent_bits(m, hunk_bytes, unit_bytes),
        m.len(),
    );
}

/// A packed map is unpacked to the map, provided that its body is not longer than the head can say.
pub proof fn packed_map_is_unpacked(m: Seq<RawEntry>, start: nat, hunk_bytes: u32, unit_bytes: u32)
    requires
        can_pack(m, hunk_bytes, unit_bytes),
        laid_out(m, start, hunk_bytes),
        map_bits(m, hunk_bytes, unit_bytes).len() <= 8 * u32::MAX,
    ensures
        unpacked_map(packed_map(m, hunk_bytes, unit_bytes), m.len(), hunk_bytes, unit_bytes) == Some(m),
{
    let kinds = compact_kinds(m, hunk_bytes, unit_bytes);
    let lengths = kind_lengths(kinds);
    let bits = map_bits(m, hunk_bytes, unit_bytes);
    let body = bitstream::packed(bits);
    let map = packed_map(m, hunk_bytes, unit_bytes);
    let first = first_offset(m, 0) as nat;
    lemma_first_offset(m, start, 0);
    lemma_stored_end_mono(m, start, 0, m.len());
    head_of_a_packed_map(m, hunk_bytes, unit_bytes);
    let stream = bitstream::byte_bits(body);
    bitstream::packed_holds_stream(bits);
    assert(huffman::holds(stream, 0, bits)) by {
        assert(stream.subrange(0, bits.len() as int) =~= bits);
    }
    lemma_map_kinds(m, hunk_bytes, unit_bytes, stream);
    let a = huffman_encode::rle_tree_bits(lengths, 0, 4);
    let b = huffman_encode::coded(lengths, kind_tokens(kinds, 0));
    let pos = (a + b).len() as int;
    let lay = layout_of(map, hunk_bytes, unit_bytes);
    if first == 0 {
        lemma_only_refs(m, start, 0, m.len());
        lemma_entries_read(m, kinds, stream, pos, 0, lay, m.len());
        assert(read_state(m, kinds, lay, pos, 0, 0) == MapState {
            pos: pos as u64,
            cur: 0,
            last_self: 0,
            last_parent: 0,
        });
    } else {
        lemma_entries_read(m, kinds, stream, pos, start, lay, m.len());
        assert(read_state(m, kinds, lay, pos, start, 0) == MapState {
            pos: pos as u64,
            cur: start as u64,
            last_self: 0,
            last_parent: 0,
        });
    }
    assert(m.take(m.len() as int) =~= m);
}

/// Where nothing is stored in the file the stored hunks end where they start.
proof fn lemma_only_refs(m: Seq<RawEntry>, a: nat, b: nat, n: nat)
    requires
        n <= m.len(),
        forall|k: int| 0 <= k < m.len() ==> (#[trigger] m[k]).kind > COMPRESSION_NONE,
    ensures
        stored_end(m, a, n) == a,
        stored_end(m, b, n) == b,
    decreases n,
{
    if n > 0 {
        lemma_only_refs(m, a, b, (n - 1) as nat);
    }
}

} // verus!
