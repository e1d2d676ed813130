//! Laws of the shape of a hard disk: the guess for a size, and the text of it.

use crate::hd;
use crate::hd::HdGeometry;
use crate::text;
use vstd::prelude::*;

verus! {

/// Whether cylinders of `h` tracks of `s` sectors make up a number of sectors.
pub open spec fn fills(total: int, s: int, h: int) -> bool {
    total % (s * h) == 0
}

/// Whether a track of a guessed shape may have `s` sectors, and a cylinder `h` tracks.
pub open spec fn is_usual(s: int, h: int) -> bool {
    2 <= s && s <= 63 && 2 <= h && h <= 16
}

proof fn lemma_fills(t: int, s: int, h: int)
    requires
        0 <= t,
        is_usual(s, h),
    ensures
        hd::lays_out(t, s, h) == fills(t, s, h),
        (t / s) / h == t / (s * h),
{
    vstd::arithmetic::div_mod::lemma_div_denominator(t, s, h);
    vstd::arithmetic::div_mod::lemma_fundamental_div_mod(t, s);
    vstd::arithmetic::div_mod::lemma_fundamental_div_mod(t / s, h);
    assert(s * h > 0) by (nonlinear_arith)
        requires
            s >= 2,
            h >= 2,
    ;
    vstd::arithmetic::div_mod::lemma_fundamental_div_mod(t, s * h);
    let q = t / (s * h);
    assert((s * h) * q == s * (h * q)) by (nonlinear_arith);
    if fills(t, s, h) {
        assert(t == s * (h * q));
        vstd::arithmetic::div_mod::lemma_fundamental_div_mod_converse(t, s, h * q, 0);
        vstd::arithmetic::div_mod::lemma_fundamental_div_mod_converse(t / s, h, q, 0);
    }
    if hd::lays_out(t, s, h) {
        assert(t == (s * h) * q);
        assert((s * h) * q == q * (s * h)) by (nonlinear_arith);
        vstd::arithmetic::div_mod::lemma_fundamental_div_mod_converse(t, s * h, q, 0);
    }
}

/// The shape that is guessed for a size. It has 2 to 63 sectors on a track and 2 to 16 heads, and
/// makes up the smallest number of sectors from the given one on that any such shape makes up, at
/// most three sectors more. No shape with longer tracks makes up that number, and none with as long
/// tracks and more heads.
pub proof fn guess_is_the_longest_track(logical_bytes: int, sector_size: u32, g: HdGeometry) -> (t: int)
    requires
        0 <= logical_bytes,
        sector_size > 0,
        hd::is_guess(logical_bytes, sector_size, g),
    ensures
        logical_bytes / sector_size as int <= t <= logical_bytes / sector_size as int + 3,
        is_usual(g.sectors as int, g.heads as int),
        fills(t, g.sectors as int, g.heads as int),
        g.cylinders == (t / (g.sectors * g.heads)) % 0x1_0000_0000,
        g.sector_bytes == sector_size,
        forall|u: int, s: int, h: int|
            logical_bytes / sector_size as int <= u < t && is_usual(s, h) ==> !#[trigger] fills(u, s, h),
        forall|s: int, h: int|
            #![trigger fills(t, s, h)]
            is_usual(s, h) && g.sectors < s ==> !fills(t, s, h),
        forall|h: int|
            #![trigger fills(t, g.sectors as int, h)]
            is_usual(g.sectors as int, h) && g.heads < h ==> !fills(t, g.sectors as int, h),
{
    let total = logical_bytes / sector_size as int;
    vstd::arithmetic::div_mod::lemma_div_pos_is_pos(logical_bytes, sector_size as int);
    let t = choose|t: int| #[trigger]
        hd::laid_out_total(total, t) && hd::is_best_layout(t, g.sectors as int, g.heads as int)
            && g.cylinders == ((t / g.sectors as int) / g.heads as int) % 0x1_0000_0000;
    hd::chs_adds_little(total, t);
    let gs = g.sectors as int;
    let gh = g.heads as int;
    assert(hd::lays_out(t, gs, gh));
    lemma_fills(t, gs, gh);
    assert forall|u: int, s: int, h: int| total <= u < t && is_usual(s, h) implies !#[trigger] fills(
        u,
        s,
        h,
    ) by {
        lemma_fills(u, s, h);
        assert(!hd::can_lay_out(u));
        assert(!hd::lays_out(u, s, h));
    }
    assert forall|s: int, h: int|
        #![trigger fills(t, s, h)]
        is_usual(s, h) && gs < s implies !fills(t, s, h) by {
        lemma_fills(t, s, h);
        assert(!hd::lays_out(t, s, h));
    }
    assert forall|h: int|
        #![trigger fills(t, gs, h)]
        is_usual(gs, h) && gh < h implies !fills(t, gs, h) by {
        lemma_fills(t, gs, h);
        assert(!hd::lays_out(t, gs, h));
    }
    t
}

/// Where a shape with `s` sectors on a track and `h` heads makes up the number of sectors, the
/// guessed shape makes it up too, and its tracks are no shorter; where they are as long, it has no
/// fewer heads. A disk of the guessed shape is as large as the image, where 32 bits hold the number
/// of cylinders.
pub proof fn guess_is_no_shorter(logical_bytes: int, sector_size: u32, g: HdGeometry, s: int, h: int)
    requires
        0 <= logical_bytes,
        sector_size > 0,
        logical_bytes % sector_size as int == 0,
        hd::is_guess(logical_bytes, sector_size, g),
        is_usual(s, h),
        fills(logical_bytes / sector_size as int, s, h),
    ensures
        s <= g.sectors,
        s == g.sectors ==> h <= g.heads,
        (logical_bytes / sector_size as int) / (g.sectors * g.heads) < 0x1_0000_0000 ==> g.cylinders
            * g.heads * g.sectors * g.sector_bytes == logical_bytes,
{
    let t = guess_is_the_longest_track(logical_bytes, sector_size, g);
    let total = logical_bytes / sector_size as int;
    assert(t == total);
    if g.sectors < s {
        assert(!fills(t, s, h));
    }
    if s == g.sectors && g.heads < h {
        assert(!fills(t, g.sectors as int, h));
    }
    let q = g.sectors * g.heads;
    assert(q > 0) by (nonlinear_arith)
        requires
            g.sectors >= 2,
            g.heads >= 2,
            q == g.sectors * g.heads,
    ;
    vstd::arithmetic::div_mod::lemma_fundamental_div_mod(total, q);
    vstd::arithmetic::div_mod::lemma_fundamental_div_mod(logical_bytes, sector_size as int);
    vstd::arithmetic::div_mod::lemma_div_pos_is_pos(logical_bytes, sector_size as int);
    vstd::arithmetic::div_mod::lemma_div_pos_is_pos(total, q);
    if total / q < 0x1_0000_0000 {
        let c = g.cylinders as int;
        assert(c == total / q);
        assert(c * g.heads * g.sectors == total) by (nonlinear_arith)
            requires
                total == q * c,
                q == g.sectors * g.heads,
        ;
        assert(total * sector_size == logical_bytes) by (nonlinear_arith)
            requires
                logical_bytes == sector_size * total,
        ;
    }
}

/// The text of a shape: `CYLS:`, `HEADS:`, `SECS:` and `BPS:`, each with its number, and commas
/// between them.
pub proof fn text_of_a_shape(g: HdGeometry)
    ensures
        text::parts(hd::gddd_text(g), 0x2c) == seq![
            seq![0x43u8, 0x59u8, 0x4cu8, 0x53u8, 0x3au8] + text::decimal(g.cylinders as nat),
            seq![0x48u8, 0x45u8, 0x41u8, 0x44u8, 0x53u8, 0x3au8] + text::decimal(g.heads as nat),
            seq![0x53u8, 0x45u8, 0x43u8, 0x53u8, 0x3au8] + text::decimal(g.sectors as nat),
            seq![0x42u8, 0x50u8, 0x53u8, 0x3au8] + text::decimal(g.sector_bytes as nat),
        ],
{
    let a = seq![0x43u8, 0x59u8, 0x4cu8, 0x53u8, 0x3au8] + text::decimal(g.cylinders as nat);
    let b = seq![0x48u8, 0x45u8, 0x41u8, 0x44u8, 0x53u8, 0x3au8] + text::decimal(g.heads as nat);
    let c = seq![0x53u8, 0x45u8, 0x43u8, 0x53u8, 0x3au8] + text::decimal(g.sectors as nat);
    let d = seq![0x42u8, 0x50u8, 0x53u8, 0x3au8] + text::decimal(g.sector_bytes as nat);
    text::decimal_is_read_back(g.cylinders as nat);
    text::decimal_is_read_back(g.heads as nat);
    text::decimal_is_read_back(g.sectors as nat);
    text::decimal_is_read_back(g.sector_bytes as nat);
    let comma = seq![0x2cu8];
    text::parts_of_joined(a, b + comma + (c + comma + d), 0x2c);
    text::parts_of_joined(b, c + comma + d, 0x2c);
    text::parts_of_joined(c, d, 0x2c);
    text::parts_of_one(d, 0x2c);
    assert(hd::gddd_text(g) =~= a + comma + (b + comma + (c + comma + d)));
    assert(seq![a] + (seq![b] + (seq![c] + seq![d])) =~= seq![a, b, c, d]);
}

} // verus!
