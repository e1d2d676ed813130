//! The frames of a CD image.

use vstd::prelude::*;

verus! {

/// The bytes of a sector with all its headers and codes.
pub const CD_MAX_SECTOR_DATA: u32 = 2352;

/// The bytes of subcode that go with a sector.
pub const CD_MAX_SUBCODE_DATA: u32 = 96;

/// The bytes of a frame: a sector and its subcode.
pub const CD_FRAME_SIZE: u32 = 2448;

/// The number of frames in a hunk of a CD image.
pub const CD_FRAMES_PER_HUNK: u32 = 8;

/// The length of the synchronisation pattern.
pub const CD_SYNC_NUM_BYTES: usize = 12;

/// The place of the mode byte in a sector.
pub const CD_MODE_OFFSET: usize = 15;

/// Byte `i` of the synchronisation pattern at the start of a data sector.
pub open spec fn sync_byte(i: int) -> u8 {
    if i == 0 || i == 11 {
        0
    } else {
        0xff
    }
}

/// The synchronisation pattern.
pub fn cd_sync_header() -> (r: [u8; 12])
    ensures
        forall|i: int| 0 <= i < 12 ==> #[trigger] r@[i] == sync_byte(i),
{
    [0x00, 0xff, 0xff, 0xff, 0xff, 0xff, 0xff, 0xff, 0xff, 0xff, 0xff, 0x00]
}

} // verus!
