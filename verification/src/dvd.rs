//! DVD images.

use crate::chdfile;
use crate::chdfile::Chd;
use crate::codec::{CHD_CODEC_FLAC, CHD_CODEC_HUFF, CHD_CODEC_LZMA, CHD_CODEC_ZLIB};
use crate::error::Error;
use crate::hd;
use crate::header;
use crate::metadata;
use crate::metadata::{Meta, MetaEntry, METADATA_FLAG_CHECKSUM};
use crate::write::{read_and_pad, resolve_codecs, CreatePlan, Plan};
use vstd::prelude::*;

verus! {

/// The size of a sector.
pub const DVD_SECTOR_SIZE: u32 = 2048;

/// The usual size of a hunk.
pub const DEFAULT_HUNK_SIZE: u32 = 4096;

/// How to create a DVD image.
#[derive(Debug, Clone, Copy)]
pub struct DvdCreateOptions {
    /// The size of the image; zero for the size of the input.
    pub logical_size: u64,
    /// The size of a hunk.
    pub hunk_size: u32,
    /// The numbers of the codecs, by slot. All zeros stand for no compression.
    pub codecs: [u32; 4],
}

impl Default for DvdCreateOptions {
    fn default() -> (r: Self)
        ensures
            r.logical_size == 0,
            r.hunk_size == 4096,
            r.codecs@ == seq![CHD_CODEC_LZMA, CHD_CODEC_ZLIB, CHD_CODEC_HUFF, CHD_CODEC_FLAC],
    {
        let codecs: [u32; 4] = [CHD_CODEC_LZMA, CHD_CODEC_ZLIB, CHD_CODEC_HUFF, CHD_CODEC_FLAC];
        assert(codecs@ =~= seq![CHD_CODEC_LZMA, CHD_CODEC_ZLIB, CHD_CODEC_HUFF, CHD_CODEC_FLAC]);
        DvdCreateOptions { logical_size: 0, hunk_size: DEFAULT_HUNK_SIZE, codecs }
    }
}

/// The metadata of a DVD: an entry of one zero.
pub open spec fn dvd_metas() -> Seq<Meta> {
    seq![
        Meta {
            tag: header::tag_of(0x44, 0x56, 0x44, 0x20),
            flags: METADATA_FLAG_CHECKSUM,
            payload: seq![0u8],
        },
    ]
}

/// The plan for a DVD image.
pub open spec fn plan_of(data: Seq<u8>, o: DvdCreateOptions) -> Plan {
    Plan {
        data: crate::write::padded(data, o.logical_size),
        hunk_size: o.hunk_size,
        unit_size: DVD_SECTOR_SIZE,
        codecs: crate::write::resolved(o.codecs@),
        metadata: dvd_metas(),
    }
}

/// What stands in the way of a plan, if anything.
pub open spec fn plan_fault(data: Seq<u8>, o: DvdCreateOptions) -> Option<Error> {
    if !crate::write::can_pad(data.len(), o.logical_size, DVD_SECTOR_SIZE, o.hunk_size) {
        Some(Error::InvalidParameter)
    } else {
        crate::write::slots_fault(o.codecs@)
    }
}

/// Plans a DVD image.
pub fn plan(data: Vec<u8>, opts: &DvdCreateOptions) -> (r: Result<CreatePlan, Error>)
    requires
        opts.logical_size <= usize::MAX,
    ensures
        match r {
            Ok(p) => plan_fault(data@, *opts) is None && p@ == plan_of(data@, *opts),
            Err(e) => plan_fault(data@, *opts) == Some(e),
        },
{
    if opts.hunk_size == 0 || opts.hunk_size % DVD_SECTOR_SIZE != 0 {
        return Err(Error::InvalidParameter);
    }
    let data = match read_and_pad(data, opts.logical_size, DVD_SECTOR_SIZE, opts.hunk_size) {
        Ok(d) => d,
        Err(e) => {
            return Err(e);
        },
    };
    let payload: Vec<u8> = vec![0u8; 1];
    assert(payload@ =~= seq![0u8]);
    let entry = MetaEntry {
        tag: header::make_tag(&[0x44, 0x56, 0x44, 0x20]),
        flags: METADATA_FLAG_CHECKSUM,
        payload,
    };
    let mut entries: Vec<MetaEntry> = Vec::new();
    entries.push(entry);
    assert(metadata::metas(entries@) =~= dvd_metas());
    let codecs = match resolve_codecs(&opts.codecs) {
        Ok(c) => c,
        Err(e) => {
            return Err(e);
        },
    };
    Ok(
        CreatePlan {
            data,
            hunk_size: opts.hunk_size,
            unit_size: DVD_SECTOR_SIZE,
            codecs,
            metadata: entries,
        },
    )
}

/// Creates a DVD image.
pub fn create_from_reader(data: Vec<u8>, out: &mut Vec<u8>, opts: &DvdCreateOptions) -> (r: Result<
    (),
    Error,
>)
    requires
        opts.logical_size <= usize::MAX,
    ensures
        match plan_fault(data@, *opts) {
            Some(e) => r == Err::<(), Error>(e) && final(out)@ == old(out)@,
            None => hd::attempted(plan_of(data@, *opts), old(out)@, final(out)@, r),
        },
{
    match plan(data, opts) {
        Err(e) => Err(e),
        Ok(p) => hd::attempt(&p, out),
    }
}

/// Whether a file has the metadata of a DVD.
pub fn is_dvd(chd: &Chd) -> (r: Result<bool, Error>)
    ensures
        ({
            let f = chd.image().file;
            let ns = metadata::list(f, chd.spec_header().meta_offset as nat).0;
            if !chdfile::all_held(f, ns) {
                r == Err::<bool, Error>(Error::ReadError)
            } else {
                r == Ok::<bool, Error>(
                    hd::first_with(ns, header::tag_of(0x44, 0x56, 0x44, 0x20), 0) is Some,
                )
            }
        }),
{
    let ghost f = chd.image().file;
    let ghost ns = metadata::list(f, chd.spec_header().meta_offset as nat).0;
    let ghost tag = header::tag_of(0x44, 0x56, 0x44, 0x20);
    let metas = match chd.read_metas() {
        Ok(v) => v,
        Err(e) => {
            return Err(e);
        },
    };
    let want = header::make_tag(&[0x44, 0x56, 0x44, 0x20]);
    let mut i: usize = 0;
    let n = metas.len();
    while i < n
        invariant
            i <= n == metas@.len() == ns.len(),
            want == tag,
            metadata::metas(metas@) == chdfile::metas_at(f, ns),
            f == chd.image().file,
            ns == metadata::list(f, chd.spec_header().meta_offset as nat).0,
            chdfile::all_held(f, ns),
            tag == header::tag_of(0x44, 0x56, 0x44, 0x20),
            hd::first_with(ns, tag, 0) == hd::first_with(ns, tag, i as int),
        decreases n - i,
    {
        proof {
            assert(metadata::metas(metas@)[i as int] == metas@[i as int]@);
            assert(chdfile::metas_at(f, ns)[i as int] == metadata::meta_of(f, ns[i as int]));
        }
        if metas[i].tag == want {
            return Ok(true);
        }
        i = i + 1;
    }
    Ok(false)
}

/// Opens a file that has to be a DVD image.
pub fn open_dvd(file: Vec<u8>) -> (r: Result<Chd, Error>)
    ensures
        match chdfile::open_fault(file@, None) {
            Some(e) => r matches Err(x) && x == e,
            None => {
                let ns = metadata::list(file@, header::fields_at(file@).meta_offset).0;
                if !chdfile::all_held(file@, ns) {
                    r matches Err(x) && x == Error::ReadError
                } else if hd::first_with(ns, header::tag_of(0x44, 0x56, 0x44, 0x20), 0) is None {
                    r matches Err(x) && x == Error::UnsupportedFormat
                } else {
                    r matches Ok(c) && c.wf() && c.image() == chdfile::opened(file@, None)
                        && chdfile::has_header(c.spec_header(), file@)
                }
            },
        },
{
    let chd = match Chd::open(file, None) {
        Ok(c) => c,
        Err(e) => {
            return Err(e);
        },
    };
    assert(chd.spec_header().fields().meta_offset == chd.spec_header().meta_offset);
    match is_dvd(&chd) {
        Err(e) => Err(e),
        Ok(yes) => if yes {
            Ok(chd)
        } else {
            Err(Error::UnsupportedFormat)
        },
    }
}

/// Appends the image that a DVD file holds.
pub fn extract_to_writer(file: Vec<u8>, out: &mut Vec<u8>) -> (r: Result<(), Error>)
    ensures
        match chdfile::open_fault(file@, None) {
            Some(e) => r == Err::<(), Error>(e) && final(out)@ == old(out)@,
            None => {
                let h = header::fields_at(file@);
                let ns = metadata::list(file@, h.meta_offset).0;
                let img = chdfile::opened(file@, None);
                if !chdfile::all_held(file@, ns) {
                    r == Err::<(), Error>(Error::ReadError) && final(out)@ == old(out)@
                } else if hd::first_with(ns, header::tag_of(0x44, 0x56, 0x44, 0x20), 0) is None {
                    r == Err::<(), Error>(Error::UnsupportedFormat) && final(out)@ == old(out)@
                } else {
                    match chdfile::gathered(img, h.logical_bytes, img.count as nat) {
                        Ok((data, buf)) => r is Ok && final(out)@ == old(out)@ + data,
                        Err(e) => r == Err::<(), Error>(e) && final(out)@ == old(out)@,
                    }
                }
            },
        },
{
    let mut chd = match open_dvd(file) {
        Ok(c) => c,
        Err(e) => {
            return Err(e);
        },
    };
    assert(chd.spec_header().fields().logical_bytes == chd.spec_header().logical_bytes);
    match chd.read_all() {
        Err(e) => Err(e),
        Ok(data) => {
            out.extend_from_slice(data.as_slice());
            Ok(())
        },
    }
}

} // verus!
