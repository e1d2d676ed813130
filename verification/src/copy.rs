//! Writing the image of a file again, with other codecs or another hunk size.

use crate::chdfile;
use crate::chdfile::Chd;
use crate::error::Error;
use crate::hd;
use crate::header;
use crate::metadata;
use crate::write::{resolve_codecs, CreatePlan, Plan};
use vstd::prelude::*;

verus! {

/// How to write an image again.
#[derive(Debug, Clone, Copy)]
pub struct CopyOptions {
    /// The size of a hunk, where it changes.
    pub hunk_size: Option<u32>,
    /// The numbers of the codecs, by slot. All zeros stand for no compression.
    pub codecs: [u32; 4],
}

impl Default for CopyOptions {
    fn default() -> (r: Self)
        ensures
            r.hunk_size is None,
            r.codecs@ == seq![0u32, 0, 0, 0],
    {
        let codecs: [u32; 4] = [0, 0, 0, 0];
        assert(codecs@ =~= seq![0u32, 0, 0, 0]);
        CopyOptions { hunk_size: None, codecs }
    }
}

/// The plan for a copy: the image, the unit size and the metadata stay.
pub open spec fn plan_of(f: Seq<u8>, o: CopyOptions) -> Plan {
    let h = header::fields_at(f);
    let img = chdfile::opened(f, None);
    Plan {
        data: chdfile::gathered(img, h.logical_bytes, img.count as nat)->Ok_0.0,
        hunk_size: match o.hunk_size {
            Some(n) => n,
            None => h.hunk_bytes as u32,
        },
        unit_size: h.unit_bytes as u32,
        codecs: crate::write::resolved(o.codecs@),
        metadata: chdfile::metas_at(f, metadata::list(f, h.meta_offset).0),
    }
}

/// What stands in the way of a copy, if anything.
pub open spec fn plan_fault(f: Seq<u8>, o: CopyOptions) -> Option<Error> {
    let h = header::fields_at(f);
    let img = chdfile::opened(f, None);
    match chdfile::open_fault(f, None) {
        Some(e) => Some(e),
        None => if !chdfile::all_held(f, metadata::list(f, h.meta_offset).0) {
            Some(Error::ReadError)
        } else {
            match chdfile::gathered(img, h.logical_bytes, img.count as nat) {
                Err(e) => Some(e),
                Ok(x) => crate::write::slots_fault(o.codecs@),
            }
        },
    }
}

/// Plans a copy of a file.
pub fn plan(source: Vec<u8>, opts: &CopyOptions) -> (r: Result<CreatePlan, Error>)
    ensures
        match r {
            Ok(p) => plan_fault(source@, *opts) is None && p@ == plan_of(source@, *opts),
            Err(e) => plan_fault(source@, *opts) == Some(e),
        },
{
    let ghost f = source@;
    let mut chd = match Chd::open(source, None) {
        Ok(c) => c,
        Err(e) => {
            return Err(e);
        },
    };
    let h = *chd.header();
    proof {
        let fields = header::fields_at(f);
        assert(h.fields().meta_offset == h.meta_offset);
        assert(h.fields().logical_bytes == h.logical_bytes);
        assert(h.fields().unit_bytes == h.unit_bytes);
        assert(h.fields().hunk_bytes == h.hunk_bytes);
    }
    let hunk_size: u32 = match opts.hunk_size {
        Some(n) => n,
        None => h.hunk_bytes,
    };
    let entries = match chd.read_metas() {
        Ok(v) => v,
        Err(e) => {
            return Err(e);
        },
    };
    let data = match chd.read_all() {
        Ok(v) => v,
        Err(e) => {
            return Err(e);
        },
    };
    let codecs = match resolve_codecs(&opts.codecs) {
        Ok(c) => c,
        Err(e) => {
            return Err(e);
        },
    };
    Ok(CreatePlan { data, hunk_size, unit_size: h.unit_bytes, codecs, metadata: entries })
}

/// Writes the image of a file again behind what `out` holds. What the format cannot hold is refused.
pub fn copy(source: Vec<u8>, out: &mut Vec<u8>, opts: &CopyOptions) -> (r: Result<(), Error>)
    ensures
        match plan_fault(source@, *opts) {
            Some(e) => r == Err::<(), Error>(e) && final(out)@ == old(out)@,
            None => hd::attempted(plan_of(source@, *opts), old(out)@, final(out)@, r),
        },
{
    match plan(source, opts) {
        Err(e) => Err(e),
        Ok(p) => hd::attempt(&p, out),
    }
}

} // verus!
