//! The compact on-disk record: a schema version, minimal metadata, and the
//! raw line-oriented content text. The conversion to and from a byte
//! serialization format lives with the callers that do the file traffic.

use vstd::prelude::*;

verus! {

/// Minimal metadata of a stored file.
#[derive(Debug, Clone, PartialEq)]
pub struct PdxMeta {
    pub title: String,
    pub lang: String,
}

impl Default for PdxMeta {
    fn default() -> (r: Self)
        ensures
            r.title@ == Seq::<char>::empty(),
            r.lang@ == Seq::<char>::empty(),
    {
        PdxMeta { title: String::new(), lang: String::new() }
    }
}

/// A stored file: version, metadata, and the raw content text.
#[derive(Debug, Clone, PartialEq)]
pub struct PdxFile {
    pub version: u32,
    pub meta: PdxMeta,
    pub content: String,
}

impl Default for PdxFile {
    fn default() -> (r: Self)
        ensures
            r.version == 0,
            r.meta.title@ == Seq::<char>::empty(),
            r.meta.lang@ == Seq::<char>::empty(),
            r.content@ == Seq::<char>::empty(),
    {
        PdxFile { version: 0, meta: PdxMeta::default(), content: String::new() }
    }
}

} // verus!
