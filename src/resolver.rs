use vstd::prelude::*;
use vstd::string::*;
use crate::model::{ImageEntry, Origin};

verus! {

/// The role of an image as the pipeline sees it: an empty role reads "unknown".
pub open spec fn role_or_unknown(role: Seq<char>) -> Seq<char> {
    if role.len() == 0 {
        "unknown"@
    } else {
        role
    }
}

/// `out` is `e` as found in `origin`.
pub open spec fn tagged_entry(e: ImageEntry, out: ImageEntry, origin: Origin) -> bool {
    &&& out.source_mbid == e.source_mbid
    &&& out.url == e.url
    &&& out.approximate_size_bytes == e.approximate_size_bytes
    &&& out.role@ == role_or_unknown(e.role@)
    &&& out.origin == origin
}

/// `out` holds the entries of `v`, in order, as found in `origin`.
pub open spec fn tagged_all(v: Seq<ImageEntry>, out: Seq<ImageEntry>, origin: Origin) -> bool {
    &&& out.len() == v.len()
    &&& forall|i: int| 0 <= i < v.len() ==> tagged_entry(#[trigger] v[i], out[i], origin)
}

/// Marks each entry of `entries` as found in `origin` and names empty roles "unknown".
pub fn tag_entries(entries: Vec<ImageEntry>, origin: Origin) -> (r: Vec<ImageEntry>)
    ensures
        tagged_all(entries@, r@, origin),
{
    let ghost orig = entries@;
    let mut rest = entries;
    let mut out: Vec<ImageEntry> = Vec::new();
    while rest.len() > 0
        invariant
            out.len() + rest.len() == orig.len(),
            rest@ == orig.skip(out.len() as int),
            forall|i: int| 0 <= i < out.len() ==> tagged_entry(#[trigger] orig[i], out@[i], origin),
        decreases rest.len(),
    {
        let ghost i = out.len() as int;
        let mut e = rest.remove(0);
        assert(e == orig[i]);
        if e.role.as_str().unicode_len() == 0 {
            e.role = String::from_str("unknown");
        }
        e.origin = origin;
        out.push(e);
        assert(rest@ =~= orig.skip(out.len() as int));
    }
    out
}

/// The next step of resolving a release's artwork.
pub enum ResolveStep {
    /// The Cover Art Archive has images: these are the result.
    Found(Vec<ImageEntry>),
    /// The Cover Art Archive has none: consult the Internet Archive index.
    AskArchive,
}

/// Takes what the Cover Art Archive listed for a release: its entries when there
/// are any, else the instruction to fall back to the Internet Archive.
pub fn resolve_primary(caa: Vec<ImageEntry>) -> (r: ResolveStep)
    ensures
        caa@.len() == 0 <==> r is AskArchive,
        r matches ResolveStep::Found(v) ==> tagged_all(caa@, v@, Origin::CoverArtArchive),
{
    if caa.len() == 0 {
        ResolveStep::AskArchive
    } else {
        ResolveStep::Found(tag_entries(caa, Origin::CoverArtArchive))
    }
}

/// Takes what the Internet Archive index listed, after the Cover Art Archive had
/// nothing: all of it, as found there.
pub fn resolve_fallback(ia: Vec<ImageEntry>) -> (r: Vec<ImageEntry>)
    ensures
        tagged_all(ia@, r@, Origin::InternetArchive),
{
    tag_entries(ia, Origin::InternetArchive)
}

} // verus!
