use vstd::prelude::*;

verus! {

/// One release-group as a search returns it.
pub struct ReleaseGroupSummary {
    pub mbid: String,
    pub title: String,
    /// Credited artist names, in credit order.
    pub artists: Vec<String>,
    pub primary_type: Option<String>,
    pub secondary_types: Vec<String>,
    /// Relevance of the match, 0 to 100.
    pub score: u32,
    /// Number of releases issued in the group.
    pub release_count: u32,
}

/// A search result with its 1-based place in the ranking.
pub struct RankedCandidate {
    pub summary: ReleaseGroupSummary,
    pub rank: usize,
}

/// The archive an image entry was found in.
#[derive(PartialEq, Eq, Structural, Clone, Copy, Debug)]
pub enum Origin {
    CoverArtArchive,
    InternetArchive,
}

/// One image that an archive offers for a release.
pub struct ImageEntry {
    pub source_mbid: String,
    /// What the image shows: "front", "back", "medium", ...
    pub role: String,
    pub url: String,
    pub approximate_size_bytes: Option<u64>,
    pub origin: Origin,
}

} // verus!
