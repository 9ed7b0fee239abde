use mb_artwork::download::{filter_images, infer_extension, origin_label, plan_downloads, saved_outcome, DownloadOutcome};
use mb_artwork::model::{ImageEntry, Origin, ReleaseGroupSummary};
use mb_artwork::ranker::rank_candidates;
use mb_artwork::resolver::{resolve_primary, ResolveStep};
use mb_artwork::selector::{select, Selection};

fn rg(mbid: &str, primary: &str, score: u32, releases: u32) -> ReleaseGroupSummary {
    ReleaseGroupSummary {
        mbid: mbid.to_string(),
        title: "Abbey Road".to_string(),
        artists: vec!["The Beatles".to_string()],
        primary_type: Some(primary.to_string()),
        secondary_types: vec![],
        score,
        release_count: releases,
    }
}

fn image(role: &str, size: Option<u64>) -> ImageEntry {
    ImageEntry {
        source_mbid: "rel".to_string(),
        role: role.to_string(),
        url: format!("http://coverartarchive.org/release/rel/{}.jpg", role),
        approximate_size_bytes: size,
        origin: Origin::InternetArchive,
    }
}

#[test]
fn abbey_road_end_to_end() {
    let raw = vec![
        rg("single", "Single", 100, 9),
        rg("album", "Album", 100, 120),
        rg("remaster", "Album", 90, 5),
    ];
    let ranked = rank_candidates(raw, "album", 5).unwrap();
    assert_eq!(ranked.len(), 2);
    let chosen = match select(ranked, "") {
        Ok(Selection::Chosen(c)) => c,
        _ => panic!("expected a choice"),
    };
    assert_eq!(chosen.summary.mbid, "album");
    let entries = match resolve_primary(vec![image("front", Some(150_000)), image("back", Some(90_000))]) {
        ResolveStep::Found(v) => v,
        ResolveStep::AskArchive => panic!("must not fall back"),
    };
    let jobs = plan_downloads(filter_images(entries, "front", 200));
    assert_eq!(jobs.len(), 1);
    let job = &jobs[0];
    let name = format!(
        "{}-{}-{}.{}",
        job.entry.role,
        origin_label(job.entry.origin),
        job.sequence,
        infer_extension("image/jpeg", &job.entry.url)
    );
    assert_eq!(name, "front-coverartarchive-1.jpg");
    assert!(matches!(saved_outcome(150_000, 200), DownloadOutcome::Saved { over_limit: false, .. }));
}
