use mb_artwork::client::{classify_status, StatusAction};
use mb_artwork::model::ReleaseGroupSummary;
use mb_artwork::ranker::{filter_by_type, key_of, keeps, order_candidates, rank_candidates, RankError};

fn summary(mbid: &str, primary: Option<&str>, score: u32, releases: u32) -> ReleaseGroupSummary {
    ReleaseGroupSummary {
        mbid: mbid.to_string(),
        title: format!("title {}", mbid),
        artists: vec!["The Beatles".to_string()],
        primary_type: primary.map(|t| t.to_string()),
        secondary_types: vec![],
        score,
        release_count: releases,
    }
}

fn ids(v: &[mb_artwork::model::RankedCandidate]) -> Vec<String> {
    v.iter().map(|c| c.summary.mbid.clone()).collect()
}

#[test]
fn ranks_by_score_times_release_count() {
    let raw = vec![
        summary("a", Some("Album"), 100, 2),
        summary("b", Some("Album"), 90, 10),
        summary("c", Some("Single"), 50, 1),
    ];
    let out = rank_candidates(raw, "all", 5).unwrap();
    assert_eq!(ids(&out), vec!["b", "a", "c"]);
    assert_eq!(out.iter().map(|c| c.rank).collect::<Vec<_>>(), vec![1, 2, 3]);
}

#[test]
fn equal_keys_keep_search_order() {
    let raw = vec![
        summary("a", None, 10, 2),
        summary("b", None, 20, 1),
        summary("c", None, 5, 4),
        summary("d", None, 40, 1),
    ];
    let out = rank_candidates(raw, "all", 10).unwrap();
    assert_eq!(ids(&out), vec!["d", "a", "b", "c"]);
}

#[test]
fn output_is_cut_to_limit() {
    let raw = vec![
        summary("a", None, 10, 1),
        summary("b", None, 30, 1),
        summary("c", None, 20, 1),
    ];
    let out = rank_candidates(raw, "all", 2).unwrap();
    assert_eq!(ids(&out), vec!["b", "c"]);
}

#[test]
fn limit_zero_gives_empty_ranking() {
    let out = order_candidates(vec![summary("a", None, 10, 1)], 0);
    assert!(out.is_empty());
}

#[test]
fn filter_matches_primary_type_ignoring_case() {
    let raw = vec![
        summary("a", Some("Album"), 100, 1),
        summary("b", Some("Single"), 100, 1),
        summary("c", None, 100, 1),
        summary("d", Some("album"), 100, 1),
    ];
    let kept = filter_by_type(raw, "ALBUM");
    assert_eq!(kept.iter().map(|s| s.mbid.as_str()).collect::<Vec<_>>(), vec!["a", "d"]);
}

#[test]
fn filter_all_keeps_entries_without_type() {
    let s = summary("c", None, 1, 1);
    assert!(keeps(&s, "all"));
    assert!(!keeps(&s, "album"));
}

#[test]
fn filter_matching_every_type_equals_all() {
    let make = || vec![summary("a", Some("Album"), 3, 1), summary("b", Some("ALBUM"), 9, 1)];
    let by_type = filter_by_type(make(), "album");
    let all = filter_by_type(make(), "all");
    let ids_a: Vec<_> = by_type.iter().map(|s| s.mbid.clone()).collect();
    let ids_b: Vec<_> = all.iter().map(|s| s.mbid.clone()).collect();
    assert_eq!(ids_a, ids_b);
    let twice = filter_by_type(filter_by_type(make(), "album"), "album");
    assert_eq!(twice.len(), 2);
}

#[test]
fn no_results_after_filter_is_an_error() {
    let raw = vec![summary("a", Some("Single"), 100, 1)];
    assert_eq!(rank_candidates(raw, "album", 5).err(), Some(RankError::NoResults));
    assert_eq!(rank_candidates(vec![], "all", 5).err(), Some(RankError::NoResults));
    let msg = RankError::NoResults.message();
    assert!(msg.contains("filter") && msg.contains("limit"));
}

#[test]
fn key_is_product() {
    assert_eq!(key_of(&summary("a", None, 87, 12)), 1044);
    assert_eq!(key_of(&summary("a", None, u32::MAX, u32::MAX)), (u32::MAX as u64) * (u32::MAX as u64));
}

#[test]
fn status_decision_table() {
    assert_eq!(classify_status(200), StatusAction::Proceed);
    assert_eq!(classify_status(299), StatusAction::Proceed);
    assert_eq!(classify_status(404), StatusAction::Empty);
    assert_eq!(classify_status(500), StatusAction::Fail);
    assert_eq!(classify_status(301), StatusAction::Fail);
}

#[test]
fn abbey_road_album_ranking() {
    let raw = vec![
        summary("rg1", Some("Album"), 100, 40),
        summary("rg2", Some("Single"), 95, 3),
        summary("rg3", Some("Album"), 80, 2),
        summary("rg4", Some("EP"), 70, 1),
        summary("rg5", Some("album"), 60, 90),
    ];
    let out = rank_candidates(raw, "album", 5).unwrap();
    assert!(out.len() <= 5);
    assert_eq!(ids(&out), vec!["rg5", "rg1", "rg3"]);
    for c in &out {
        assert!(c.summary.primary_type.as_deref().unwrap().eq_ignore_ascii_case("album"));
    }
}
