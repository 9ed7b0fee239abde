use mb_artwork::model::{RankedCandidate, ReleaseGroupSummary};
use mb_artwork::selector::{parse_choice, select, type_labels, Choice, Selection, SelectionError};

fn candidate(mbid: &str, rank: usize) -> RankedCandidate {
    RankedCandidate {
        summary: ReleaseGroupSummary {
            mbid: mbid.to_string(),
            title: "Abbey Road".to_string(),
            artists: vec!["The Beatles".to_string()],
            primary_type: Some("Album".to_string()),
            secondary_types: vec!["Compilation".to_string(), "Live".to_string()],
            score: 100,
            release_count: 3,
        },
        rank,
    }
}

fn three() -> Vec<RankedCandidate> {
    vec![candidate("x", 1), candidate("y", 2), candidate("z", 3)]
}

#[test]
fn empty_answer_selects_rank_one() {
    assert_eq!(parse_choice("", 3), Ok(Choice::Rank(1)));
    match select(three(), "") {
        Ok(Selection::Chosen(c)) => assert_eq!((c.rank, c.summary.mbid.as_str()), (1, "x")),
        _ => panic!("expected a choice"),
    }
}

#[test]
fn number_selects_that_rank() {
    assert_eq!(parse_choice("2", 3), Ok(Choice::Rank(2)));
    match select(three(), "2") {
        Ok(Selection::Chosen(c)) => assert_eq!((c.rank, c.summary.mbid.as_str()), (2, "y")),
        _ => panic!("expected a choice"),
    }
}

#[test]
fn zero_quits() {
    assert_eq!(parse_choice("0", 3), Ok(Choice::Quit));
    assert!(matches!(select(three(), "0"), Ok(Selection::Quit)));
}

#[test]
fn out_of_range_is_an_error() {
    assert_eq!(parse_choice("9", 3), Err(SelectionError::OutOfRange));
    assert_eq!(parse_choice("00", 3), Err(SelectionError::OutOfRange));
    assert_eq!(parse_choice("99999999999999999999999999", 3), Err(SelectionError::OutOfRange));
    assert_eq!(parse_choice("", 0), Err(SelectionError::OutOfRange));
    assert!(matches!(select(three(), "4"), Err(SelectionError::OutOfRange)));
}

#[test]
fn non_numeric_is_an_error() {
    assert_eq!(parse_choice("two", 3), Err(SelectionError::NotANumber));
    assert_eq!(parse_choice("-1", 3), Err(SelectionError::NotANumber));
    assert_eq!(parse_choice("1a", 3), Err(SelectionError::NotANumber));
}

#[test]
fn labels_put_primary_type_first() {
    let c = candidate("x", 1);
    assert_eq!(type_labels(&c.summary), vec!["Album", "Compilation", "Live"]);
    let mut s = c.summary;
    s.primary_type = None;
    s.secondary_types = vec![];
    assert_eq!(type_labels(&s), vec!["none"]);
}
