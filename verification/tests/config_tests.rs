use vanity_search::config::{
    normalize_patterns, resolve_thread_count, ConfigError, SearchPlacement,
};
use vanity_search::{DEFAULT_THREADS, MAX_THREADS};

#[test]
fn patterns_are_uppercased() {
    let pats = normalize_patterns(&vec![b"algo".to_vec()]).unwrap();
    assert_eq!(pats, vec![b"ALGO".to_vec()]);
}

#[test]
fn invalid_pattern_byte_is_reported() {
    // '1' cannot occur in an address (the digit alphabet is 2..7).
    let r = normalize_patterns(&vec![b"AB1C".to_vec()]);
    assert_eq!(r, Err(ConfigError::InvalidPatternByte(0, 2)));
}

#[test]
fn invalid_byte_checked_after_uppercasing() {
    let r = normalize_patterns(&vec![b"ok".to_vec(), b"a_b".to_vec()]);
    assert_eq!(r, Err(ConfigError::InvalidPatternByte(1, 1)));
}

#[test]
fn empty_pattern_set_is_rejected() {
    let r = normalize_patterns(&Vec::new());
    assert_eq!(r, Err(ConfigError::EmptyPatternSet));
}

#[test]
fn duplicate_patterns_collapse() {
    let pats = normalize_patterns(&vec![
        b"AA".to_vec(),
        b"aa".to_vec(),
        b"BB".to_vec(),
        b"AA".to_vec(),
    ])
    .unwrap();
    assert_eq!(pats, vec![b"AA".to_vec(), b"BB".to_vec()]);
}

#[test]
fn requested_thread_counts() {
    assert_eq!(resolve_thread_count(Some(0), None), Err(ConfigError::ZeroThreads));
    assert_eq!(
        resolve_thread_count(Some(MAX_THREADS + 1), None),
        Err(ConfigError::TooManyThreads(MAX_THREADS + 1))
    );
    assert_eq!(resolve_thread_count(Some(5), None), Ok(5));
    assert_eq!(resolve_thread_count(Some(MAX_THREADS), None), Ok(MAX_THREADS));
}

#[test]
fn detected_thread_counts() {
    assert_eq!(resolve_thread_count(None, Some(8)), Ok(8));
    assert_eq!(resolve_thread_count(None, Some(1000)), Ok(MAX_THREADS));
    assert_eq!(resolve_thread_count(None, Some(0)), Ok(1));
    assert_eq!(resolve_thread_count(None, None), Ok(DEFAULT_THREADS));
}

#[test]
fn placement_defaults_to_start() {
    let p = SearchPlacement::defaulted(false, false, false);
    assert!(p.start && !p.anywhere && !p.end);
    let p = SearchPlacement::defaulted(false, true, false);
    assert!(!p.start && p.anywhere && !p.end);
}

#[test]
fn placement_descriptions() {
    assert_eq!(SearchPlacement { start: false, anywhere: true, end: false }.describe(), "Anywhere");
    assert_eq!(
        SearchPlacement { start: true, anywhere: false, end: true }.describe(),
        "Start and end"
    );
    assert_eq!(SearchPlacement { start: true, anywhere: false, end: false }.describe(), "Start");
    assert_eq!(SearchPlacement { start: false, anywhere: false, end: true }.describe(), "End");
    assert_eq!(SearchPlacement { start: false, anywhere: false, end: false }.describe(), "Nowhere");
}
