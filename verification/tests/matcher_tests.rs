use vanity_search::config::SearchPlacement;
use vanity_search::matcher::{find_vanity, find_first, highlight_bounds, AddressMatch, Placement};

fn pl(start: bool, anywhere: bool, end: bool) -> SearchPlacement {
    SearchPlacement { start, anywhere, end }
}

fn targets(ts: &[&[u8]]) -> Vec<Vec<u8>> {
    ts.iter().map(|t| t.to_vec()).collect()
}

#[test]
fn start_fires_on_prefix() {
    let r = find_vanity(
        &targets(&[b"AAAA"]),
        &b"AAAABBBB".to_vec(),
        &b"m".to_vec(),
        &pl(true, false, false),
    );
    assert_eq!(r.len(), 1);
    assert_eq!(r[0].target, b"AAAA".to_vec());
    assert_eq!(r[0].public, b"AAAABBBB".to_vec());
    assert_eq!(r[0].mnemonic, b"m".to_vec());
    assert_eq!(r[0].placement, Placement::Start);
}

#[test]
fn start_does_not_fire_without_prefix() {
    let r = find_vanity(
        &targets(&[b"AAAA"]),
        &b"XAAAABBB".to_vec(),
        &b"m".to_vec(),
        &pl(true, false, false),
    );
    assert!(r.is_empty());
}

#[test]
fn end_fires_on_suffix() {
    let r = find_vanity(
        &targets(&[b"ZZ"]),
        &b"QQQQZZ".to_vec(),
        &b"m".to_vec(),
        &pl(false, false, true),
    );
    assert_eq!(r.len(), 1);
    assert_eq!(r[0].placement, Placement::End);
}

#[test]
fn anywhere_reports_lowest_index() {
    let r = find_vanity(
        &targets(&[b"BB"]),
        &b"ABBBC".to_vec(),
        &b"m".to_vec(),
        &pl(false, true, false),
    );
    assert_eq!(r.len(), 1);
    assert_eq!(r[0].placement, Placement::Anywhere(1));
}

#[test]
fn anywhere_absent_when_target_missing() {
    let r = find_vanity(
        &targets(&[b"XYZ"]),
        &b"ABCDEF".to_vec(),
        &b"m".to_vec(),
        &pl(false, true, false),
    );
    assert!(r.is_empty());
}

#[test]
fn both_ends_fire_exactly_two_and_no_anywhere() {
    // The candidate both starts and ends with the target and anywhere is
    // set: exactly Start and End fire, never Anywhere.
    let r = find_vanity(
        &targets(&[b"AB"]),
        &b"ABCCAB".to_vec(),
        &b"m".to_vec(),
        &pl(true, true, true),
    );
    assert_eq!(r.len(), 2);
    assert_eq!(r[0].placement, Placement::Start);
    assert_eq!(r[1].placement, Placement::End);
}

#[test]
fn anywhere_suppressed_when_start_fired() {
    let r = find_vanity(
        &targets(&[b"AA"]),
        &b"AAXAB".to_vec(),
        &b"m".to_vec(),
        &pl(true, true, false),
    );
    assert_eq!(r.len(), 1);
    assert_eq!(r[0].placement, Placement::Start);
}

#[test]
fn multiple_targets_in_order() {
    let r = find_vanity(
        &targets(&[b"CC", b"AA"]),
        &b"AACC".to_vec(),
        &b"m".to_vec(),
        &pl(true, true, true),
    );
    assert_eq!(r.len(), 2);
    assert_eq!(r[0].target, b"CC".to_vec());
    assert_eq!(r[0].placement, Placement::End);
    assert_eq!(r[1].target, b"AA".to_vec());
    assert_eq!(r[1].placement, Placement::Start);
}

#[test]
fn find_first_scans_from_left() {
    assert_eq!(find_first(&b"AB".to_vec(), &b"XXABAB".to_vec()), Some(2));
    assert_eq!(find_first(&b"AB".to_vec(), &b"XXX".to_vec()), None);
    assert_eq!(find_first(&b"".to_vec(), &b"XYZ".to_vec()), Some(0));
}

#[test]
fn highlight_bounds_per_placement() {
    let m = AddressMatch {
        target: b"AB".to_vec(),
        public: b"ABCDEF".to_vec(),
        mnemonic: b"m".to_vec(),
        placement: Placement::Start,
    };
    assert_eq!(highlight_bounds(&m), (0, 2));
    let m = AddressMatch { placement: Placement::Anywhere(3), ..m };
    assert_eq!(highlight_bounds(&m), (3, 5));
    let m = AddressMatch { placement: Placement::End, ..m };
    assert_eq!(highlight_bounds(&m), (4, 6));
}
