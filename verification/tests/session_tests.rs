use vanity_search::config::SearchPlacement;
use vanity_search::lifecycle::LifecycleFlag;
use vanity_search::matcher::{find_vanity, AddressMatch, Placement};
use vanity_search::session::{clock_parts, handle_msg, SessionState, WorkerMsg};

fn start_only() -> SearchPlacement {
    SearchPlacement { start: true, anywhere: false, end: false }
}

fn m(target: &[u8], public: &[u8]) -> AddressMatch {
    AddressMatch {
        target: target.to_vec(),
        public: public.to_vec(),
        mnemonic: b"secret words".to_vec(),
        placement: Placement::Start,
    }
}

#[test]
fn fresh_session_is_zeroed() {
    let s = SessionState::new(vec![b"AAAA".to_vec()], 2, start_only(), true);
    assert_eq!(s.vanities, vec![b"AAAA".to_vec()]);
    assert!(s.matches.is_empty());
    assert_eq!(s.rates, vec![0, 0]);
    assert_eq!(s.search_rate, 0);
    assert_eq!(s.total_count, 0);
    assert_eq!(s.match_count, 0);
}

#[test]
fn once_mode_accepts_then_drops_duplicates() {
    // Two workers report a match for the same once-mode target before the
    // aggregator processes either: exactly one is accepted and forwarded,
    // the other is dropped without touching the match count.
    let mut s = SessionState::new(vec![b"AAAA".to_vec()], 1, start_only(), true);
    let mut flag = LifecycleFlag::new();
    let first = handle_msg(&mut s, &mut flag, WorkerMsg::AddressMatch(m(b"AAAA", b"AAAAXXXX")));
    assert!(first.is_some());
    assert_eq!(s.match_count, 1);
    let second = handle_msg(&mut s, &mut flag, WorkerMsg::AddressMatch(m(b"AAAA", b"AAAAYYYY")));
    assert!(second.is_none());
    assert_eq!(s.match_count, 1);
    // Both events stay on the log; only one was counted and persisted.
    assert_eq!(s.matches.len(), 2);
}

#[test]
fn once_mode_stops_run_when_all_targets_found() {
    let mut s = SessionState::new(vec![b"AA".to_vec(), b"BB".to_vec()], 1, start_only(), true);
    let mut flag = LifecycleFlag::new();
    handle_msg(&mut s, &mut flag, WorkerMsg::AddressMatch(m(b"AA", b"AAQQ")));
    assert!(flag.is_running());
    assert_eq!(s.vanities, vec![b"BB".to_vec()]);
    handle_msg(&mut s, &mut flag, WorkerMsg::AddressMatch(m(b"BB", b"BBQQ")));
    assert!(!flag.is_running());
    assert!(s.vanities.is_empty());
    assert_eq!(s.match_count, 2);
}

#[test]
fn multi_mode_counts_every_match() {
    let mut s = SessionState::new(vec![b"AAAA".to_vec()], 1, start_only(), false);
    let mut flag = LifecycleFlag::new();
    assert!(handle_msg(&mut s, &mut flag, WorkerMsg::AddressMatch(m(b"AAAA", b"AAAAXXXX")))
        .is_some());
    assert!(handle_msg(&mut s, &mut flag, WorkerMsg::AddressMatch(m(b"AAAA", b"AAAAYYYY")))
        .is_some());
    assert_eq!(s.match_count, 2);
    assert_eq!(s.vanities, vec![b"AAAA".to_vec()]);
    assert!(flag.is_running());
}

#[test]
fn count_event_updates_rates_exactly() {
    let mut s = SessionState::new(vec![b"AAAA".to_vec()], 1, start_only(), false);
    let mut flag = LifecycleFlag::new();
    // A 10-second cycle of 10_000 candidates is 1000 candidates per second,
    // i.e. 10^9 in millionths.
    let out = handle_msg(&mut s, &mut flag, WorkerMsg::Count(0, 10_000_000));
    assert!(out.is_none());
    assert_eq!(s.rates, vec![1_000_000_000]);
    assert_eq!(s.total_count, 10_000);
    // One smoothing step from zero keeps one twentieth of the new rate.
    assert_eq!(s.search_rate, 50_000_000);
}

#[test]
fn zero_elapsed_is_clamped_to_one_microsecond() {
    let mut s = SessionState::new(vec![b"AAAA".to_vec()], 1, start_only(), false);
    let mut flag = LifecycleFlag::new();
    handle_msg(&mut s, &mut flag, WorkerMsg::Count(0, 0));
    assert_eq!(s.rates, vec![10_000_000_000_000_000]);
    assert_eq!(s.search_rate, 500_000_000_000_000);
}

#[test]
fn smoothing_converges_on_constant_input() {
    // 200 identical 1000-candidates-per-second samples drive the smoothed
    // rate to within one part in a thousand of the instantaneous rate.
    let mut s = SessionState::new(vec![b"AAAA".to_vec()], 1, start_only(), false);
    let mut flag = LifecycleFlag::new();
    let mut prev = 0u64;
    for _ in 0..200 {
        handle_msg(&mut s, &mut flag, WorkerMsg::Count(0, 10_000_000));
        assert!(s.search_rate >= prev);
        prev = s.search_rate;
    }
    let target = 1_000_000_000u64;
    assert!(s.search_rate <= target);
    assert!(target - s.search_rate < 1_000_000);
}

#[test]
fn stub_provider_scenario_matches_second_candidate() {
    // Target "AAAA", start-only placement, once-mode, one worker.  A stub
    // key provider yields "XXXXYYYY" then "AAAABBBB": exactly one match is
    // recorded, after the second candidate, and the run stops.
    let mut s = SessionState::new(vec![b"AAAA".to_vec()], 1, start_only(), true);
    let mut flag = LifecycleFlag::new();
    let mut persisted: Vec<AddressMatch> = Vec::new();
    for (addr, mnem) in [(b"XXXXYYYY", b"mnem one"), (b"AAAABBBB", b"mnem two")] {
        let targets = s.vanities.clone();
        let events = find_vanity(&targets, &addr.to_vec(), &mnem.to_vec(), &s.placement);
        for ev in events {
            if let Some(accepted) = handle_msg(&mut s, &mut flag, WorkerMsg::AddressMatch(ev)) {
                persisted.push(accepted);
            }
        }
    }
    assert_eq!(persisted.len(), 1);
    assert_eq!(persisted[0].public, b"AAAABBBB".to_vec());
    assert_eq!(persisted[0].mnemonic, b"mnem two".to_vec());
    assert_eq!(s.match_count, 1);
    assert!(!flag.is_running());
}

#[test]
fn lifecycle_flag_only_stops() {
    let mut flag = LifecycleFlag::new();
    assert!(flag.is_running());
    flag.request_stop();
    assert!(!flag.is_running());
    flag.request_stop();
    assert!(!flag.is_running());
}

#[test]
fn clock_parts_splits_run_time() {
    assert_eq!(clock_parts(0), (0, 0, 0));
    assert_eq!(clock_parts(59), (0, 0, 59));
    assert_eq!(clock_parts(61), (0, 1, 1));
    assert_eq!(clock_parts(7322), (2, 2, 2));
}
