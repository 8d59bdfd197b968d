use vanity_search::config::SearchPlacement;
use vanity_search::generator::{candidate_for_seed, cycle_seeds, random_seed, random_seed_index, run_cycle};
use vanity_search::matcher::Placement;

#[test]
fn cycle_yields_ten_thousand_seeds() {
    let seed = vec![0u8; 32];
    let seeds = cycle_seeds(&seed, 0, 1);
    assert_eq!(seeds.len(), 10_000);
    assert!(seeds.iter().all(|s| s.len() == 32));
}

#[test]
fn first_candidate_bumps_both_positions_once() {
    let seed = vec![0u8; 32];
    let seeds = cycle_seeds(&seed, 0, 1);
    let mut expected = vec![0u8; 32];
    expected[0] = 3;
    expected[1] = 3;
    assert_eq!(seeds[0], expected);
}

#[test]
fn inner_counter_bumps_every_candidate() {
    let seed = vec![0u8; 32];
    let seeds = cycle_seeds(&seed, 0, 1);
    // Candidate 1: outer still bumped once, inner bumped twice.
    assert_eq!(seeds[1][0], 3);
    assert_eq!(seeds[1][1], 6);
    // Candidate 99: last of the first outer pass; inner wrapped mod 256.
    assert_eq!(seeds[99][0], 3);
    assert_eq!(seeds[99][1], ((3u32 * 100) % 256) as u8);
    // Candidate 100: outer bumped twice, inner bumped 101 times.
    assert_eq!(seeds[100][0], 6);
    assert_eq!(seeds[100][1], ((3u32 * 101) % 256) as u8);
}

#[test]
fn other_positions_never_change() {
    let seed: Vec<u8> = (0u8..32u8).collect();
    let seeds = cycle_seeds(&seed, 4, 9);
    for n in [0usize, 1, 57, 100, 9999] {
        for i in 0..32 {
            if i != 4 && i != 9 {
                assert_eq!(seeds[n][i], seed[i]);
            }
        }
    }
}

#[test]
fn coinciding_positions_accumulate_both_counters() {
    let seed = vec![0u8; 32];
    let seeds = cycle_seeds(&seed, 5, 5);
    // Candidate 0: one outer and one inner bump on the same byte.
    assert_eq!(seeds[0][5], 6);
    // Candidate 1: one outer and two inner bumps.
    assert_eq!(seeds[1][5], 9);
}

#[test]
fn schedule_is_deterministic() {
    let seed: Vec<u8> = (100u8..132u8).collect();
    assert_eq!(cycle_seeds(&seed, 7, 20), cycle_seeds(&seed, 7, 20));
}

#[test]
fn random_seed_has_full_length() {
    assert_eq!(random_seed().len(), 32);
}

#[test]
fn random_index_is_in_range() {
    for _ in 0..100 {
        assert!(random_seed_index() < 32);
    }
}

fn anywhere_only() -> SearchPlacement {
    SearchPlacement { start: false, anywhere: true, end: false }
}

#[test]
fn derivation_is_deterministic() {
    let seed = vec![7u8; 32];
    let (addr1, mnem1) = candidate_for_seed(&seed);
    let (addr2, mnem2) = candidate_for_seed(&seed);
    assert_eq!(addr1, addr2);
    assert_eq!(mnem1, mnem2);
}

#[test]
fn derived_address_is_alphabet_text() {
    let (addr, mnem) = candidate_for_seed(&vec![1u8; 32]);
    assert_eq!(addr.len(), 58);
    assert!(addr.iter().all(|&b| (b'A'..=b'Z').contains(&b) || (b'2'..=b'7').contains(&b)));
    // The recovery phrase is a sequence of lower-case words.
    assert!(mnem.contains(&b' '));
}

#[test]
fn different_seeds_derive_different_addresses() {
    let (a1, _) = candidate_for_seed(&vec![1u8; 32]);
    let (a2, _) = candidate_for_seed(&vec![2u8; 32]);
    assert_ne!(a1, a2);
}

#[test]
fn cycle_checks_ten_thousand_candidates() {
    let seed = vec![0u8; 32];
    // A target outside the address alphabet can never match a derived
    // address.
    let (events, count) = run_cycle(&seed, 0, 1, &vec![vec![3u8]], &anywhere_only());
    assert_eq!(count, 10_000);
    assert!(events.is_empty());
}

#[test]
fn cycle_events_are_consistent_matches() {
    let seed = vec![9u8; 32];
    let target = b"A".to_vec();
    let (events, _) = run_cycle(&seed, 2, 3, &vec![target.clone()], &anywhere_only());
    for ev in &events {
        assert_eq!(ev.target, target);
        assert_eq!(ev.public.len(), 58);
        match ev.placement {
            Placement::Anywhere(i) => {
                assert_eq!(ev.public[i], b'A');
                // Lowest occurrence: no 'A' before the reported offset.
                assert!(ev.public[..i].iter().all(|&b| b != b'A'));
            }
            _ => panic!("anywhere-only search fired a non-anywhere event"),
        }
    }
}
