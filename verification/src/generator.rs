//! The candidate generator's seed schedule.
//!
//! A worker keeps a 32-byte seed and draws fresh randomness only once per
//! reseed cycle.  Within a cycle it perturbs exactly two byte positions with
//! nested counters: the outer counter bumps position `i0` once per
//! `COUNT_PER_LOOP` candidates, the inner counter bumps position `i1` for
//! every candidate, each bump adding 3 with wrap-around.  That yields
//! `COUNT_PER_LOOP * COUNT_PER_LOOP` cheaply derived seeds per fresh draw —
//! a documented approximate-randomness trade-off for throughput, not a
//! cryptographic guarantee.

use vstd::prelude::*;
use crate::COUNT_PER_LOOP;
use crate::config::{SearchPlacement, byte_views};
use crate::matcher::{AddressMatch, MatchRec, find_events, find_vanity, rec_views, rec_wf};
use crate::session::CYCLE_CANDIDATES;

verus! {

/// Length of a seed in bytes.
pub const SEED_LEN: usize = 32;

/// A byte after `n` bumps of 3 with wrap-around.
pub open spec fn bumped(b: u8, n: int) -> u8 {
    ((b + 3 * n) % 256) as u8
}

/// How often position `i` has been bumped after the outer counter ran
/// `outer` times and the inner counter `inner` times.
pub open spec fn bump_count(i: int, i0: int, i1: int, outer: int, inner: int) -> int {
    (if i == i0 {
        outer
    } else {
        0
    }) + (if i == i1 {
        inner
    } else {
        0
    })
}

/// The seed contents after `outer` outer bumps at `i0` and `inner` inner
/// bumps at `i1`.
pub open spec fn seed_state(seed0: Seq<u8>, i0: int, i1: int, outer: int, inner: int) -> Seq<u8> {
    seed0.map(|i: int, b: u8| bumped(b, bump_count(i, i0, i1, outer, inner)))
}

/// The seed that produces candidate `n` (counting from 0) of a cycle that
/// started from `seed0` with perturbation positions `i0` and `i1`: by then
/// the outer counter has run `n / COUNT_PER_LOOP + 1` times and the inner
/// counter `n + 1` times.
pub open spec fn seed_at(seed0: Seq<u8>, i0: int, i1: int, n: int) -> Seq<u8> {
    seed_state(seed0, i0, i1, n / (COUNT_PER_LOOP as int) + 1, n + 1)
}

/// One wrap-around bump of 3 advances `bumped` by one step.
proof fn lemma_bump_step(b0: u8, n: int)
    requires
        0 <= n,
    ensures
        bumped(b0, n) + 3 > 255 ==> bumped(b0, n) + 3 - 256 == bumped(b0, n + 1),
        bumped(b0, n) + 3 <= 255 ==> bumped(b0, n) + 3 == bumped(b0, n + 1),
{
    let a = b0 + 3 * n;
    assert(3 * (n + 1) == 3 * n + 3);
    assert(a >= 0);
    vstd::arithmetic::div_mod::lemma_mod_bound(a, 256);
    vstd::arithmetic::div_mod::lemma_add_mod_noop(a, 3, 256);
    assert((a % 256 + 3int % 256) % 256 == (a + 3) % 256);
    assert(3int % 256 == 3);
    let b = a % 256;
    if b + 3 <= 255 {
        vstd::arithmetic::div_mod::lemma_small_mod((b + 3) as nat, 256);
    } else {
        vstd::arithmetic::div_mod::lemma_mod_sub_multiples_vanish(b + 3, 256);
        vstd::arithmetic::div_mod::lemma_small_mod((b + 3 - 256) as nat, 256);
    }
}

/// Bump one position of the seed: add 3 with wrap-around.
fn bump(seed: &mut Vec<u8>, i: usize, seed0: Ghost<Seq<u8>>, counts: Ghost<Seq<int>>)
    requires
        i < old(seed)@.len(),
        old(seed)@.len() == seed0@.len(),
        counts@.len() == seed0@.len(),
        forall|k: int| 0 <= k < counts@.len() ==> 0 <= #[trigger] counts@[k],
        forall|k: int|
            0 <= k < seed0@.len() ==> old(seed)@[k] == bumped(seed0@[k], #[trigger] counts@[k]),
    ensures
        final(seed)@.len() == seed0@.len(),
        forall|k: int|
            0 <= k < seed0@.len() ==> final(seed)@[k] == bumped(
                seed0@[k],
                #[trigger] counts@[k] + (if k == i {
                    1int
                } else {
                    0int
                }),
            ),
{
    let b = seed[i];
    proof {
        lemma_bump_step(seed0@[i as int], counts@[i as int]);
    }
    seed[i] = b.wrapping_add(3);
}

/// All `COUNT_PER_LOOP * COUNT_PER_LOOP` candidate seeds of one reseed
/// cycle, in generation order.  The exact seed of each candidate is
/// preserved so that the secret of a reported match re-derives precisely
/// the reported address.
pub fn cycle_seeds(seed: &Vec<u8>, i0: usize, i1: usize) -> (r: Vec<Vec<u8>>)
    requires
        seed@.len() == SEED_LEN,
        i0 < SEED_LEN,
        i1 < SEED_LEN,
    ensures
        r@.len() == COUNT_PER_LOOP * COUNT_PER_LOOP,
        forall|n: int|
            0 <= n < r@.len() ==> #[trigger] byte_views(r@)[n] == seed_at(
                seed@,
                i0 as int,
                i1 as int,
                n,
            ),
{
    let c = COUNT_PER_LOOP;
    let mut cur = crate::config::copy_bytes(seed);
    let mut out: Vec<Vec<u8>> = Vec::new();
    let ghost s0 = seed@;
    let mut k: usize = 0;
    proof {
        assert forall|x: int| 0 <= x < s0.len() implies cur@[x] == bumped(
            s0[x],
            bump_count(x, i0 as int, i1 as int, 0, 0),
        ) by {
            assert(s0[x] + 3 * 0 == s0[x]);
            vstd::arithmetic::div_mod::lemma_small_mod(s0[x] as nat, 256);
        }
    }
    while k < c
        invariant
            c == COUNT_PER_LOOP,
            i0 < SEED_LEN,
            i1 < SEED_LEN,
            s0.len() == SEED_LEN,
            k <= c,
            cur@.len() == SEED_LEN,
            out@.len() == k * c,
            forall|x: int|
                0 <= x < s0.len() ==> cur@[x] == bumped(
                    s0[x],
                    bump_count(x, i0 as int, i1 as int, k as int, (k * c) as int),
                ),
            forall|n: int|
                0 <= n < out@.len() ==> #[trigger] byte_views(out@)[n] == seed_at(
                    s0,
                    i0 as int,
                    i1 as int,
                    n,
                ),
        decreases c - k,
    {
        let ghost counts0 = Seq::new(s0.len(), |x: int| bump_count(x, i0 as int, i1 as int, k as int, (k * c) as int));
        proof {
            assert(forall|x: int| 0 <= x < counts0.len() ==> 0 <= #[trigger] counts0[x])
                by (nonlinear_arith)
                requires
                    counts0 == Seq::new(s0.len(), |x: int| bump_count(x, i0 as int, i1 as int, k as int, (k * c) as int)),
                    0 <= k,
                    0 <= c,
            ;
        }
        bump(&mut cur, i0, Ghost(s0), Ghost(counts0));
        proof {
            assert forall|x: int| 0 <= x < s0.len() implies cur@[x] == bumped(
                s0[x],
                bump_count(x, i0 as int, i1 as int, k + 1, (k * c) as int),
            ) by {
                assert(counts0[x] + (if x == i0 as int { 1int } else { 0int }) == bump_count(
                    x, i0 as int, i1 as int, k + 1, (k * c) as int,
                ));
            }
        }
        let mut j: usize = 0;
        while j < c
            invariant
                c == COUNT_PER_LOOP,
                i0 < SEED_LEN,
                i1 < SEED_LEN,
                s0.len() == SEED_LEN,
                k < c,
                j <= c,
                cur@.len() == SEED_LEN,
                out@.len() == k * c + j,
                forall|x: int|
                    0 <= x < s0.len() ==> cur@[x] == bumped(
                        s0[x],
                        bump_count(x, i0 as int, i1 as int, k + 1, (k * c + j) as int),
                    ),
                forall|n: int|
                    0 <= n < out@.len() ==> #[trigger] byte_views(out@)[n] == seed_at(
                        s0,
                        i0 as int,
                        i1 as int,
                        n,
                    ),
            decreases c - j,
        {
            let ghost counts1 = Seq::new(s0.len(), |x: int| bump_count(x, i0 as int, i1 as int, k + 1, (k * c + j) as int));
            proof {
                assert(forall|x: int| 0 <= x < counts1.len() ==> 0 <= #[trigger] counts1[x]);
            }
            bump(&mut cur, i1, Ghost(s0), Ghost(counts1));
            proof {
                assert forall|x: int| 0 <= x < s0.len() implies cur@[x] == bumped(
                    s0[x],
                    bump_count(x, i0 as int, i1 as int, k + 1, (k * c + j) + 1),
                ) by {
                    assert(counts1[x] + (if x == i1 as int { 1int } else { 0int }) == bump_count(
                        x, i0 as int, i1 as int, k + 1, (k * c + j) + 1,
                    ));
                }
            }
            let ghost pre = out@;
            out.push(crate::config::copy_bytes(&cur));
            let ghost n = (k * c + j) as int;
            proof {
                assert(byte_views(out@) =~= byte_views(pre).push(cur@));
                assert(n / (c as int) == k as int) by {
                    vstd::arithmetic::div_mod::lemma_div_multiples_vanish_fancy(
                        k as int,
                        j as int,
                        c as int,
                    );
                    assert((c as int) * (k as int) == (k * c) as int) by (nonlinear_arith);
                }
                assert(cur@ =~= seed_at(s0, i0 as int, i1 as int, n)) by {
                    assert forall|x: int| 0 <= x < s0.len() implies cur@[x] == seed_at(
                        s0,
                        i0 as int,
                        i1 as int,
                        n,
                    )[x] by {
                        assert(seed_at(s0, i0 as int, i1 as int, n)[x] == bumped(
                            s0[x],
                            bump_count(x, i0 as int, i1 as int, n / (c as int) + 1, n + 1),
                        ));
                    }
                }
            }
            j = j + 1;
        }
        k = k + 1;
        proof {
            assert((k * c) as int == ((k - 1) * c + c) as int) by (nonlinear_arith);
        }
    }
    proof {
        assert(out@.len() == COUNT_PER_LOOP * COUNT_PER_LOOP) by (nonlinear_arith)
            requires
                out@.len() == k * c,
                k == c,
                c == COUNT_PER_LOOP,
        ;
    }
    out
}

/// Relies on `rand::random`: one byte drawn from the thread-local
/// generator.  Nothing is promised of its value.
#[verifier::external_body]
fn random_byte() -> u8 {
    rand::random()
}

/// Relies on `rand::random_range`: a draw from the given non-empty range
/// always lies within it.
#[verifier::external_body]
fn random_below_seed_len() -> (r: usize)
    ensures
        r < SEED_LEN,
{
    rand::random_range(0..SEED_LEN)
}

/// A fresh fully random seed, drawn byte by byte.
pub fn random_seed() -> (r: Vec<u8>)
    ensures
        r@.len() == SEED_LEN,
{
    let mut s: Vec<u8> = Vec::new();
    let mut i: usize = 0;
    while i < SEED_LEN
        invariant
            s@.len() == i,
            i <= SEED_LEN,
        decreases SEED_LEN - i,
    {
        s.push(random_byte());
        i = i + 1;
    }
    s
}

/// A fresh perturbation position for a reseed cycle.
pub fn random_seed_index() -> (r: usize)
    ensures
        r < SEED_LEN,
{
    random_below_seed_len()
}


/// The encoded public address that the key provider derives from a seed.
/// The derivation is deterministic: the result depends on the seed alone.
pub uninterp spec fn address_of(seed: Seq<u8>) -> Seq<u8>;

/// The recovery mnemonic that the key provider derives from a seed, the
/// secret material that re-derives the keypair.  Deterministic in the seed.
pub uninterp spec fn mnemonic_of(seed: Seq<u8>) -> Seq<u8>;

/// Relies on `algo_rust_sdk::account::Account`: `from_seed` builds the
/// keypair from the 32-byte seed alone, `address().encode_string()` encodes
/// its public address and `mnemonic()` its recovery phrase, all
/// deterministically and without panicking on a 32-byte seed.
#[verifier::external_body]
fn derive_from_seed(seed: &Vec<u8>) -> (r: (Vec<u8>, Vec<u8>))
    requires
        seed@.len() == SEED_LEN,
    ensures
        r.0@ == address_of(seed@),
        r.1@ == mnemonic_of(seed@),
{
    let mut arr = [0u8; 32];
    arr.copy_from_slice(seed.as_slice());
    let acc = algo_rust_sdk::account::Account::from_seed(arr);
    (acc.address().encode_string().into_bytes(), acc.mnemonic().into_bytes())
}

/// Derive one candidate: the address and secret material of a seed.
pub fn candidate_for_seed(seed: &Vec<u8>) -> (r: (Vec<u8>, Vec<u8>))
    requires
        seed@.len() == SEED_LEN,
    ensures
        r.0@ == address_of(seed@),
        r.1@ == mnemonic_of(seed@),
{
    derive_from_seed(seed)
}

/// Every match event of the first `n` candidates of a cycle, in generation
/// order: for each scheduled seed, the matcher's events for the address and
/// mnemonic derived from exactly that seed.
pub open spec fn cycle_events(
    ts: Seq<Seq<u8>>,
    seed0: Seq<u8>,
    i0: int,
    i1: int,
    pl: SearchPlacement,
    n: int,
) -> Seq<MatchRec>
    decreases n,
{
    if n <= 0 {
        Seq::empty()
    } else {
        cycle_events(ts, seed0, i0, i1, pl, n - 1) + find_events(
            ts,
            address_of(seed_at(seed0, i0, i1, n - 1)),
            mnemonic_of(seed_at(seed0, i0, i1, n - 1)),
            pl,
        )
    }
}

/// Run one whole reseed cycle: derive all `CYCLE_CANDIDATES` candidates on
/// the perturbation schedule, match each one, and return every event in
/// generation order together with the number of candidates checked.
pub fn run_cycle(
    seed: &Vec<u8>,
    i0: usize,
    i1: usize,
    targets: &Vec<Vec<u8>>,
    placement: &SearchPlacement,
) -> (r: (Vec<AddressMatch>, u64))
    requires
        seed@.len() == SEED_LEN,
        i0 < SEED_LEN,
        i1 < SEED_LEN,
    ensures
        r.1 == CYCLE_CANDIDATES,
        rec_views(r.0@) == cycle_events(
            byte_views(targets@),
            seed@,
            i0 as int,
            i1 as int,
            *placement,
            CYCLE_CANDIDATES as int,
        ),
        forall|k: int| 0 <= k < r.0@.len() ==> rec_wf(#[trigger] rec_views(r.0@)[k]),
{
    let ghost ts = byte_views(targets@);
    let seeds = cycle_seeds(seed, i0, i1);
    let mut out: Vec<AddressMatch> = Vec::new();
    let mut k: usize = 0;
    proof {
        assert(rec_views(out@) =~= Seq::<MatchRec>::empty());
    }
    while k < seeds.len()
        invariant
            seed@.len() == SEED_LEN,
            i0 < SEED_LEN,
            i1 < SEED_LEN,
            ts == byte_views(targets@),
            k <= seeds@.len(),
            seeds@.len() == COUNT_PER_LOOP * COUNT_PER_LOOP,
            forall|n: int|
                0 <= n < seeds@.len() ==> #[trigger] byte_views(seeds@)[n] == seed_at(
                    seed@,
                    i0 as int,
                    i1 as int,
                    n,
                ),
            rec_views(out@) == cycle_events(ts, seed@, i0 as int, i1 as int, *placement, k as int),
            forall|j: int| 0 <= j < out@.len() ==> rec_wf(#[trigger] rec_views(out@)[j]),
        decreases seeds.len() - k,
    {
        let candidate_seed = &seeds[k];
        proof {
            assert(byte_views(seeds@)[k as int] == candidate_seed@);
            assert(candidate_seed@.len() == SEED_LEN);
        }
        let (address, mnemonic) = derive_from_seed(candidate_seed);
        let mut evs = find_vanity(targets, &address, &mnemonic, placement);
        let ghost pre = rec_views(out@);
        let ghost evs_views = rec_views(evs@);
        out.append(&mut evs);
        proof {
            assert(rec_views(out@) =~= pre + evs_views);
            assert(rec_views(out@) =~= cycle_events(
                ts,
                seed@,
                i0 as int,
                i1 as int,
                *placement,
                k + 1,
            ));
        }
        k = k + 1;
    }
    (out, CYCLE_CANDIDATES)
}

} // verus!
