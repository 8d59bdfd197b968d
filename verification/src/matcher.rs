//! The pure matcher: testing one candidate address against the target list
//! and the placement policy, yielding zero or more match events.
//!
//! For each target independently: a `Start` event fires exactly when the
//! search includes the start and the address is prefixed by the target, an
//! `End` event exactly when the search includes the end and the address is
//! suffixed by it (both may fire for the same target), and only when neither
//! fired an `Anywhere` event with the lowest occurrence index.

use vstd::prelude::*;
use crate::config::{SearchPlacement, byte_views, copy_bytes};

verus! {

/// Where a pattern matched inside an address.  The offset is only
/// constructible alongside `Anywhere`, so an invalid combination of
/// placement and offset cannot be represented.
#[derive(Clone, Copy, PartialEq, Eq, Structural, Debug)]
pub enum Placement {
    Start,
    Anywhere(usize),
    End,
}

/// One accepted pairing of a target with a candidate address, together with
/// the secret material that re-derives it.  Immutable once created; the unit
/// of persistence.
#[derive(Clone, PartialEq, Eq, Debug)]
pub struct AddressMatch {
    pub target: Vec<u8>,
    pub public: Vec<u8>,
    pub mnemonic: Vec<u8>,
    pub placement: Placement,
}

/// The mathematical value of an `AddressMatch`.
pub ghost struct MatchRec {
    pub target: Seq<u8>,
    pub public: Seq<u8>,
    pub mnemonic: Seq<u8>,
    pub placement: Placement,
}

impl View for AddressMatch {
    type V = MatchRec;

    open spec fn view(&self) -> MatchRec {
        MatchRec {
            target: self.target@,
            public: self.public@,
            mnemonic: self.mnemonic@,
            placement: self.placement,
        }
    }
}

impl AddressMatch {
    /// A verbatim copy with the same mathematical value.
    pub fn duplicate(&self) -> (r: AddressMatch)
        ensures
            r@ == self@,
    {
        AddressMatch {
            target: copy_bytes(&self.target),
            public: copy_bytes(&self.public),
            mnemonic: copy_bytes(&self.mnemonic),
            placement: self.placement,
        }
    }
}

/// A match record whose placement is consistent with its strings: the
/// matched span lies inside the address.
pub open spec fn rec_wf(r: MatchRec) -> bool {
    match r.placement {
        Placement::Start => r.target.len() <= r.public.len(),
        Placement::End => r.target.len() <= r.public.len(),
        Placement::Anywhere(i) => i + r.target.len() <= r.public.len(),
    }
}

/// The element views of a vector of matches.
pub open spec fn rec_views(v: Seq<AddressMatch>) -> Seq<MatchRec> {
    v.map_values(|x: AddressMatch| x@)
}

/// Whether `t` is a prefix of `a`.
pub open spec fn is_prefix_of(t: Seq<u8>, a: Seq<u8>) -> bool {
    t.len() <= a.len() && a.subrange(0, t.len() as int) == t
}

/// Whether `t` is a suffix of `a`.
pub open spec fn is_suffix_of(t: Seq<u8>, a: Seq<u8>) -> bool {
    t.len() <= a.len() && a.subrange(a.len() - t.len(), a.len() as int) == t
}

/// Whether `t` occurs in `a` starting at index `i`.
pub open spec fn occurs_at(t: Seq<u8>, a: Seq<u8>, i: int) -> bool {
    0 <= i && i + t.len() <= a.len() && a.subrange(i, i + t.len()) == t
}

/// Whether `t` occurs anywhere in `a`.
pub open spec fn occurs_in(t: Seq<u8>, a: Seq<u8>) -> bool {
    exists|i: int| occurs_at(t, a, i)
}

/// Whether `i` is the lowest index at which `t` occurs in `a`.
pub open spec fn is_first_occurrence(t: Seq<u8>, a: Seq<u8>, i: int) -> bool {
    occurs_at(t, a, i) && forall|j: int| 0 <= j < i ==> !occurs_at(t, a, j)
}

/// The lowest index at which `t` occurs in `a`; meaningful only when
/// `occurs_in(t, a)` holds.
pub open spec fn first_occurrence(t: Seq<u8>, a: Seq<u8>) -> int {
    choose|i: int| is_first_occurrence(t, a, i)
}

/// The `Start` event for a target and candidate.
pub open spec fn start_rec(t: Seq<u8>, a: Seq<u8>, m: Seq<u8>) -> MatchRec {
    MatchRec { target: t, public: a, mnemonic: m, placement: Placement::Start }
}

/// The `End` event for a target and candidate.
pub open spec fn end_rec(t: Seq<u8>, a: Seq<u8>, m: Seq<u8>) -> MatchRec {
    MatchRec { target: t, public: a, mnemonic: m, placement: Placement::End }
}

/// The `Anywhere` event at offset `i` for a target and candidate.
pub open spec fn anywhere_rec(t: Seq<u8>, a: Seq<u8>, m: Seq<u8>, i: int) -> MatchRec {
    MatchRec { target: t, public: a, mnemonic: m, placement: Placement::Anywhere(i as usize) }
}

/// The events the matcher yields for one target: the prefix and suffix
/// checks fire independently, and only when neither fired the first
/// occurrence anywhere in the address is reported.
pub open spec fn events_for_target(t: Seq<u8>, a: Seq<u8>, m: Seq<u8>, pl: SearchPlacement) -> Seq<
    MatchRec,
> {
    let s: Seq<MatchRec> = if pl.start && is_prefix_of(t, a) {
        seq![start_rec(t, a, m)]
    } else {
        Seq::empty()
    };
    let e: Seq<MatchRec> = if pl.end && is_suffix_of(t, a) {
        seq![end_rec(t, a, m)]
    } else {
        Seq::empty()
    };
    let w: Seq<MatchRec> = if s.len() == 0 && e.len() == 0 && pl.anywhere && occurs_in(t, a) {
        seq![anywhere_rec(t, a, m, first_occurrence(t, a))]
    } else {
        Seq::empty()
    };
    s + e + w
}

/// The events the matcher yields for a whole target list, in target order.
pub open spec fn find_events(ts: Seq<Seq<u8>>, a: Seq<u8>, m: Seq<u8>, pl: SearchPlacement) -> Seq<
    MatchRec,
>
    decreases ts.len(),
{
    if ts.len() == 0 {
        Seq::empty()
    } else {
        events_for_target(ts[0], a, m, pl) + find_events(ts.drop_first(), a, m, pl)
    }
}

/// Whether `t` occurs in `a` at exactly index `i`, decided by comparing the
/// bytes of the window starting at `i`.
fn eq_at(t: &Vec<u8>, a: &Vec<u8>, i: usize) -> (r: bool)
    requires
        i + t@.len() <= a@.len(),
    ensures
        r == occurs_at(t@, a@, i as int),
{
    let alen: usize = a.len();
    let mut k: usize = 0;
    while k < t.len()
        invariant
            a@.len() == alen,
            i + t@.len() <= a@.len(),
            k <= t@.len(),
            forall|j: int| 0 <= j < k ==> a@[i + j] == t@[j],
        decreases t.len() - k,
    {
        let idx: usize = i + k;
        if a[idx] != t[k] {
            proof {
                assert(a@.subrange(i as int, i + t@.len())[k as int] != t@[k as int]);
            }
            return false;
        }
        k = k + 1;
    }
    proof {
        assert(a@.subrange(i as int, i + t@.len()) =~= t@);
    }
    true
}

/// Whether the address is prefixed by the target.
pub fn is_prefix(t: &Vec<u8>, a: &Vec<u8>) -> (r: bool)
    ensures
        r == is_prefix_of(t@, a@),
{
    if t.len() > a.len() {
        false
    } else {
        eq_at(t, a, 0)
    }
}

/// Whether the address is suffixed by the target.
pub fn is_suffix(t: &Vec<u8>, a: &Vec<u8>) -> (r: bool)
    ensures
        r == is_suffix_of(t@, a@),
{
    if t.len() > a.len() {
        false
    } else {
        eq_at(t, a, a.len() - t.len())
    }
}

/// The lowest index at which the target occurs in the address, if any.
pub fn find_first(t: &Vec<u8>, a: &Vec<u8>) -> (r: Option<usize>)
    ensures
        match r {
            Some(i) => is_first_occurrence(t@, a@, i as int),
            None => !occurs_in(t@, a@),
        },
{
    if t.len() > a.len() {
        proof {
            assert(forall|i: int| !occurs_at(t@, a@, i));
        }
        return None;
    }
    let last = a.len() - t.len();
    let mut i: usize = 0;
    loop
        invariant
            t@.len() <= a@.len(),
            last == a@.len() - t@.len(),
            i <= last,
            forall|j: int| 0 <= j < i ==> !occurs_at(t@, a@, j),
        decreases last - i,
    {
        if eq_at(t, a, i) {
            return Some(i);
        }
        if i == last {
            proof {
                assert forall|j: int| !occurs_at(t@, a@, j) by {
                    if 0 <= j <= last {
                    } else if j > last {
                        assert(j + t@.len() > a@.len());
                    }
                }
            }
            return None;
        }
        i = i + 1;
    }
}

/// Run the matcher for one candidate: every event for every target, in
/// target order.  Each returned record carries the candidate's address and
/// secret material verbatim, and its placement span lies inside the address.
pub fn find_vanity(
    targets: &Vec<Vec<u8>>,
    address: &Vec<u8>,
    mnemonic: &Vec<u8>,
    placement: &SearchPlacement,
) -> (r: Vec<AddressMatch>)
    ensures
        rec_views(r@) == find_events(byte_views(targets@), address@, mnemonic@, *placement),
        forall|k: int| 0 <= k < r@.len() ==> rec_wf(#[trigger] rec_views(r@)[k]),
{
    let ghost ts = byte_views(targets@);
    let mut r: Vec<AddressMatch> = Vec::new();
    proof {
        assert(ts.skip(0) =~= ts);
        assert(rec_views(r@) =~= Seq::<MatchRec>::empty());
        assert(Seq::<MatchRec>::empty() + find_events(ts, address@, mnemonic@, *placement)
            =~= find_events(ts, address@, mnemonic@, *placement));
    }
    let mut n: usize = 0;
    while n < targets.len()
        invariant
            n <= targets@.len(),
            ts == byte_views(targets@),
            rec_views(r@) + find_events(ts.skip(n as int), address@, mnemonic@, *placement)
                == find_events(ts, address@, mnemonic@, *placement),
            forall|k: int| 0 <= k < r@.len() ==> rec_wf(#[trigger] rec_views(r@)[k]),
        decreases targets.len() - n,
    {
        let t = &targets[n];
        let ghost pre = rec_views(r@);
        let mut fired = false;
        if placement.start && is_prefix(t, address) {
            r.push(
                AddressMatch {
                    target: copy_bytes(t),
                    public: copy_bytes(address),
                    mnemonic: copy_bytes(mnemonic),
                    placement: Placement::Start,
                },
            );
            fired = true;
        }
        if placement.end && is_suffix(t, address) {
            r.push(
                AddressMatch {
                    target: copy_bytes(t),
                    public: copy_bytes(address),
                    mnemonic: copy_bytes(mnemonic),
                    placement: Placement::End,
                },
            );
            fired = true;
        }
        if !fired && placement.anywhere {
            if let Some(idx) = find_first(t, address) {
                proof {
                    lemma_first_occurrence_unique(t@, address@, idx as int);
                }
                r.push(
                    AddressMatch {
                        target: copy_bytes(t),
                        public: copy_bytes(address),
                        mnemonic: copy_bytes(mnemonic),
                        placement: Placement::Anywhere(idx),
                    },
                );
            }
        }
        proof {
            assert(ts.skip(n as int)[0] == ts[n as int]);
            assert(ts.skip(n as int).drop_first() =~= ts.skip(n + 1));
            assert(rec_views(r@) =~= pre + events_for_target(
                ts[n as int],
                address@,
                mnemonic@,
                *placement,
            ));
            assert(rec_views(r@) + find_events(ts.skip(n + 1), address@, mnemonic@, *placement)
                =~= find_events(ts, address@, mnemonic@, *placement));
        }
        n = n + 1;
    }
    proof {
        assert(ts.skip(n as int) =~= Seq::<Seq<u8>>::empty());
        assert(rec_views(r@) =~= find_events(ts, address@, mnemonic@, *placement));
    }
    r
}

/// The lowest occurrence index is unique, so `first_occurrence` returns the
/// one witnessed index.
pub proof fn lemma_first_occurrence_unique(t: Seq<u8>, a: Seq<u8>, i: int)
    requires
        is_first_occurrence(t, a, i),
    ensures
        first_occurrence(t, a) == i,
{
    let j = choose|j: int| is_first_occurrence(t, a, j);
    assert(occurs_in(t, a));
    assert(is_first_occurrence(t, a, j));
    if j < i {
        assert(!occurs_at(t, a, j));
    }
    if i < j {
        assert(!occurs_at(t, a, i));
    }
}

/// Every occurrence has a lowest occurrence below or at it.
pub proof fn lemma_exists_first_occurrence(t: Seq<u8>, a: Seq<u8>, w: int)
    requires
        occurs_at(t, a, w),
    ensures
        exists|i: int| is_first_occurrence(t, a, i),
    decreases w,
{
    if forall|j: int| 0 <= j < w ==> !occurs_at(t, a, j) {
        assert(is_first_occurrence(t, a, w));
    } else {
        let j = choose|j: int| 0 <= j < w && occurs_at(t, a, j);
        lemma_exists_first_occurrence(t, a, j);
    }
}

/// LAW: when the placement includes the start, the matcher fires a `Start`
/// event for a target exactly when the candidate is prefixed by it.
pub proof fn lemma_start_fires_iff_prefix(t: Seq<u8>, a: Seq<u8>, m: Seq<u8>, pl: SearchPlacement)
    requires
        pl.start,
    ensures
        events_for_target(t, a, m, pl).contains(start_rec(t, a, m)) <==> is_prefix_of(t, a),
{
    let evs = events_for_target(t, a, m, pl);
    if is_prefix_of(t, a) {
        assert(evs[0] == start_rec(t, a, m));
    } else {
        assert forall|k: int| 0 <= k < evs.len() implies evs[k] != start_rec(t, a, m) by {
            assert(evs[k].placement != Placement::Start);
        }
    }
}

/// LAW: when the placement includes the end, the matcher fires an `End`
/// event for a target exactly when the candidate is suffixed by it.
pub proof fn lemma_end_fires_iff_suffix(t: Seq<u8>, a: Seq<u8>, m: Seq<u8>, pl: SearchPlacement)
    requires
        pl.end,
    ensures
        events_for_target(t, a, m, pl).contains(end_rec(t, a, m)) <==> is_suffix_of(t, a),
{
    let evs = events_for_target(t, a, m, pl);
    if is_suffix_of(t, a) {
        if pl.start && is_prefix_of(t, a) {
            assert(evs[1] == end_rec(t, a, m));
        } else {
            assert(evs[0] == end_rec(t, a, m));
        }
    } else {
        assert forall|k: int| 0 <= k < evs.len() implies evs[k] != end_rec(t, a, m) by {
            assert(evs[k].placement != Placement::End);
        }
    }
}

/// LAW: with only the anywhere flag set, the matcher fires `Anywhere(i)` for
/// a target exactly when the target occurs in the candidate and `i` is the
/// lowest occurrence index.
pub proof fn lemma_anywhere_fires_iff_first_occurrence(
    t: Seq<u8>,
    a: Seq<u8>,
    m: Seq<u8>,
    pl: SearchPlacement,
    i: int,
)
    requires
        pl.anywhere,
        !pl.start,
        !pl.end,
        a.len() <= usize::MAX,
        0 <= i <= usize::MAX,
    ensures
        events_for_target(t, a, m, pl).contains(anywhere_rec(t, a, m, i)) <==> is_first_occurrence(
            t,
            a,
            i,
        ),
{
    let evs = events_for_target(t, a, m, pl);
    if is_first_occurrence(t, a, i) {
        lemma_first_occurrence_unique(t, a, i);
        assert(occurs_in(t, a));
        assert(evs[0] == anywhere_rec(t, a, m, i));
    }
    if evs.contains(anywhere_rec(t, a, m, i)) {
        assert(occurs_in(t, a));
        let w = choose|w: int| occurs_at(t, a, w);
        lemma_exists_first_occurrence(t, a, w);
        let f = first_occurrence(t, a);
        assert(is_first_occurrence(t, a, f));
        assert(evs[0] == anywhere_rec(t, a, m, f));
        assert(anywhere_rec(t, a, m, f) == anywhere_rec(t, a, m, i));
        assert(f as usize as int == f);
        assert(f == i);
    }
}

/// LAW: when a candidate is both prefixed and suffixed by a target and every
/// placement flag is set, exactly the two events `Start` and `End` fire for
/// that target, and never an `Anywhere` event.
pub proof fn lemma_both_ends_exactly_two(t: Seq<u8>, a: Seq<u8>, m: Seq<u8>, pl: SearchPlacement)
    requires
        pl.start,
        pl.end,
        pl.anywhere,
        is_prefix_of(t, a),
        is_suffix_of(t, a),
    ensures
        events_for_target(t, a, m, pl) == seq![start_rec(t, a, m), end_rec(t, a, m)],
        forall|k: int|
            0 <= k < events_for_target(t, a, m, pl).len() ==> (events_for_target(t, a, m, pl)[k].placement
                == Placement::Start || events_for_target(t, a, m, pl)[k].placement
                == Placement::End),
{
    assert(events_for_target(t, a, m, pl) =~= seq![start_rec(t, a, m), end_rec(t, a, m)]);
}


/// The byte span `[start, end)` of the matched target inside the address,
/// as highlighted on a status display.
pub fn highlight_bounds(m: &AddressMatch) -> (r: (usize, usize))
    requires
        rec_wf(m@),
    ensures
        r.0 <= r.1 <= m@.public.len(),
        r.1 - r.0 == m@.target.len(),
        match m@.placement {
            Placement::Start => r.0 == 0,
            Placement::Anywhere(i) => r.0 == i,
            Placement::End => r.1 == m@.public.len(),
        },
{
    let plen = m.public.len();
    let tlen = m.target.len();
    match m.placement {
        Placement::Start => (0, tlen),
        Placement::Anywhere(i) => (i, i + tlen),
        Placement::End => (plen - tlen, plen),
    }
}

} // verus!
