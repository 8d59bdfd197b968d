//! Validation of a run's configuration: search patterns, thread count and
//! placement flags.  Everything here is checked before any worker starts;
//! a `ConfigError` aborts the run with nothing launched.

use vstd::prelude::*;
use crate::alphabet::{all_alphabet, upper_bytes, first_invalid_byte, to_upper_bytes};
use crate::{MAX_THREADS, DEFAULT_THREADS};

verus! {

/// Where a pattern must appear in an address.  At least one flag is set
/// once the configuration has been validated (`start` is the default).
#[derive(Clone, Copy, PartialEq, Eq, Structural, Debug)]
pub struct SearchPlacement {
    pub start: bool,
    pub anywhere: bool,
    pub end: bool,
}

impl SearchPlacement {
    /// The validated-placement invariant: at least one flag is set.
    pub open spec fn wf(&self) -> bool {
        self.start || self.anywhere || self.end
    }

    /// Build a placement from raw flags, defaulting to a start-only search
    /// when no flag was supplied.
    pub fn defaulted(start: bool, anywhere: bool, end: bool) -> (r: SearchPlacement)
        ensures
            r.wf(),
            (start || anywhere || end) ==> r == (SearchPlacement { start, anywhere, end }),
            !(start || anywhere || end) ==> r == (SearchPlacement {
                start: true,
                anywhere: false,
                end: false,
            }),
    {
        if start || anywhere || end {
            SearchPlacement { start, anywhere, end }
        } else {
            SearchPlacement { start: true, anywhere: false, end: false }
        }
    }

    /// A short human-readable name for the placement, as shown on the
    /// status screen.
    pub fn describe(&self) -> (r: &'static str)
        ensures
            self.anywhere ==> r@ == "Anywhere"@,
            (!self.anywhere && self.start && self.end) ==> r@ == "Start and end"@,
            (!self.anywhere && self.start && !self.end) ==> r@ == "Start"@,
            (!self.anywhere && !self.start && self.end) ==> r@ == "End"@,
            (!self.anywhere && !self.start && !self.end) ==> r@ == "Nowhere"@,
    {
        if self.anywhere {
            "Anywhere"
        } else if self.start && self.end {
            "Start and end"
        } else if self.start {
            "Start"
        } else if self.end {
            "End"
        } else {
            "Nowhere"
        }
    }
}

/// A configuration fault found before startup.
#[derive(Clone, Copy, PartialEq, Eq, Structural, Debug)]
pub enum ConfigError {
    /// Zero worker threads were requested.
    ZeroThreads,
    /// More worker threads than the supported maximum were requested.
    TooManyThreads(usize),
    /// The pattern set is empty after loading.
    EmptyPatternSet,
    /// A pattern holds a byte outside the address alphabet; the payload is
    /// the pattern's index and the offending byte's offset, both after
    /// upper-casing.
    InvalidPatternByte(usize, usize),
}

/// How many worker threads a run uses, from the requested count and the
/// detected parallelism.  An explicit request must lie between 1 and
/// `MAX_THREADS`; with no request the detected parallelism (clamped to the
/// same bounds) is used, and `DEFAULT_THREADS` when detection failed.
pub fn resolve_thread_count(requested: Option<usize>, detected: Option<usize>) -> (r: Result<
    usize,
    ConfigError,
>)
    ensures
        match r {
            Ok(t) => 1 <= t <= MAX_THREADS && match requested {
                Some(q) => t == q,
                None => match detected {
                    Some(d) => t == (if d == 0 {
                        1usize
                    } else if d > MAX_THREADS {
                        MAX_THREADS
                    } else {
                        d
                    }),
                    None => t == DEFAULT_THREADS,
                },
            },
            Err(ConfigError::ZeroThreads) => requested == Some(0usize),
            Err(ConfigError::TooManyThreads(q)) => requested == Some(q) && q > MAX_THREADS,
            Err(_) => false,
        },
{
    match requested {
        Some(q) => {
            if q == 0 {
                Err(ConfigError::ZeroThreads)
            } else if q > MAX_THREADS {
                Err(ConfigError::TooManyThreads(q))
            } else {
                Ok(q)
            }
        },
        None => {
            match detected {
                Some(d) => {
                    if d == 0 {
                        Ok(1)
                    } else if d > MAX_THREADS {
                        Ok(MAX_THREADS)
                    } else {
                        Ok(d)
                    }
                },
                None => Ok(DEFAULT_THREADS),
            }
        },
    }
}

/// Whether `s` holds no duplicate byte strings.
pub open spec fn distinct_seqs(s: Seq<Seq<u8>>) -> bool {
    forall|i: int, j: int| 0 <= i < j < s.len() ==> s[i] != s[j]
}

/// The element views of a vector of byte strings.
pub open spec fn byte_views(v: Seq<Vec<u8>>) -> Seq<Seq<u8>> {
    v.map_values(|t: Vec<u8>| t@)
}

/// Whether `needle` occurs among the views of `hay`.
pub open spec fn contains_bytes(hay: Seq<Seq<u8>>, needle: Seq<u8>) -> bool {
    exists|i: int| 0 <= i < hay.len() && hay[i] == needle
}

/// Byte-string equality.
pub fn bytes_eq(a: &Vec<u8>, b: &Vec<u8>) -> (r: bool)
    ensures
        r == (a@ == b@),
{
    if a.len() != b.len() {
        proof {
            assert(a@ != b@);
        }
        return false;
    }
    let mut i: usize = 0;
    while i < a.len()
        invariant
            a@.len() == b@.len(),
            i <= a@.len(),
            forall|j: int| 0 <= j < i ==> a@[j] == b@[j],
        decreases a.len() - i,
    {
        if a[i] != b[i] {
            proof {
                assert(a@ != b@);
            }
            return false;
        }
        i = i + 1;
    }
    proof {
        assert(a@ =~= b@);
    }
    true
}

/// A verbatim copy of a byte string.
pub fn copy_bytes(a: &Vec<u8>) -> (r: Vec<u8>)
    ensures
        r@ == a@,
{
    let mut out: Vec<u8> = Vec::new();
    let mut i: usize = 0;
    while i < a.len()
        invariant
            i <= a@.len(),
            out@ == a@.subrange(0, i as int),
        decreases a.len() - i,
    {
        out.push(a[i]);
        proof {
            assert(out@ =~= a@.subrange(0, i + 1));
        }
        i = i + 1;
    }
    proof {
        assert(out@ =~= a@);
    }
    out
}

/// Whether the views of `v` already contain `needle`'s view.
fn contains_vec(v: &Vec<Vec<u8>>, needle: &Vec<u8>) -> (r: bool)
    ensures
        r == contains_bytes(byte_views(v@), needle@),
{
    let mut i: usize = 0;
    while i < v.len()
        invariant
            i <= v@.len(),
            forall|j: int| 0 <= j < i ==> byte_views(v@)[j] != needle@,
        decreases v.len() - i,
    {
        if bytes_eq(&v[i], needle) {
            proof {
                assert(byte_views(v@)[i as int] == needle@);
            }
            return true;
        }
        i = i + 1;
    }
    false
}

/// The distinct elements of `s`, each kept at its first occurrence.
pub open spec fn dedup_first(s: Seq<Seq<u8>>) -> Seq<Seq<u8>>
    decreases s.len(),
{
    if s.len() == 0 {
        Seq::empty()
    } else {
        let pre = dedup_first(s.drop_last());
        if contains_bytes(pre, s.last()) {
            pre
        } else {
            pre.push(s.last())
        }
    }
}

/// Deduplication keeps at least one element of a non-empty sequence.
proof fn lemma_dedup_first_nonempty(s: Seq<Seq<u8>>)
    requires
        s.len() > 0,
    ensures
        dedup_first(s).len() > 0,
    decreases s.len(),
{
    if s.len() > 1 {
        lemma_dedup_first_nonempty(s.drop_last());
    }
}

/// Upper-case every raw pattern, reject an empty set and any byte outside
/// the address alphabet, and drop duplicates (the active patterns form a
/// set).  On success the result is exactly the distinct upper-cased inputs
/// in first-occurrence order, every one of them non-empty alphabet text; an
/// invalid byte is reported at the first offending pattern and offset.
pub fn normalize_patterns(raw: &Vec<Vec<u8>>) -> (r: Result<Vec<Vec<u8>>, ConfigError>)
    ensures
        match r {
            Ok(pats) => {
                &&& raw@.len() > 0
                &&& pats@.len() > 0
                &&& byte_views(pats@) == dedup_first(upper_views(raw@))
                &&& distinct_seqs(byte_views(pats@))
                &&& forall|i: int|
                    0 <= i < pats@.len() ==> all_alphabet(#[trigger] byte_views(pats@)[i])
            },
            Err(ConfigError::EmptyPatternSet) => raw@.len() == 0,
            Err(ConfigError::InvalidPatternByte(i, j)) => {
                &&& 0 <= i < raw@.len()
                &&& j < upper_views(raw@)[i as int].len()
                &&& !crate::alphabet::is_alphabet_byte(upper_views(raw@)[i as int][j as int])
                &&& forall|l: int|
                    0 <= l < j ==> crate::alphabet::is_alphabet_byte(
                        upper_views(raw@)[i as int][l],
                    )
                &&& forall|k: int| 0 <= k < i ==> all_alphabet(#[trigger] upper_views(raw@)[k])
            },
            Err(_) => false,
        },
{
    if raw.len() == 0 {
        return Err(ConfigError::EmptyPatternSet);
    }
    let mut pats: Vec<Vec<u8>> = Vec::new();
    proof {
        assert(upper_views(raw@).take(0) =~= Seq::<Seq<u8>>::empty());
        assert(byte_views(pats@) =~= Seq::<Seq<u8>>::empty());
    }
    let mut i: usize = 0;
    while i < raw.len()
        invariant
            i <= raw@.len(),
            byte_views(pats@) == dedup_first(upper_views(raw@).take(i as int)),
            distinct_seqs(byte_views(pats@)),
            forall|k: int| 0 <= k < pats@.len() ==> all_alphabet(#[trigger] byte_views(pats@)[k]),
            forall|k: int| 0 <= k < i ==> all_alphabet(#[trigger] upper_views(raw@)[k]),
        decreases raw.len() - i,
    {
        let up = to_upper_bytes(&raw[i]);
        proof {
            assert(upper_views(raw@)[i as int] == up@);
        }
        if let Some(j) = first_invalid_byte(&up) {
            return Err(ConfigError::InvalidPatternByte(i, j));
        }
        let ghost taken = upper_views(raw@).take(i + 1);
        proof {
            assert(taken.drop_last() =~= upper_views(raw@).take(i as int));
            assert(taken.last() == up@);
        }
        if !contains_vec(&pats, &up) {
            let ghost old_views = byte_views(pats@);
            pats.push(up);
            proof {
                assert(byte_views(pats@) =~= old_views.push(taken.last()));
                assert(byte_views(pats@)[old_views.len() as int] == upper_views(raw@)[i as int]);
            }
        }
        i = i + 1;
    }
    proof {
        assert(upper_views(raw@).take(i as int) =~= upper_views(raw@));
        lemma_dedup_first_nonempty(upper_views(raw@));
    }
    Ok(pats)
}

/// The upper-cased views of a vector of raw byte strings.
pub open spec fn upper_views(v: Seq<Vec<u8>>) -> Seq<Seq<u8>> {
    v.map_values(|t: Vec<u8>| upper_bytes(t@))
}

} // verus!
