//! The 32-symbol address alphabet and byte-level case normalization.
//!
//! Addresses are encoded over the upper-case base-32 alphabet
//! `A`..`Z` and `2`..`7`; patterns are normalized to upper case and must use
//! only these symbols.

use vstd::prelude::*;

verus! {

/// Whether `b` is one of the 32 symbols that can occur in an encoded address:
/// an upper-case letter or a digit `2`..`7`.
pub open spec fn is_alphabet_byte(b: u8) -> bool {
    (65 <= b && b <= 90) || (50 <= b && b <= 55)
}

/// Upper-casing of a single ASCII byte: lower-case letters are shifted to
/// upper case, every other byte is left alone.
pub open spec fn upper_byte(b: u8) -> u8 {
    if 97 <= b && b <= 122 {
        (b - 32) as u8
    } else {
        b
    }
}

/// A byte string with every ASCII letter upper-cased.
pub open spec fn upper_bytes(s: Seq<u8>) -> Seq<u8> {
    s.map_values(|b: u8| upper_byte(b))
}

/// Whether every byte of `s` lies in the address alphabet.
pub open spec fn all_alphabet(s: Seq<u8>) -> bool {
    forall|i: int| 0 <= i < s.len() ==> is_alphabet_byte(#[trigger] s[i])
}

/// Decide membership in the address alphabet.
pub fn alphabet_byte(b: u8) -> (r: bool)
    ensures
        r == is_alphabet_byte(b),
{
    (65 <= b && b <= 90) || (50 <= b && b <= 55)
}

/// Upper-case one ASCII byte.
pub fn to_upper_byte(b: u8) -> (r: u8)
    ensures
        r == upper_byte(b),
{
    if 97 <= b && b <= 122 {
        b - 32
    } else {
        b
    }
}

/// Upper-case a whole byte string.
pub fn to_upper_bytes(s: &Vec<u8>) -> (r: Vec<u8>)
    ensures
        r@ == upper_bytes(s@),
{
    let mut out: Vec<u8> = Vec::new();
    let mut i: usize = 0;
    while i < s.len()
        invariant
            i <= s.len(),
            out@.len() == i,
            forall|j: int| 0 <= j < i ==> out@[j] == upper_byte(#[trigger] s@[j]),
        decreases s.len() - i,
    {
        out.push(to_upper_byte(s[i]));
        i = i + 1;
    }
    proof {
        assert(out@ =~= upper_bytes(s@));
    }
    out
}

/// Find the first byte of `s` outside the address alphabet, if any.
pub fn first_invalid_byte(s: &Vec<u8>) -> (r: Option<usize>)
    ensures
        match r {
            Some(i) => i < s@.len() && !is_alphabet_byte(s@[i as int]) && forall|j: int|
                0 <= j < i ==> is_alphabet_byte(#[trigger] s@[j]),
            None => all_alphabet(s@),
        },
{
    let mut i: usize = 0;
    while i < s.len()
        invariant
            i <= s.len(),
            forall|j: int| 0 <= j < i ==> is_alphabet_byte(#[trigger] s@[j]),
        decreases s.len() - i,
    {
        if !alphabet_byte(s[i]) {
            return Some(i);
        }
        i = i + 1;
    }
    None
}

} // verus!
