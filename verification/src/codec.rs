//! The match-record file format: a pretty-printed structured array of
//! records `{target, public, mnemonic, placement}`, with the placement
//! serialized as `"Start"`, `"End"` or `{ "Anywhere": <offset> }`.
//!
//! `encode_records` produces the canonical text; `parse_records` accepts
//! exactly well-shaped text and inverts the encoder, so a persisted file
//! reloads to the records that were written (`lemma_records_round_trip`).

use vstd::prelude::*;
use crate::matcher::{AddressMatch, MatchRec, Placement, rec_views};

verus! {

/// The double-quote byte that delimits strings in the record file.
pub const QUOTE: u8 = 34;

/// `"  {\n    \"target\": "` in ASCII.
pub open spec fn lit_target_field() -> Seq<u8> {
    seq![32u8, 32u8, 123u8, 10u8, 32u8, 32u8, 32u8, 32u8, 34u8, 116u8, 97u8, 114u8, 103u8, 101u8, 116u8, 34u8, 58u8, 32u8]
}

/// `",\n    \"public\": "` in ASCII.
pub open spec fn lit_public_field() -> Seq<u8> {
    seq![44u8, 10u8, 32u8, 32u8, 32u8, 32u8, 34u8, 112u8, 117u8, 98u8, 108u8, 105u8, 99u8, 34u8, 58u8, 32u8]
}

/// `",\n    \"mnemonic\": "` in ASCII.
pub open spec fn lit_mnemonic_field() -> Seq<u8> {
    seq![44u8, 10u8, 32u8, 32u8, 32u8, 32u8, 34u8, 109u8, 110u8, 101u8, 109u8, 111u8, 110u8, 105u8, 99u8, 34u8, 58u8, 32u8]
}

/// `",\n    \"placement\": "` in ASCII.
pub open spec fn lit_placement_field() -> Seq<u8> {
    seq![44u8, 10u8, 32u8, 32u8, 32u8, 32u8, 34u8, 112u8, 108u8, 97u8, 99u8, 101u8, 109u8, 101u8, 110u8, 116u8, 34u8, 58u8, 32u8]
}

/// `"\n  }"` in ASCII.
pub open spec fn lit_record_close() -> Seq<u8> {
    seq![10u8, 32u8, 32u8, 125u8]
}

/// `"\"Start\""` in ASCII.
pub open spec fn lit_start_token() -> Seq<u8> {
    seq![34u8, 83u8, 116u8, 97u8, 114u8, 116u8, 34u8]
}

/// `"\"End\""` in ASCII.
pub open spec fn lit_end_token() -> Seq<u8> {
    seq![34u8, 69u8, 110u8, 100u8, 34u8]
}

/// `"{ \"Anywhere\": "` in ASCII.
pub open spec fn lit_anywhere_open() -> Seq<u8> {
    seq![123u8, 32u8, 34u8, 65u8, 110u8, 121u8, 119u8, 104u8, 101u8, 114u8, 101u8, 34u8, 58u8, 32u8]
}

/// `" }"` in ASCII.
pub open spec fn lit_anywhere_close() -> Seq<u8> {
    seq![32u8, 125u8]
}

/// `"[\n"` in ASCII.
pub open spec fn lit_array_open() -> Seq<u8> {
    seq![91u8, 10u8]
}

/// `",\n"` in ASCII.
pub open spec fn lit_array_sep() -> Seq<u8> {
    seq![44u8, 10u8]
}

/// `"\n]"` in ASCII.
pub open spec fn lit_array_close() -> Seq<u8> {
    seq![10u8, 93u8]
}

/// `"[]"` in ASCII.
pub open spec fn lit_array_empty() -> Seq<u8> {
    seq![91u8, 93u8]
}

/// A byte string free of the quote delimiter, hence embeddable in the
/// record file verbatim.
pub open spec fn quote_free(s: Seq<u8>) -> bool {
    forall|i: int| 0 <= i < s.len() ==> s[i] != QUOTE
}

/// A record whose strings can be embedded in the file verbatim.
pub open spec fn rec_encodable(m: MatchRec) -> bool {
    quote_free(m.target) && quote_free(m.public) && quote_free(m.mnemonic)
}

/// Whether `b` is an ASCII decimal digit.
pub open spec fn is_digit(b: u8) -> bool {
    48 <= b && b <= 57
}

/// The decimal digits of `n`, most significant first.
pub open spec fn dec_digits(n: nat) -> Seq<u8>
    decreases n,
{
    if n < 10 {
        seq![(48 + n) as u8]
    } else {
        dec_digits(n / 10) + seq![(48 + n % 10) as u8]
    }
}

/// The value of a run of decimal digits.
pub open spec fn digits_val(d: Seq<u8>) -> nat
    decreases d.len(),
{
    if d.len() == 0 {
        0
    } else {
        (digits_val(d.drop_last()) * 10 + (d.last() - 48)) as nat
    }
}

/// A quoted string: the content between two quote delimiters.
pub open spec fn enc_string(c: Seq<u8>) -> Seq<u8> {
    seq![QUOTE] + c + seq![QUOTE]
}

/// The encoding of a placement.
pub open spec fn enc_placement(p: Placement) -> Seq<u8> {
    match p {
        Placement::Start => lit_start_token(),
        Placement::End => lit_end_token(),
        Placement::Anywhere(i) => lit_anywhere_open() + dec_digits(i as nat) + lit_anywhere_close(),
    }
}

/// The encoding of one record.
pub open spec fn enc_record(m: MatchRec) -> Seq<u8> {
    lit_target_field() + enc_string(m.target) + lit_public_field() + enc_string(m.public)
        + lit_mnemonic_field() + enc_string(m.mnemonic) + lit_placement_field() + enc_placement(
        m.placement,
    ) + lit_record_close()
}

/// The encodings of a non-empty record sequence, separated by commas.
pub open spec fn enc_tail(rs: Seq<MatchRec>) -> Seq<u8>
    decreases rs.len(),
{
    if rs.len() <= 1 {
        enc_record(rs[0])
    } else {
        enc_record(rs[0]) + lit_array_sep() + enc_tail(rs.drop_first())
    }
}

/// The canonical encoding of a whole record file.
pub open spec fn enc_records(rs: Seq<MatchRec>) -> Seq<u8> {
    if rs.len() == 0 {
        lit_array_empty()
    } else {
        lit_array_open() + enc_tail(rs) + lit_array_close()
    }
}

/// Consume an exact literal, returning the remainder.
pub open spec fn p_lit(s: Seq<u8>, lit: Seq<u8>) -> Option<Seq<u8>> {
    if lit.len() <= s.len() && s.take(lit.len() as int) == lit {
        Some(s.skip(lit.len() as int))
    } else {
        None
    }
}

/// Consume string content up to and including the closing quote.
pub open spec fn p_string_content(s: Seq<u8>) -> Option<(Seq<u8>, Seq<u8>)>
    decreases s.len(),
{
    if s.len() == 0 {
        None
    } else if s[0] == QUOTE {
        Some((Seq::empty(), s.drop_first()))
    } else {
        match p_string_content(s.drop_first()) {
            Some((c, r)) => Some((seq![s[0]] + c, r)),
            None => None,
        }
    }
}

/// Consume a quoted string, returning its content.
pub open spec fn p_string(s: Seq<u8>) -> Option<(Seq<u8>, Seq<u8>)> {
    if s.len() > 0 && s[0] == QUOTE {
        p_string_content(s.drop_first())
    } else {
        None
    }
}

/// Split off the longest leading run of decimal digits.
pub open spec fn p_digits(s: Seq<u8>) -> (Seq<u8>, Seq<u8>)
    decreases s.len(),
{
    if s.len() == 0 || !is_digit(s[0]) {
        (Seq::empty(), s)
    } else {
        let (d, r) = p_digits(s.drop_first());
        (seq![s[0]] + d, r)
    }
}

/// Consume a decimal number that fits in a `u64`.
pub open spec fn p_u64(s: Seq<u8>) -> Option<(u64, Seq<u8>)> {
    let (d, r) = p_digits(s);
    if d.len() == 0 || digits_val(d) > u64::MAX {
        None
    } else {
        Some((digits_val(d) as u64, r))
    }
}

/// Consume a placement.
pub open spec fn p_placement(s: Seq<u8>) -> Option<(Placement, Seq<u8>)> {
    if p_lit(s, lit_start_token()) is Some {
        Some((Placement::Start, p_lit(s, lit_start_token()).unwrap()))
    } else if p_lit(s, lit_end_token()) is Some {
        Some((Placement::End, p_lit(s, lit_end_token()).unwrap()))
    } else {
        match p_lit(s, lit_anywhere_open()) {
            None => None,
            Some(r) => match p_u64(r) {
                None => None,
                Some((n, r2)) => if n <= usize::MAX {
                    match p_lit(r2, lit_anywhere_close()) {
                        None => None,
                        Some(r3) => Some((Placement::Anywhere(n as usize), r3)),
                    }
                } else {
                    None
                },
            },
        }
    }
}

/// Consume one record.
pub open spec fn p_record(s: Seq<u8>) -> Option<(MatchRec, Seq<u8>)> {
    match p_lit(s, lit_target_field()) {
        None => None,
        Some(s1) => match p_string(s1) {
            None => None,
            Some((t, s2)) => match p_lit(s2, lit_public_field()) {
                None => None,
                Some(s3) => match p_string(s3) {
                    None => None,
                    Some((a, s4)) => match p_lit(s4, lit_mnemonic_field()) {
                        None => None,
                        Some(s5) => match p_string(s5) {
                            None => None,
                            Some((mn, s6)) => match p_lit(s6, lit_placement_field()) {
                                None => None,
                                Some(s7) => match p_placement(s7) {
                                    None => None,
                                    Some((p, s8)) => match p_lit(s8, lit_record_close()) {
                                        None => None,
                                        Some(s9) => Some(
                                            (
                                                MatchRec {
                                                    target: t,
                                                    public: a,
                                                    mnemonic: mn,
                                                    placement: p,
                                                },
                                                s9,
                                            ),
                                        ),
                                    },
                                },
                            },
                        },
                    },
                },
            },
        },
    }
}

/// Consume a non-empty comma-separated record list.
pub open spec fn p_list(s: Seq<u8>) -> Option<(Seq<MatchRec>, Seq<u8>)>
    decreases s.len(),
{
    match p_record(s) {
        None => None,
        Some((m, r)) => match p_lit(r, lit_array_sep()) {
            None => Some((seq![m], r)),
            Some(r2) => if r2.len() < s.len() {
                match p_list(r2) {
                    None => None,
                    Some((ms, r3)) => Some((seq![m] + ms, r3)),
                }
            } else {
                None
            },
        },
    }
}

/// Parse a whole record file; `Some` exactly on well-shaped text.
pub open spec fn p_records(s: Seq<u8>) -> Option<Seq<MatchRec>> {
    if s == lit_array_empty() {
        Some(Seq::empty())
    } else {
        match p_lit(s, lit_array_open()) {
            None => None,
            Some(r) => match p_list(r) {
                None => None,
                Some((ms, r2)) => match p_lit(r2, lit_array_close()) {
                    None => None,
                    Some(r3) => if r3.len() == 0 {
                        Some(ms)
                    } else {
                        None
                    },
                },
            },
        }
    }
}


/// Parsing a literal off text that begins with it yields the rest.
pub proof fn lemma_p_lit(lit: Seq<u8>, rest: Seq<u8>)
    ensures
        p_lit(lit + rest, lit) == Some(rest),
{
    let s = lit + rest;
    assert(s.take(lit.len() as int) =~= lit);
    assert(s.skip(lit.len() as int) =~= rest);
}

/// Parsing string content off `c` followed by a closing quote yields `c`.
pub proof fn lemma_p_string_content(c: Seq<u8>, rest: Seq<u8>)
    requires
        quote_free(c),
    ensures
        p_string_content(c + seq![QUOTE] + rest) == Some((c, rest)),
    decreases c.len(),
{
    let s = c + seq![QUOTE] + rest;
    if c.len() == 0 {
        assert(s[0] == QUOTE);
        assert(s.drop_first() =~= rest);
        assert(p_string_content(s).unwrap().0 =~= c);
    } else {
        assert(s[0] == c[0]);
        assert(s[0] != QUOTE);
        assert(s.drop_first() =~= c.drop_first() + seq![QUOTE] + rest);
        lemma_p_string_content(c.drop_first(), rest);
        assert(seq![s[0]] + c.drop_first() =~= c);
    }
}

/// Parsing a quoted string off its encoding yields its content.
pub proof fn lemma_p_string(c: Seq<u8>, rest: Seq<u8>)
    requires
        quote_free(c),
    ensures
        p_string(enc_string(c) + rest) == Some((c, rest)),
{
    let s = enc_string(c) + rest;
    assert(s[0] == QUOTE);
    assert(s.drop_first() =~= c + seq![QUOTE] + rest);
    lemma_p_string_content(c, rest);
}

/// The decimal digits of a number are digits, and there is at least one.
pub proof fn lemma_dec_digits_are_digits(n: nat)
    ensures
        dec_digits(n).len() >= 1,
        forall|i: int| 0 <= i < dec_digits(n).len() ==> is_digit(#[trigger] dec_digits(n)[i]),
    decreases n,
{
    if n >= 10 {
        lemma_dec_digits_are_digits(n / 10);
    }
}

/// Splitting digits off a digit run followed by a non-digit yields the run.
pub proof fn lemma_p_digits(d: Seq<u8>, rest: Seq<u8>)
    requires
        forall|i: int| 0 <= i < d.len() ==> is_digit(#[trigger] d[i]),
        rest.len() == 0 || !is_digit(rest[0]),
    ensures
        p_digits(d + rest).0 == d,
        p_digits(d + rest).1 == rest,
    decreases d.len(),
{
    let s = d + rest;
    if d.len() == 0 {
        assert(s =~= rest);
        assert(p_digits(s).0 =~= d);
    } else {
        assert(s[0] == d[0]);
        assert(is_digit(s[0]));
        assert(s.drop_first() =~= d.drop_first() + rest);
        lemma_p_digits(d.drop_first(), rest);
        assert(p_digits(s).0 =~= seq![s[0]] + d.drop_first());
        assert(seq![s[0]] + d.drop_first() =~= d);
    }
}

/// The value of the decimal digits of `n` is `n`.
pub proof fn lemma_digits_val_dec(n: nat)
    ensures
        digits_val(dec_digits(n)) == n,
    decreases n,
{
    if n < 10 {
        let d = dec_digits(n);
        assert(d.drop_last() =~= Seq::<u8>::empty());
        assert(d.last() == (48 + n) as u8);
        assert(digits_val(Seq::<u8>::empty()) == 0);
        assert(digits_val(d) == (digits_val(d.drop_last()) * 10 + (d.last() - 48)) as nat);
    } else {
        lemma_digits_val_dec(n / 10);
        let d = dec_digits(n);
        assert(d.drop_last() =~= dec_digits(n / 10));
        assert(d.last() == (48 + n % 10) as u8);
        vstd::arithmetic::div_mod::lemma_fundamental_div_mod(n as int, 10);
        assert(digits_val(d) == (digits_val(d.drop_last()) * 10 + (d.last() - 48)) as nat);
        assert(digits_val(d.drop_last()) == n / 10);
        assert(d.last() - 48 == n % 10);
    }
}

/// Parsing a number off the digits of `n` followed by a non-digit yields `n`.
pub proof fn lemma_p_u64(n: u64, rest: Seq<u8>)
    requires
        rest.len() == 0 || !is_digit(rest[0]),
    ensures
        p_u64(dec_digits(n as nat) + rest) == Some((n, rest)),
{
    lemma_dec_digits_are_digits(n as nat);
    lemma_p_digits(dec_digits(n as nat), rest);
    lemma_digits_val_dec(n as nat);
}

/// Parsing a placement off its encoding yields it back.
pub proof fn lemma_p_placement(p: Placement, rest: Seq<u8>)
    ensures
        p_placement(enc_placement(p) + rest) == Some((p, rest)),
{
    let s = enc_placement(p) + rest;
    match p {
        Placement::Start => {
            lemma_p_lit(lit_start_token(), rest);
        },
        Placement::End => {
            if p_lit(s, lit_start_token()) is Some {
                assert(s.take(lit_start_token().len() as int)[1] == lit_start_token()[1]);
                assert(s[1] == lit_end_token()[1]);
                assert(false);
            }
            lemma_p_lit(lit_end_token(), rest);
        },
        Placement::Anywhere(i) => {
            assert(s[0] == 123);
            if p_lit(s, lit_start_token()) is Some {
                assert(s.take(lit_start_token().len() as int)[0] == lit_start_token()[0]);
                assert(false);
            }
            if p_lit(s, lit_end_token()) is Some {
                assert(s.take(lit_end_token().len() as int)[0] == lit_end_token()[0]);
                assert(false);
            }
            let tail = dec_digits(i as nat) + (lit_anywhere_close() + rest);
            assert(s =~= lit_anywhere_open() + tail);
            lemma_p_lit(lit_anywhere_open(), tail);
            assert(tail =~= dec_digits((i as u64) as nat) + (lit_anywhere_close() + rest));
            assert(!is_digit((lit_anywhere_close() + rest)[0]));
            lemma_p_u64(i as u64, lit_anywhere_close() + rest);
            lemma_p_lit(lit_anywhere_close(), rest);
        },
    }
}

/// Parsing one record off its encoding yields it back.
pub proof fn lemma_p_record(m: MatchRec, rest: Seq<u8>)
    requires
        rec_encodable(m),
    ensures
        p_record(enc_record(m) + rest) == Some((m, rest)),
{
    let s = enc_record(m) + rest;
    let t8 = rest;
    let t7 = lit_record_close() + t8;
    let t6 = enc_placement(m.placement) + t7;
    let t5 = lit_placement_field() + t6;
    let t4 = enc_string(m.mnemonic) + t5;
    let t3 = lit_mnemonic_field() + t4;
    let t2 = enc_string(m.public) + t3;
    let t1 = lit_public_field() + t2;
    let t0 = enc_string(m.target) + t1;
    assert(s =~= lit_target_field() + t0);
    lemma_p_lit(lit_target_field(), t0);
    lemma_p_string(m.target, t1);
    lemma_p_lit(lit_public_field(), t2);
    lemma_p_string(m.public, t3);
    lemma_p_lit(lit_mnemonic_field(), t4);
    lemma_p_string(m.mnemonic, t5);
    lemma_p_lit(lit_placement_field(), t6);
    lemma_p_placement(m.placement, t7);
    lemma_p_lit(lit_record_close(), t8);
}

/// Parsing a record list off its encoding, followed by text that does not
/// begin with a comma, yields the records back.
#[verifier::rlimit(100)]
#[verifier::spinoff_prover]
pub proof fn lemma_p_list(rs: Seq<MatchRec>, rest: Seq<u8>)
    requires
        rs.len() >= 1,
        forall|i: int| 0 <= i < rs.len() ==> rec_encodable(#[trigger] rs[i]),
        rest.len() == 0 || rest[0] != 44,
    ensures
        p_list(enc_tail(rs) + rest) == Some((rs, rest)),
    decreases rs.len(),
{
    let s = enc_tail(rs) + rest;
    if rs.len() == 1 {
        lemma_p_record(rs[0], rest);
        if p_lit(rest, lit_array_sep()) is Some {
            assert(rest.take(lit_array_sep().len() as int)[0] == lit_array_sep()[0]);
            assert(false);
        }
        assert(p_list(s).unwrap().0 =~= rs);
    } else {
        let tail = enc_tail(rs.drop_first()) + rest;
        let mid = lit_array_sep() + tail;
        assert(s =~= enc_record(rs[0]) + mid);
        lemma_p_record(rs[0], mid);
        lemma_p_lit(lit_array_sep(), tail);
        assert(enc_record(rs[0]).len() > 0) by {
            assert(enc_record(rs[0]).len() >= lit_target_field().len());
        }
        assert(tail.len() < s.len());
        assert(rs.drop_first().len() >= 1);
        assert(forall|i: int|
            0 <= i < rs.drop_first().len() ==> rec_encodable(#[trigger] rs.drop_first()[i]));
        lemma_p_list(rs.drop_first(), rest);
        assert(p_list(s).unwrap().0 =~= seq![rs[0]] + rs.drop_first());
        assert(seq![rs[0]] + rs.drop_first() =~= rs);
    }
}

/// LAW (persistence round trip): a record file parses back to exactly the
/// records that were encoded, field for field.
pub proof fn lemma_records_round_trip(rs: Seq<MatchRec>)
    requires
        forall|i: int| 0 <= i < rs.len() ==> rec_encodable(#[trigger] rs[i]),
    ensures
        p_records(enc_records(rs)) == Some(rs),
{
    let s = enc_records(rs);
    if rs.len() == 0 {
        assert(s == lit_array_empty());
        assert(p_records(s).unwrap() =~= rs);
    } else {
        if s == lit_array_empty() {
            assert(s[1] == lit_array_empty()[1]);
            assert(s[1] == lit_array_open()[1]);
            assert(false);
        }
        let tail = enc_tail(rs) + lit_array_close();
        assert(s =~= lit_array_open() + tail);
        lemma_p_lit(lit_array_open(), tail);
        assert(lit_array_close()[0] != 44);
        lemma_p_list(rs, lit_array_close());
        assert(lit_array_close() =~= lit_array_close() + Seq::<u8>::empty());
        lemma_p_lit(lit_array_close(), Seq::<u8>::empty());
    }
}


/// The bytes of `lit_target_field`.
fn mk_target_field() -> (r: Vec<u8>)
    ensures
        r@ == lit_target_field(),
{
    let mut v: Vec<u8> = Vec::new();
    v.push(32);
    v.push(32);
    v.push(123);
    v.push(10);
    v.push(32);
    v.push(32);
    v.push(32);
    v.push(32);
    v.push(34);
    v.push(116);
    v.push(97);
    v.push(114);
    v.push(103);
    v.push(101);
    v.push(116);
    v.push(34);
    v.push(58);
    v.push(32);
    proof {
        assert(v@ =~= lit_target_field());
    }
    v
}

/// The bytes of `lit_public_field`.
fn mk_public_field() -> (r: Vec<u8>)
    ensures
        r@ == lit_public_field(),
{
    let mut v: Vec<u8> = Vec::new();
    v.push(44);
    v.push(10);
    v.push(32);
    v.push(32);
    v.push(32);
    v.push(32);
    v.push(34);
    v.push(112);
    v.push(117);
    v.push(98);
    v.push(108);
    v.push(105);
    v.push(99);
    v.push(34);
    v.push(58);
    v.push(32);
    proof {
        assert(v@ =~= lit_public_field());
    }
    v
}

/// The bytes of `lit_mnemonic_field`.
fn mk_mnemonic_field() -> (r: Vec<u8>)
    ensures
        r@ == lit_mnemonic_field(),
{
    let mut v: Vec<u8> = Vec::new();
    v.push(44);
    v.push(10);
    v.push(32);
    v.push(32);
    v.push(32);
    v.push(32);
    v.push(34);
    v.push(109);
    v.push(110);
    v.push(101);
    v.push(109);
    v.push(111);
    v.push(110);
    v.push(105);
    v.push(99);
    v.push(34);
    v.push(58);
    v.push(32);
    proof {
        assert(v@ =~= lit_mnemonic_field());
    }
    v
}

/// The bytes of `lit_placement_field`.
fn mk_placement_field() -> (r: Vec<u8>)
    ensures
        r@ == lit_placement_field(),
{
    let mut v: Vec<u8> = Vec::new();
    v.push(44);
    v.push(10);
    v.push(32);
    v.push(32);
    v.push(32);
    v.push(32);
    v.push(34);
    v.push(112);
    v.push(108);
    v.push(97);
    v.push(99);
    v.push(101);
    v.push(109);
    v.push(101);
    v.push(110);
    v.push(116);
    v.push(34);
    v.push(58);
    v.push(32);
    proof {
        assert(v@ =~= lit_placement_field());
    }
    v
}

/// The bytes of `lit_record_close`.
fn mk_record_close() -> (r: Vec<u8>)
    ensures
        r@ == lit_record_close(),
{
    let mut v: Vec<u8> = Vec::new();
    v.push(10);
    v.push(32);
    v.push(32);
    v.push(125);
    proof {
        assert(v@ =~= lit_record_close());
    }
    v
}

/// The bytes of `lit_start_token`.
fn mk_start_token() -> (r: Vec<u8>)
    ensures
        r@ == lit_start_token(),
{
    let mut v: Vec<u8> = Vec::new();
    v.push(34);
    v.push(83);
    v.push(116);
    v.push(97);
    v.push(114);
    v.push(116);
    v.push(34);
    proof {
        assert(v@ =~= lit_start_token());
    }
    v
}

/// The bytes of `lit_end_token`.
fn mk_end_token() -> (r: Vec<u8>)
    ensures
        r@ == lit_end_token(),
{
    let mut v: Vec<u8> = Vec::new();
    v.push(34);
    v.push(69);
    v.push(110);
    v.push(100);
    v.push(34);
    proof {
        assert(v@ =~= lit_end_token());
    }
    v
}

/// The bytes of `lit_anywhere_open`.
fn mk_anywhere_open() -> (r: Vec<u8>)
    ensures
        r@ == lit_anywhere_open(),
{
    let mut v: Vec<u8> = Vec::new();
    v.push(123);
    v.push(32);
    v.push(34);
    v.push(65);
    v.push(110);
    v.push(121);
    v.push(119);
    v.push(104);
    v.push(101);
    v.push(114);
    v.push(101);
    v.push(34);
    v.push(58);
    v.push(32);
    proof {
        assert(v@ =~= lit_anywhere_open());
    }
    v
}

/// The bytes of `lit_anywhere_close`.
fn mk_anywhere_close() -> (r: Vec<u8>)
    ensures
        r@ == lit_anywhere_close(),
{
    let mut v: Vec<u8> = Vec::new();
    v.push(32);
    v.push(125);
    proof {
        assert(v@ =~= lit_anywhere_close());
    }
    v
}

/// The bytes of `lit_array_open`.
fn mk_array_open() -> (r: Vec<u8>)
    ensures
        r@ == lit_array_open(),
{
    let mut v: Vec<u8> = Vec::new();
    v.push(91);
    v.push(10);
    proof {
        assert(v@ =~= lit_array_open());
    }
    v
}

/// The bytes of `lit_array_sep`.
fn mk_array_sep() -> (r: Vec<u8>)
    ensures
        r@ == lit_array_sep(),
{
    let mut v: Vec<u8> = Vec::new();
    v.push(44);
    v.push(10);
    proof {
        assert(v@ =~= lit_array_sep());
    }
    v
}

/// The bytes of `lit_array_close`.
fn mk_array_close() -> (r: Vec<u8>)
    ensures
        r@ == lit_array_close(),
{
    let mut v: Vec<u8> = Vec::new();
    v.push(10);
    v.push(93);
    proof {
        assert(v@ =~= lit_array_close());
    }
    v
}

/// The bytes of `lit_array_empty`.
fn mk_array_empty() -> (r: Vec<u8>)
    ensures
        r@ == lit_array_empty(),
{
    let mut v: Vec<u8> = Vec::new();
    v.push(91);
    v.push(93);
    proof {
        assert(v@ =~= lit_array_empty());
    }
    v
}

/// Append a copy of `src` to `out`.
pub fn append_bytes(out: &mut Vec<u8>, src: &Vec<u8>)
    ensures
        final(out)@ == old(out)@ + src@,
{
    let mut i: usize = 0;
    while i < src.len()
        invariant
            i <= src@.len(),
            out@ == old(out)@ + src@.take(i as int),
        decreases src.len() - i,
    {
        out.push(src[i]);
        proof {
            assert(old(out)@ + src@.take(i as int) + seq![src@[i as int]] =~= old(out)@
                + src@.take(i + 1));
        }
        i = i + 1;
    }
    proof {
        assert(src@.take(src@.len() as int) =~= src@);
    }
}

/// Append the decimal digits of `n`.
fn push_u64_digits(out: &mut Vec<u8>, n: u64)
    ensures
        final(out)@ == old(out)@ + dec_digits(n as nat),
    decreases n,
{
    if n < 10 {
        out.push(48 + n as u8);
        proof {
            assert(out@ =~= old(out)@ + dec_digits(n as nat));
        }
    } else {
        push_u64_digits(out, n / 10);
        proof {
            assert((n / 10) as nat == (n as nat) / 10);
        }
        out.push(48 + (n % 10) as u8);
        proof {
            assert((n % 10) as nat == (n as nat) % 10);
            assert(out@ =~= old(out)@ + dec_digits((n as nat) / 10) + seq![
                (48 + (n as nat) % 10) as u8,
            ]);
            assert(out@ =~= old(out)@ + dec_digits(n as nat));
        }
    }
}

/// Append a quoted string.
fn push_quoted(out: &mut Vec<u8>, c: &Vec<u8>)
    ensures
        final(out)@ == old(out)@ + enc_string(c@),
{
    out.push(QUOTE);
    append_bytes(out, c);
    out.push(QUOTE);
    proof {
        assert(out@ =~= old(out)@ + enc_string(c@));
    }
}

/// Append the encoding of a placement.
fn encode_placement(out: &mut Vec<u8>, p: Placement)
    ensures
        final(out)@ == old(out)@ + enc_placement(p),
{
    match p {
        Placement::Start => {
            append_bytes(out, &mk_start_token());
        },
        Placement::End => {
            append_bytes(out, &mk_end_token());
        },
        Placement::Anywhere(i) => {
            append_bytes(out, &mk_anywhere_open());
            push_u64_digits(out, i as u64);
            append_bytes(out, &mk_anywhere_close());
            proof {
                assert((i as u64) as nat == i as nat);
                assert(out@ =~= old(out)@ + enc_placement(p));
            }
        },
    }
}

/// Append the encoding of one record.
fn encode_record(out: &mut Vec<u8>, m: &AddressMatch)
    ensures
        final(out)@ == old(out)@ + enc_record(m@),
{
    append_bytes(out, &mk_target_field());
    push_quoted(out, &m.target);
    append_bytes(out, &mk_public_field());
    push_quoted(out, &m.public);
    append_bytes(out, &mk_mnemonic_field());
    push_quoted(out, &m.mnemonic);
    append_bytes(out, &mk_placement_field());
    encode_placement(out, m.placement);
    append_bytes(out, &mk_record_close());
    proof {
        assert(out@ =~= old(out)@ + enc_record(m@));
    }
}

/// The canonical text of a whole record file.
pub fn encode_records(rs: &Vec<AddressMatch>) -> (r: Vec<u8>)
    ensures
        r@ == enc_records(rec_views(rs@)),
{
    let ghost vs = rec_views(rs@);
    let mut out: Vec<u8> = Vec::new();
    if rs.len() == 0 {
        append_bytes(&mut out, &mk_array_empty());
        proof {
            assert(out@ =~= enc_records(vs));
        }
        return out;
    }
    append_bytes(&mut out, &mk_array_open());
    encode_record(&mut out, &rs[0]);
    proof {
        assert(vs[0] == rs@[0]@);
        if vs.len() > 1 {
            assert(vs.drop_first() =~= vs.skip(1));
            assert(out@ + lit_array_sep() + enc_tail(vs.skip(1)) =~= lit_array_open() + enc_tail(
                vs,
            ));
        } else {
            assert(out@ =~= lit_array_open() + enc_tail(vs));
        }
    }
    let mut i: usize = 1;
    while i < rs.len()
        invariant
            1 <= i <= rs@.len(),
            vs == rec_views(rs@),
            vs.len() == rs@.len(),
            i < vs.len() ==> out@ + lit_array_sep() + enc_tail(vs.skip(i as int))
                == lit_array_open() + enc_tail(vs),
            i == vs.len() ==> out@ == lit_array_open() + enc_tail(vs),
        decreases rs.len() - i,
    {
        let ghost pre = out@;
        append_bytes(&mut out, &mk_array_sep());
        encode_record(&mut out, &rs[i]);
        proof {
            let u = vs.skip(i as int);
            assert(u[0] == vs[i as int]);
            assert(vs[i as int] == rs@[i as int]@);
            if i + 1 < vs.len() {
                assert(u.drop_first() =~= vs.skip(i + 1));
                assert(enc_tail(u) == enc_record(u[0]) + lit_array_sep() + enc_tail(
                    vs.skip(i + 1),
                ));
                assert(out@ + lit_array_sep() + enc_tail(vs.skip(i + 1)) =~= pre
                    + lit_array_sep() + enc_tail(u));
            } else {
                assert(u.len() == 1);
                assert(enc_tail(u) == enc_record(u[0]));
                assert(out@ =~= pre + lit_array_sep() + enc_tail(u));
            }
        }
        i = i + 1;
    }
    append_bytes(&mut out, &mk_array_close());
    proof {
        assert(out@ =~= enc_records(vs));
    }
    out
}

/// Consume `lit` at `pos`, returning the position after it.
fn eat(s: &Vec<u8>, pos: usize, lit: &Vec<u8>) -> (r: Option<usize>)
    requires
        pos <= s@.len(),
    ensures
        match r {
            Some(p2) => {
                &&& pos <= p2 <= s@.len()
                &&& p2 == pos + lit@.len()
                &&& p_lit(s@.skip(pos as int), lit@) == Some(s@.skip(p2 as int))
            },
            None => p_lit(s@.skip(pos as int), lit@) is None,
        },
{
    let slen: usize = s.len();
    let n: usize = lit.len();
    if slen - pos < n {
        proof {
            assert(s@.skip(pos as int).len() < lit@.len());
        }
        return None;
    }
    let mut i: usize = 0;
    while i < n
        invariant
            s@.len() == slen,
            pos + n <= slen,
            i <= n,
            n == lit@.len(),
            forall|j: int| 0 <= j < i ==> s@[pos + j] == lit@[j],
        decreases n - i,
    {
        let idx: usize = pos + i;
        if s[idx] != lit[i] {
            proof {
                let u = s@.skip(pos as int);
                if u.take(n as int) == lit@ {
                    assert(u.take(n as int)[i as int] == lit@[i as int]);
                    assert(u.take(n as int)[i as int] == s@[pos + i]);
                    assert(false);
                }
            }
            return None;
        }
        i = i + 1;
    }
    proof {
        let u = s@.skip(pos as int);
        assert(u.take(n as int) =~= lit@);
        assert(u.skip(n as int) =~= s@.skip((pos + n) as int));
    }
    Some(pos + n)
}

/// String content up to a first quote at relative index `q` parses to the
/// text before the quote.
proof fn lemma_p_string_content_chars(u: Seq<u8>, q: int)
    requires
        0 <= q < u.len(),
        u[q] == QUOTE,
        forall|i: int| 0 <= i < q ==> u[i] != QUOTE,
    ensures
        p_string_content(u) == Some((u.take(q), u.skip(q + 1))),
    decreases q,
{
    if q == 0 {
        assert(u.take(0) =~= Seq::<u8>::empty());
        assert(u.skip(1) =~= u.drop_first());
    } else {
        assert(u[0] != QUOTE);
        lemma_p_string_content_chars(u.drop_first(), q - 1);
        assert(u.drop_first().take(q - 1) =~= u.take(q).drop_first());
        assert(seq![u[0]] + u.take(q).drop_first() =~= u.take(q));
        assert(u.drop_first().skip(q) =~= u.skip(q + 1));
    }
}

/// Text with no quote at all has no string content.
proof fn lemma_p_string_content_none(u: Seq<u8>)
    requires
        forall|i: int| 0 <= i < u.len() ==> u[i] != QUOTE,
    ensures
        p_string_content(u) is None,
    decreases u.len(),
{
    if u.len() > 0 {
        lemma_p_string_content_none(u.drop_first());
    }
}

/// Consume a quoted string at `pos`.
fn parse_string(s: &Vec<u8>, pos: usize) -> (r: Option<(Vec<u8>, usize)>)
    requires
        pos <= s@.len(),
    ensures
        match r {
            Some(cp) => {
                &&& cp.1 <= s@.len()
                &&& p_string(s@.skip(pos as int)) == Some((cp.0@, s@.skip(cp.1 as int)))
            },
            None => p_string(s@.skip(pos as int)) is None,
        },
{
    let slen: usize = s.len();
    if pos == slen || s[pos] != QUOTE {
        return None;
    }
    let ghost u = s@.skip(pos + 1);
    proof {
        assert(s@.skip(pos as int).drop_first() =~= u);
    }
    let mut f: usize = pos + 1;
    let mut c: Vec<u8> = Vec::new();
    while f < slen
        invariant
            s@.len() == slen,
            pos < slen,
            s@[pos as int] == QUOTE,
            pos + 1 <= f <= slen,
            u == s@.skip(pos + 1),
            c@ == s@.subrange(pos + 1, f as int),
            forall|j: int| pos + 1 <= j < f ==> s@[j] != QUOTE,
        decreases slen - f,
    {
        let b = s[f];
        if b == QUOTE {
            proof {
                let q = f - (pos + 1);
                assert(u[q as int] == QUOTE);
                assert(forall|i: int| 0 <= i < q ==> u[i] != QUOTE);
                lemma_p_string_content_chars(u, q as int);
                assert(u.take(q as int) =~= s@.subrange(pos + 1, f as int));
                assert(u.skip(q + 1) =~= s@.skip((f + 1) as int));
                assert(s@.skip(pos as int).len() > 0);
                assert(s@.skip(pos as int)[0] == QUOTE);
                assert(s@.skip(pos as int).drop_first() =~= u);
            }
            return Some((c, f + 1));
        }
        c.push(b);
        proof {
            assert(c@ =~= s@.subrange(pos + 1, f + 1));
        }
        f = f + 1;
    }
    proof {
        assert(forall|i: int| 0 <= i < u.len() ==> u[i] != QUOTE);
        lemma_p_string_content_none(u);
        assert(s@.skip(pos as int).len() > 0);
        assert(s@.skip(pos as int)[0] == QUOTE);
        assert(s@.skip(pos as int).drop_first() =~= u);
    }
    None
}

/// A digit run's value never shrinks as the run extends.
proof fn lemma_digits_val_prefix_mono(d: Seq<u8>, k: int)
    requires
        0 <= k <= d.len(),
        forall|i: int| 0 <= i < d.len() ==> is_digit(#[trigger] d[i]),
    ensures
        digits_val(d) >= digits_val(d.take(k)),
    decreases d.len() - k,
{
    if k == d.len() {
        assert(d.take(k) =~= d);
    } else {
        assert(d.take(k + 1).drop_last() =~= d.take(k));
        assert(d.take(k + 1).last() == d[k]);
        assert(digits_val(d.take(k + 1)) == digits_val(d.take(k)) * 10 + (d[k] - 48));
        lemma_digits_val_prefix_mono(d, k + 1);
    }
}

/// Consume a decimal `u64` at `pos`.
fn parse_u64(s: &Vec<u8>, pos: usize) -> (r: Option<(u64, usize)>)
    requires
        pos <= s@.len(),
    ensures
        match r {
            Some(vp) => {
                &&& vp.1 <= s@.len()
                &&& p_u64(s@.skip(pos as int)) == Some((vp.0, s@.skip(vp.1 as int)))
            },
            None => p_u64(s@.skip(pos as int)) is None,
        },
{
    let slen: usize = s.len();
    let ghost u = s@.skip(pos as int);
    let mut e: usize = pos;
    while e < slen && 48 <= s[e] && s[e] <= 57
        invariant
            s@.len() == slen,
            pos <= e <= slen,
            forall|j: int| pos <= j < e ==> is_digit(#[trigger] s@[j]),
        decreases slen - e,
    {
        e = e + 1;
    }
    let ghost d = u.take((e - pos) as int);
    let ghost rest = u.skip((e - pos) as int);
    proof {
        assert(forall|i: int| 0 <= i < d.len() ==> is_digit(#[trigger] d[i]));
        assert(rest =~= s@.skip(e as int));
        assert(rest.len() == 0 || !is_digit(rest[0]));
        assert(d + rest =~= u);
        lemma_p_digits(d, rest);
    }
    if e == pos {
        proof {
            assert(d.len() == 0);
        }
        return None;
    }
    let mut acc: u128 = 0;
    let mut i: usize = pos;
    proof {
        assert(d.take(0) =~= Seq::<u8>::empty());
    }
    while i < e
        invariant
            s@.len() == slen,
            pos < e,
            pos <= i <= e <= slen,
            d == u.take((e - pos) as int),
            u == s@.skip(pos as int),
            d.len() == e - pos,
            p_digits(u).0 == d,
            p_digits(u).1 == s@.skip(e as int),
            forall|j: int| pos <= j < e ==> is_digit(#[trigger] s@[j]),
            forall|j: int| 0 <= j < d.len() ==> d[j] == s@[pos + j],
            acc == digits_val(d.take((i - pos) as int)),
            acc <= u64::MAX,
        decreases e - i,
    {
        let dig = s[i];
        let acc2: u128 = acc * 10 + ((dig - 48) as u128);
        proof {
            let k = (i - pos) as int;
            assert(d[k] == s@[i as int]);
            assert(d.take(k + 1).drop_last() =~= d.take(k));
            assert(d.take(k + 1).last() == d[k]);
            assert(acc2 == digits_val(d.take(k + 1)));
        }
        if acc2 > u64::MAX as u128 {
            proof {
                lemma_digits_val_prefix_mono(d, (i - pos) + 1);
                assert(digits_val(d) > u64::MAX);
            }
            return None;
        }
        acc = acc2;
        i = i + 1;
    }
    proof {
        assert(d.take((e - pos) as int) =~= d);
        assert(digits_val(d) == acc);
    }
    Some((acc as u64, e))
}

/// Consume a placement at `pos`.
fn parse_placement(s: &Vec<u8>, pos: usize) -> (r: Option<(Placement, usize)>)
    requires
        pos <= s@.len(),
    ensures
        match r {
            Some(pp) => {
                &&& pp.1 <= s@.len()
                &&& p_placement(s@.skip(pos as int)) == Some((pp.0, s@.skip(pp.1 as int)))
            },
            None => p_placement(s@.skip(pos as int)) is None,
        },
{
    if let Some(p2) = eat(s, pos, &mk_start_token()) {
        return Some((Placement::Start, p2));
    }
    if let Some(p2) = eat(s, pos, &mk_end_token()) {
        return Some((Placement::End, p2));
    }
    match eat(s, pos, &mk_anywhere_open()) {
        None => None,
        Some(p2) => match parse_u64(s, p2) {
            None => None,
            Some((n, p3)) => {
                if n <= usize::MAX as u64 {
                    match eat(s, p3, &mk_anywhere_close()) {
                        None => None,
                        Some(p4) => Some((Placement::Anywhere(n as usize), p4)),
                    }
                } else {
                    None
                }
            },
        },
    }
}

/// Consume one record at `pos`.
fn parse_record(s: &Vec<u8>, pos: usize) -> (r: Option<(AddressMatch, usize)>)
    requires
        pos <= s@.len(),
    ensures
        match r {
            Some(mp) => {
                &&& mp.1 <= s@.len()
                &&& p_record(s@.skip(pos as int)) == Some((mp.0@, s@.skip(mp.1 as int)))
            },
            None => p_record(s@.skip(pos as int)) is None,
        },
{
    let p1 = match eat(s, pos, &mk_target_field()) {
        None => {
            return None;
        },
        Some(p) => p,
    };
    let (target, p2) = match parse_string(s, p1) {
        None => {
            return None;
        },
        Some(x) => x,
    };
    let p3 = match eat(s, p2, &mk_public_field()) {
        None => {
            return None;
        },
        Some(p) => p,
    };
    let (public, p4) = match parse_string(s, p3) {
        None => {
            return None;
        },
        Some(x) => x,
    };
    let p5 = match eat(s, p4, &mk_mnemonic_field()) {
        None => {
            return None;
        },
        Some(p) => p,
    };
    let (mnemonic, p6) = match parse_string(s, p5) {
        None => {
            return None;
        },
        Some(x) => x,
    };
    let p7 = match eat(s, p6, &mk_placement_field()) {
        None => {
            return None;
        },
        Some(p) => p,
    };
    let (placement, p8) = match parse_placement(s, p7) {
        None => {
            return None;
        },
        Some(x) => x,
    };
    let p9 = match eat(s, p8, &mk_record_close()) {
        None => {
            return None;
        },
        Some(p) => p,
    };
    Some((AddressMatch { target, public, mnemonic, placement }, p9))
}

/// Consume a non-empty record list at `pos`.
fn parse_list(s: &Vec<u8>, pos: usize) -> (r: Option<(Vec<AddressMatch>, usize)>)
    requires
        pos <= s@.len(),
    ensures
        match r {
            Some(vp) => {
                &&& vp.1 <= s@.len()
                &&& p_list(s@.skip(pos as int)) == Some((rec_views(vp.0@), s@.skip(vp.1 as int)))
            },
            None => p_list(s@.skip(pos as int)) is None,
        },
    decreases s@.len() - pos,
{
    match parse_record(s, pos) {
        None => None,
        Some((m, p2)) => {
            match eat(s, p2, &mk_array_sep()) {
                None => {
                    let mut v: Vec<AddressMatch> = Vec::new();
                    v.push(m);
                    proof {
                        assert(rec_views(v@) =~= seq![m@]);
                    }
                    Some((v, p2))
                },
                Some(p3) => {
                    if p3 > pos {
                        match parse_list(s, p3) {
                            None => None,
                            Some((ms, p4)) => {
                                let mut v = ms;
                                v.insert(0, m);
                                proof {
                                    assert(rec_views(v@) =~= seq![m@] + rec_views(
                                        v@.drop_first(),
                                    ));
                                    assert(v@.drop_first() =~= v@.subrange(1, v@.len() as int));
                                }
                                Some((v, p4))
                            },
                        }
                    } else {
                        None
                    }
                },
            }
        },
    }
}

/// Parse a whole record file; `Some` exactly on well-shaped text.
pub fn parse_records(s: &Vec<u8>) -> (r: Option<Vec<AddressMatch>>)
    ensures
        match r {
            Some(v) => p_records(s@) == Some(rec_views(v@)),
            None => p_records(s@) is None,
        },
{
    if s.len() == 2 {
        if s[0] == 91 && s[1] == 93 {
            proof {
                assert(s@ =~= lit_array_empty());
            }
            let v: Vec<AddressMatch> = Vec::new();
            proof {
                assert(rec_views(v@) =~= Seq::<MatchRec>::empty());
            }
            return Some(v);
        }
    }
    proof {
        if s@ == lit_array_empty() {
            assert(s@.len() == 2);
            assert(s@[0] == 91 && s@[1] == 93);
            assert(false);
        }
        assert(s@.skip(0) =~= s@);
    }
    match eat(s, 0, &mk_array_open()) {
        None => None,
        Some(p1) => match parse_list(s, p1) {
            None => None,
            Some((v, p2)) => match eat(s, p2, &mk_array_close()) {
                None => None,
                Some(p3) => {
                    if p3 == s.len() {
                        proof {
                            assert(s@.skip(p3 as int).len() == 0);
                        }
                        Some(v)
                    } else {
                        None
                    }
                },
            },
        },
    }
}

} // verus!


