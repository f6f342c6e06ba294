//! Which texts are moments, and which moments they are.
use vstd::prelude::*;

use crate::decimal::{
    all_digits, is_digit, law_value_is_positional, lemma_value_bound, pow10, value,
};
use crate::parse::{
    digits_at, fraction_end, fraction_ms, lemma_small_pow10, read_timestamp, ParseError, ParsedTs,
};
use crate::wording::{
    are_digits, ascii, is_date, law_timestamp_writes_back, lemma_numbers, lemma_same_head,
    timestamp_text_sec,
};

verus! {

/// The bytes are the text of a date and a time of day to the second, with or
/// without a point and at least one digit behind it.
pub open spec fn is_moment(b: Seq<u8>, date_key: u32, ms: u32) -> bool {
    &&& is_date(date_key as nat)
    &&& ms < 24 * 60 * 60 * 1000
    &&& b.len() >= 19
    &&& b.take(19) == ascii(timestamp_text_sec(date_key as nat, ms as nat))
    &&& b.len() > 19 ==> b.len() > 20 && b[19] == '.' as u8 && are_digits(b.skip(20))
}

/// `ms` are the whole milliseconds in the fraction of a second that has these
/// digits behind its point.
pub open spec fn is_fraction(digits: Seq<u8>, ms: nat) -> bool {
    ms * pow10(digits.len()) <= value(digits) * 1000 < (ms + 1) * pow10(digits.len())
}

proof fn lemma_digits_same(s: Seq<u8>)
    ensures
        are_digits(s) <==> all_digits(s),
{
    if are_digits(s) {
        assert forall|i: int| 0 <= i < s.len() implies is_digit(#[trigger] s[i]) by {}
    }
    if all_digits(s) {
        assert forall|i: int| 0 <= i < s.len() implies '0' as u8 <= #[trigger] s[i]
            <= '9' as u8 by {
            assert(is_digit(s[i]));
        }
    }
}

/// The digits behind the point, up to the third and from there on.
proof fn lemma_tail_digits(b: Seq<u8>)
    requires
        b.len() > 20,
    ensures
        are_digits(b.skip(20)) <==> digits_at(b, 20, fraction_end(b)) && (b.len() > 23
            ==> digits_at(b, 23, b.len() as int)),
{
    let tail = b.skip(20);
    let end = fraction_end(b);
    lemma_digits_same(tail);
    if all_digits(tail) {
        assert forall|i: int| 0 <= i < end - 20 implies is_digit(
            #[trigger] b.subrange(20, end)[i],
        ) by {
            assert(tail[i] == b[20 + i]);
        }
        if b.len() > 23 {
            assert forall|i: int| 0 <= i < b.len() - 23 implies is_digit(
                #[trigger] b.subrange(23, b.len() as int)[i],
            ) by {
                assert(tail[i + 3] == b[23 + i]);
            }
        }
    }
    if digits_at(b, 20, end) && (b.len() > 23 ==> digits_at(b, 23, b.len() as int)) {
        assert forall|i: int| 0 <= i < tail.len() implies is_digit(#[trigger] tail[i]) by {
            if i < end - 20 {
                assert(b.subrange(20, end)[i] == b[20 + i]);
            } else {
                assert(b.subrange(23, b.len() as int)[i - 3] == b[20 + i]);
            }
        }
    }
}

/// The milliseconds that are read are those of the fraction.
proof fn lemma_fraction(b: Seq<u8>)
    requires
        b.len() > 20,
        are_digits(b.skip(20)),
    ensures
        is_fraction(b.skip(20), fraction_ms(b)),
        fraction_ms(b) < 1000,
{
    let tail = b.skip(20);
    let head = b.subrange(20, fraction_end(b));
    lemma_small_pow10();
    lemma_tail_digits(b);
    lemma_value_bound(head);
    let h = value(head);
    if b.len() <= 23 {
        assert(head =~= tail);
        let p = pow10(tail.len());
        let f = fraction_ms(b);
        assert(p == 10 || p == 100 || p == 1000);
        assert(f * p == h * 1000) by (nonlinear_arith)
            requires
                p == 10 && f == h * 100 || p == 100 && f == h * 10 || p == 1000 && f == h,
        ;
        assert((f + 1) * p == f * p + p) by (nonlinear_arith);
    } else {
        let rest = b.subrange(23, b.len() as int);
        let p = pow10(rest.len());
        let r = value(rest);
        assert(tail =~= head + rest);
        law_value_is_positional(head, rest, 48);
        lemma_value_bound(rest);
        lemma_pow10_three(rest.len());
        assert(tail.len() == rest.len() + 3);
        assert(h * (1000 * p) <= (h * p + r) * 1000 < (h + 1) * (1000 * p)) by (nonlinear_arith)
            requires
                r < p,
        ;
    }
}

proof fn lemma_pow10_three(k: nat)
    ensures
        pow10(k + 3) == 1000 * pow10(k),
{
    reveal_with_fuel(pow10, 4);
}

/// The text of a moment is read, as that moment, with the milliseconds of its
/// fraction.
pub proof fn law_moments_are_read(b: Seq<u8>, date_key: u32, ms: u32)
    requires
        is_moment(b, date_key, ms),
    ensures
        ({
            let read = read_timestamp(b);
            let ts = read->Ok_0;
            &&& read is Ok
            &&& ts.date_key == date_key
            &&& ts.ms_of_day / 1000 == ms / 1000
            &&& b.len() == 19 ==> ts.ms_of_day % 1000 == 0
            &&& b.len() > 19 ==> is_fraction(b.skip(20), (ts.ms_of_day % 1000) as nat)
        }),
{
    let a = ascii(timestamp_text_sec(date_key as nat, ms as nat));
    lemma_numbers(date_key as nat, ms as nat);
    assert(a.take(19) =~= a);
    lemma_same_head(a, b);
    if b.len() > 19 {
        lemma_tail_digits(b);
        lemma_fraction(b);
    }
}

/// What is read is the text of a moment: nothing else is read.
pub proof fn law_only_moments_are_read(b: Seq<u8>)
    ensures
        read_timestamp(b) is Ok <==> exists|date_key: u32, ms: u32| is_moment(b, date_key, ms),
        read_timestamp(b) matches Ok(ts) ==> is_moment(b, ts.date_key, ts.ms_of_day),
{
    if let Ok(ts) = read_timestamp(b) {
        law_timestamp_writes_back(b);
        if b.len() > 19 {
            lemma_tail_digits(b);
        }
        assert(is_moment(b, ts.date_key, ts.ms_of_day));
    }
    if exists|date_key: u32, ms: u32| is_moment(b, date_key, ms) {
        let (date_key, ms) = choose|date_key: u32, ms: u32| is_moment(b, date_key, ms);
        law_moments_are_read(b, date_key, ms);
    }
}

/// The byte is no decimal digit.
pub open spec fn no_digit(b: u8) -> bool {
    b < '0' as u8 || b > '9' as u8
}

/// The dashes, the letter and the colons stand where they should.
pub open spec fn is_marked(b: Seq<u8>) -> bool {
    &&& b.len() >= 19
    &&& b[4] == '-' as u8 && b[7] == '-' as u8 && b[10] == 'T' as u8
    &&& b[13] == ':' as u8 && b[16] == ':' as u8
}

/// Somewhere a number is due and there is a byte that is no digit.
pub open spec fn has_bad_digit(b: Seq<u8>) -> bool {
    ||| no_digit(b[0]) || no_digit(b[1]) || no_digit(b[2]) || no_digit(b[3])
    ||| no_digit(b[5]) || no_digit(b[6]) || no_digit(b[8]) || no_digit(b[9])
    ||| no_digit(b[11]) || no_digit(b[12]) || no_digit(b[14]) || no_digit(b[15])
    ||| no_digit(b[17]) || no_digit(b[18])
    ||| b.len() > 20 && b[19] == '.' as u8 && (no_digit(b[20]) || (b.len() > 21 && no_digit(b[21]))
        || (b.len() > 22 && no_digit(b[22])))
}

/// What is not read is refused for a bad digit where the marks are in place and
/// a number, or one of the first three digits of the fraction, is none, and
/// for its form otherwise.
pub proof fn law_moments_are_refused(b: Seq<u8>)
    ensures
        read_timestamp(b) == Err::<ParsedTs, ParseError>(ParseError::InvalidDigit) <==> is_marked(
            b,
        ) && has_bad_digit(b),
        read_timestamp(b) matches Err(e) ==> e == ParseError::InvalidDigit || e
            == ParseError::InvalidDatetime,
{
    if b.len() >= 19 {
        lemma_digits_in(b, 0, 4);
        lemma_digits_in(b, 5, 7);
        lemma_digits_in(b, 8, 10);
        lemma_digits_in(b, 11, 13);
        lemma_digits_in(b, 14, 16);
        lemma_digits_in(b, 17, 19);
        if b.len() > 20 {
            lemma_digits_in(b, 20, fraction_end(b));
        }
    }
}

proof fn lemma_digits_in(b: Seq<u8>, from: int, to: int)
    requires
        0 <= from < to <= b.len(),
        to <= from + 4,
    ensures
        digits_at(b, from, to) <==> !no_digit(b[from]) && (from + 1 < to ==> !no_digit(b[from + 1]))
            && (from + 2 < to ==> !no_digit(b[from + 2])) && (from + 3 < to ==> !no_digit(
            b[from + 3],
        )),
{
    let s = b.subrange(from, to);
    if digits_at(b, from, to) {
        assert(is_digit(s[0]));
        assert(from + 1 < to ==> is_digit(s[1]));
        assert(from + 2 < to ==> is_digit(s[2]));
        assert(from + 3 < to ==> is_digit(s[3]));
    } else {
        let i = choose|i: int| 0 <= i < s.len() && !is_digit(#[trigger] s[i]);
        assert(s[i] == b[from + i]);
        assert(i == 0 || i == 1 || i == 2 || i == 3);
    }
}

} // verus!
