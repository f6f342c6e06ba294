//! How numbers, dates and times are written, against how they are read.
use vstd::prelude::*;
use vstd::utf8::is_ascii_chars;

use crate::clock::{date_text, time_text, time_text_msec, MSEC_PER_DAY};
use crate::decimal::{
    all_digits, decimal, digit_char, digit_run, is_digit, law_value_is_positional,
    lemma_decimal_len, lemma_digit_run, lemma_value_bound, lemma_zero_padded_step, pow10, value,
    zero_padded, zeros,
};
use crate::parse::{
    digits_at, field, fraction_end, fraction_ms, lemma_read_overflows, lemma_read_stops,
    lemma_read_succeeds, lemma_small_pow10, marks_in_place, numbers_in_place, numbers_in_range,
    read, read_line, read_row, read_timestamp, without_cr, ParseError, ParsedTs, COMMA,
};
use crate::split::pieces;

verus! {

/// The bytes of a text that is all ASCII.
pub open spec fn ascii(text: Seq<char>) -> Seq<u8> {
    Seq::new(text.len(), |i: int| text[i] as u8)
}

/// One more digit on the right.
proof fn lemma_value_push(s: Seq<u8>, d: nat)
    requires
        all_digits(s),
        d < 10,
    ensures
        all_digits(s.push((48 + d) as u8)),
        value(s.push((48 + d) as u8)) == value(s) * 10 + d,
{
    let all = s.push((48 + d) as u8);
    assert(all.drop_last() =~= s);
    assert forall|i: int| 0 <= i < all.len() implies is_digit(#[trigger] all[i]) by {
        if i < s.len() {
            assert(all[i] == s[i]);
        }
    }
}

/// Decimal text is made of digits and stands for its number.
proof fn lemma_decimal_value(n: nat)
    ensures
        all_digits(ascii(decimal(n))),
        value(ascii(decimal(n))) == n,
    decreases n,
{
    let s = ascii(decimal(n));
    if n < 10 {
        assert(s =~= Seq::<u8>::empty().push((48 + n) as u8));
        lemma_value_push(Seq::empty(), n);
    } else {
        lemma_decimal_value(n / 10);
        lemma_value_push(ascii(decimal(n / 10)), n % 10);
        assert(s =~= ascii(decimal(n / 10)).push((48 + n % 10) as u8));
    }
}

/// So is padded text, which has its width where the number has no more digits.
proof fn lemma_padded_value(n: nat, width: nat)
    requires
        width >= 1,
        n < pow10(width),
    ensures
        zero_padded(n, width).len() == width,
        all_digits(ascii(zero_padded(n, width))),
        value(ascii(zero_padded(n, width))) == n,
    decreases width,
{
    let s = ascii(zero_padded(n, width));
    if width == 1 {
        lemma_small_pow10();
        assert(s =~= Seq::<u8>::empty().push((48 + n) as u8));
        lemma_value_push(Seq::empty(), n);
    } else {
        let rest = (width - 1) as nat;
        assert(pow10(width) == 10 * pow10(rest));
        lemma_padded_value(n / 10, rest);
        lemma_zero_padded_step(n, width);
        lemma_value_push(ascii(zero_padded(n / 10, rest)), n % 10);
        assert(s =~= ascii(zero_padded(n / 10, rest)).push((48 + n % 10) as u8));
    }
}

/// The other way round: digits are the padded text of the number they stand for.
proof fn lemma_padded_digits(s: Seq<u8>)
    requires
        s.len() >= 1,
        all_digits(s),
    ensures
        ascii(zero_padded(value(s), s.len())) == s,
    decreases s.len(),
{
    let init = s.drop_last();
    let d = (s.last() - 48) as nat;
    assert(is_digit(s[s.len() - 1]));
    if s.len() == 1 {
        assert(value(init) == 0);
        assert(zero_padded(d, 1) =~= seq![digit_char(d)]);
        assert(ascii(zero_padded(d, 1)) =~= s);
    } else {
        assert(all_digits(init)) by {
            assert forall|i: int| 0 <= i < init.len() implies is_digit(#[trigger] init[i]) by {
                assert(init[i] == s[i]);
            }
        }
        lemma_padded_digits(init);
        lemma_zero_padded_step(value(s), s.len());
        assert(value(s) / 10 == value(init) && value(s) % 10 == d);
        assert(ascii(zero_padded(value(s), s.len())) =~= ascii(
            zero_padded(value(init), init.len()),
        ).push((48 + d) as u8));
    }
}

/// A number that is written in decimal is read back.
pub proof fn law_decimal_reads_back(n: nat, max: nat)
    ensures
        read(ascii(decimal(n)), max) == if n <= max {
            Ok::<nat, ParseError>(n)
        } else {
            Err::<nat, ParseError>(ParseError::NumericOverflow)
        },
{
    lemma_decimal_len(n);
    lemma_decimal_value(n);
    if n <= max {
        lemma_read_succeeds(ascii(decimal(n)), max);
    } else {
        let s = ascii(decimal(n));
        assert(s.take(s.len() as int) =~= s);
        lemma_read_overflows(s, s.len() as int, max);
    }
}

/// All bytes are decimal digits.
pub open spec fn are_digits(s: Seq<u8>) -> bool {
    forall|i: int| 0 <= i < s.len() ==> '0' as u8 <= #[trigger] s[i] <= '9' as u8
}

/// Reading gives a number if and only if there is at least one byte, all bytes
/// are digits, and the number is not too large. Otherwise the first byte that
/// makes it fail, from the left, says why: it is no digit, or the digits up to
/// it stand for too large a number.
pub proof fn law_read_takes_numbers(s: Seq<u8>, max: nat)
    ensures
        read(s, max) is Ok <==> s.len() > 0 && are_digits(s) && value(s) <= max,
        read(s, max) is Ok ==> read(s, max) == Ok::<nat, ParseError>(value(s)),
        read(s, max) == Err::<nat, ParseError>(ParseError::EmptyColumn) <==> s.len() == 0,
        read(s, max) == Err::<nat, ParseError>(ParseError::InvalidDigit) <==> exists|i: int|
            stops_at(s, max, i),
        read(s, max) == Err::<nat, ParseError>(ParseError::NumericOverflow) <==> exists|i: int|
            overflows_at(s, max, i),
        read(s, max) is Ok || s.len() == 0 || (exists|i: int| stops_at(s, max, i)) || (exists|
            i: int,
        | overflows_at(s, max, i)),
{
    lemma_digit_run(s);
    let run = digit_run(s) as int;
    let head = s.take(run);
    assert(s.take(s.len() as int) =~= s);
    if are_digits(s) && run < s.len() {
        assert(is_digit(s[run]));
    }
    if s.len() > 0 && value(head) > max {
        lemma_first_too_large(s, max, run);
    } else if run < s.len() {
        assert(stops_at(s, max, run));
    } else if s.len() > 0 {
        assert(head =~= s);
        assert forall|i: int| 0 <= i < s.len() implies '0' as u8 <= #[trigger] s[i]
            <= '9' as u8 by {
            assert(is_digit(head[i]));
        }
    }
    assert forall|i: int| #[trigger] stops_at(s, max, i) implies read(s, max) == Err::<
        nat,
        ParseError,
    >(ParseError::InvalidDigit) by {
        lemma_read_stops(s, i, max);
    }
    assert forall|i: int| #[trigger] overflows_at(s, max, i) implies read(s, max) == Err::<
        nat,
        ParseError,
    >(ParseError::NumericOverflow) by {
        lemma_read_overflows(s, i, max);
    }
    if s.len() > 0 && are_digits(s) && value(s) <= max {
        lemma_read_succeeds(s, max);
    }
}

/// The byte `i` is no digit, and the digits before it stand for no too large a
/// number.
pub open spec fn stops_at(s: Seq<u8>, max: nat, i: int) -> bool {
    &&& 0 <= i < s.len()
    &&& are_digits(s.take(i))
    &&& value(s.take(i)) <= max
    &&& !('0' as u8 <= s[i] <= '9' as u8)
}

/// The first `i` bytes are digits, and are the first to stand for too large a
/// number.
pub open spec fn overflows_at(s: Seq<u8>, max: nat, i: int) -> bool {
    &&& 0 < i <= s.len()
    &&& are_digits(s.take(i))
    &&& value(s.take(i - 1)) <= max
    &&& value(s.take(i)) > max
}

/// Among digits that stand for too large a number there is a first that does it.
proof fn lemma_first_too_large(s: Seq<u8>, max: nat, k: int)
    requires
        0 <= k <= s.len(),
        all_digits(s.take(k)),
        value(s.take(k)) > max,
    ensures
        exists|i: int| overflows_at(s, max, i),
    decreases k,
{
    if k == 0 {
        assert(s.take(0) =~= Seq::<u8>::empty());
    } else if value(s.take(k - 1)) > max {
        assert forall|n: int| 0 <= n < k - 1 implies is_digit(#[trigger] s.take(k - 1)[n]) by {
            assert(s.take(k)[n] == s[n]);
        }
        lemma_first_too_large(s, max, k - 1);
    } else {
        assert(overflows_at(s, max, k));
    }
}

/// A date as the number `YYYYMMDD`: a year of at most four digits, a month from
/// 1 to 12 and a day from 1 to 31. Month lengths are not looked at.
pub open spec fn is_date(date_key: nat) -> bool {
    &&& date_key < 100_000_000
    &&& 1 <= (date_key / 100) % 100 <= 12
    &&& 1 <= date_key % 100 <= 31
}

/// A moment as it stands in a row: `YYYY-MM-DDThh:mm:ss.fff`.
pub open spec fn timestamp_text(date_key: nat, ms: nat) -> Seq<char> {
    date_text(date_key).push('T') + time_text_msec(ms)
}

/// A moment to the second, as it stands in a row: `YYYY-MM-DDThh:mm:ss`.
pub open spec fn timestamp_text_sec(date_key: nat, ms: nat) -> Seq<char> {
    date_text(date_key).push('T') + time_text(ms)
}

/// Where the parts of a written moment lie.
pub proof fn lemma_parts(date_key: nat, ms: nat)
    requires
        is_date(date_key),
        ms < MSEC_PER_DAY,
    ensures
        ({
            let b = ascii(timestamp_text_sec(date_key, ms));
            &&& b.len() == 19
            &&& marks_in_place(b)
            &&& b.subrange(0, 4) == ascii(zero_padded(date_key / 10_000, 4))
            &&& b.subrange(5, 7) == ascii(zero_padded((date_key / 100) % 100, 2))
            &&& b.subrange(8, 10) == ascii(zero_padded(date_key % 100, 2))
            &&& b.subrange(11, 13) == ascii(zero_padded(ms / 3_600_000, 2))
            &&& b.subrange(14, 16) == ascii(zero_padded((ms / 60_000) % 60, 2))
            &&& b.subrange(17, 19) == ascii(zero_padded((ms / 1000) % 60, 2))
        }),
{
    lemma_small_pow10();
    lemma_padded_value(date_key / 10_000, 4);
    lemma_padded_value((date_key / 100) % 100, 2);
    lemma_padded_value(date_key % 100, 2);
    lemma_padded_value(ms / 3_600_000, 2);
    lemma_padded_value((ms / 60_000) % 60, 2);
    lemma_padded_value((ms / 1000) % 60, 2);
    let b = ascii(timestamp_text_sec(date_key, ms));
    assert(b.subrange(0, 4) =~= ascii(zero_padded(date_key / 10_000, 4)));
    assert(b.subrange(5, 7) =~= ascii(zero_padded((date_key / 100) % 100, 2)));
    assert(b.subrange(8, 10) =~= ascii(zero_padded(date_key % 100, 2)));
    assert(b.subrange(11, 13) =~= ascii(zero_padded(ms / 3_600_000, 2)));
    assert(b.subrange(14, 16) =~= ascii(zero_padded((ms / 60_000) % 60, 2)));
    assert(b.subrange(17, 19) =~= ascii(zero_padded((ms / 1000) % 60, 2)));
}

/// The numbers of a written moment.
pub proof fn lemma_numbers(date_key: nat, ms: nat)
    requires
        is_date(date_key),
        ms < MSEC_PER_DAY,
    ensures
        ({
            let b = ascii(timestamp_text_sec(date_key, ms));
            &&& b.len() == 19
            &&& marks_in_place(b)
            &&& numbers_in_place(b)
            &&& numbers_in_range(b)
            &&& field(b, 0, 4) * 10_000 + field(b, 5, 7) * 100 + field(b, 8, 10) == date_key
            &&& ((field(b, 11, 13) * 60 + field(b, 14, 16)) * 60 + field(b, 17, 19)) * 1000 + ms
                % 1000 == ms
        }),
{
    lemma_small_pow10();
    lemma_parts(date_key, ms);
    lemma_padded_value(date_key / 10_000, 4);
    lemma_padded_value((date_key / 100) % 100, 2);
    lemma_padded_value(date_key % 100, 2);
    lemma_padded_value(ms / 3_600_000, 2);
    lemma_padded_value((ms / 60_000) % 60, 2);
    lemma_padded_value((ms / 1000) % 60, 2);
}

/// What follows the first nineteen bytes changes none of their numbers.
pub proof fn lemma_same_head(a: Seq<u8>, b: Seq<u8>)
    requires
        19 <= a.len() <= b.len(),
        a.take(19) == b.take(19),
    ensures
        marks_in_place(a) == marks_in_place(b),
        numbers_in_place(a) == numbers_in_place(b),
        numbers_in_range(a) == numbers_in_range(b),
        field(a, 0, 4) == field(b, 0, 4),
        field(a, 5, 7) == field(b, 5, 7),
        field(a, 8, 10) == field(b, 8, 10),
        field(a, 11, 13) == field(b, 11, 13),
        field(a, 14, 16) == field(b, 14, 16),
        field(a, 17, 19) == field(b, 17, 19),
{
    assert forall|i: int| 0 <= i < 19 implies a[i] == b[i] by {
        assert(a.take(19)[i] == a[i] && b.take(19)[i] == b[i]);
    }
    assert(a.subrange(0, 4) =~= b.subrange(0, 4));
    assert(a.subrange(5, 7) =~= b.subrange(5, 7));
    assert(a.subrange(8, 10) =~= b.subrange(8, 10));
    assert(a.subrange(11, 13) =~= b.subrange(11, 13));
    assert(a.subrange(14, 16) =~= b.subrange(14, 16));
    assert(a.subrange(17, 19) =~= b.subrange(17, 19));
}

/// A moment that is written to the millisecond is read back.
pub proof fn law_timestamp_reads_back(date_key: u32, ms: u32)
    requires
        is_date(date_key as nat),
        ms < MSEC_PER_DAY,
    ensures
        read_timestamp(ascii(timestamp_text(date_key as nat, ms as nat))) == Ok::<
            ParsedTs,
            ParseError,
        >(ParsedTs { date_key, ms_of_day: ms }),
{
    let a = ascii(timestamp_text_sec(date_key as nat, ms as nat));
    let b = ascii(timestamp_text(date_key as nat, ms as nat));
    let frac = zero_padded(ms as nat % 1000, 3);
    lemma_small_pow10();
    lemma_numbers(date_key as nat, ms as nat);
    lemma_padded_value(ms as nat % 1000, 3);
    assert(b =~= a.push(46) + ascii(frac));
    assert(a.take(19) =~= b.take(19));
    lemma_same_head(a, b);
    assert(b.subrange(20, 23) =~= ascii(frac));
}

/// A moment that is written to the second is read back, without its milliseconds.
pub proof fn law_timestamp_sec_reads_back(date_key: u32, ms: u32)
    requires
        is_date(date_key as nat),
        ms < MSEC_PER_DAY,
    ensures
        read_timestamp(ascii(timestamp_text_sec(date_key as nat, ms as nat))) == Ok::<
            ParsedTs,
            ParseError,
        >(ParsedTs { date_key, ms_of_day: (ms - ms % 1000) as u32 }),
{
    lemma_numbers(date_key as nat, ms as nat);
}

/// The numbers of a moment that can be read are bounded by their digits.
proof fn lemma_fields_bounded(b: Seq<u8>)
    requires
        b.len() >= 19,
        numbers_in_place(b),
    ensures
        field(b, 0, 4) < 10_000,
        b.len() > 20 && digits_at(b, 20, fraction_end(b)) ==> fraction_ms(b) < 1000,
{
    lemma_small_pow10();
    lemma_value_bound(b.subrange(0, 4));
    if b.len() > 20 && digits_at(b, 20, fraction_end(b)) {
        lemma_value_bound(b.subrange(20, fraction_end(b)));
    }
}

/// A date is made of its year, month and day.
proof fn lemma_date_parts(year: nat, month: nat, day: nat)
    requires
        year < 10_000,
        1 <= month <= 12,
        1 <= day <= 31,
    ensures
        ({
            let date_key = year * 10_000 + month * 100 + day;
            &&& is_date(date_key)
            &&& date_key / 10_000 == year
            &&& (date_key / 100) % 100 == month
            &&& date_key % 100 == day
        }),
{
    let date_key = year * 10_000 + month * 100 + day;
    let months = year * 100 + month;
    assert(date_key == months * 100 + day);
    lemma_quotient(months, 100, day);
    lemma_quotient(year, 100, month);
    lemma_quotient(year, 10_000, month * 100 + day);
}

/// A quotient and its rest.
proof fn lemma_quotient(q: nat, d: nat, r: nat)
    requires
        r < d,
    ensures
        (q * d + r) / d == q,
        (q * d + r) % d == r,
{
    vstd::arithmetic::div_mod::lemma_fundamental_div_mod_converse(
        (q * d + r) as int,
        d as int,
        q as int,
        r as int,
    );
}

/// A time of day is made of its hour, minute, second and millisecond.
proof fn lemma_time_parts(hour: nat, minute: nat, second: nat, msec: nat)
    requires
        hour <= 23,
        minute <= 59,
        second <= 59,
        msec < 1000,
    ensures
        ({
            let ms = ((hour * 60 + minute) * 60 + second) * 1000 + msec;
            &&& ms < MSEC_PER_DAY
            &&& ms / 3_600_000 == hour
            &&& (ms / 60_000) % 60 == minute
            &&& (ms / 1000) % 60 == second
            &&& ms % 1000 == msec
        }),
{
    let minutes = hour * 60 + minute;
    let seconds = minutes * 60 + second;
    lemma_quotient(seconds, 1000, msec);
    lemma_quotient(minutes, 60, second);
    lemma_quotient(hour, 60, minute);
    lemma_quotient(minutes, 60_000, second * 1000 + msec);
    lemma_quotient(hour, 3_600_000, minute * 60_000 + second * 1000 + msec);
}

/// Two moments with the same parts are the same bytes.
proof fn lemma_stitched(a: Seq<u8>, b: Seq<u8>)
    requires
        a.len() == 19,
        b.len() >= 19,
        marks_in_place(a),
        marks_in_place(b),
        a.subrange(0, 4) == b.subrange(0, 4),
        a.subrange(5, 7) == b.subrange(5, 7),
        a.subrange(8, 10) == b.subrange(8, 10),
        a.subrange(11, 13) == b.subrange(11, 13),
        a.subrange(14, 16) == b.subrange(14, 16),
        a.subrange(17, 19) == b.subrange(17, 19),
    ensures
        a == b.take(19),
{
    lemma_same_range(a, b, 0, 4);
    lemma_same_range(a, b, 5, 7);
    lemma_same_range(a, b, 8, 10);
    lemma_same_range(a, b, 11, 13);
    lemma_same_range(a, b, 14, 16);
    lemma_same_range(a, b, 17, 19);
    assert(a =~= b.take(19));
}

/// Equal subranges have equal bytes.
proof fn lemma_same_range(a: Seq<u8>, b: Seq<u8>, from: int, to: int)
    requires
        0 <= from <= to <= a.len(),
        to <= b.len(),
        a.subrange(from, to) == b.subrange(from, to),
    ensures
        forall|i: int| from <= i < to ==> a[i] == b[i],
{
    assert forall|i: int| from <= i < to implies a[i] == b[i] by {
        assert(a.subrange(from, to)[i - from] == a[i]);
        assert(b.subrange(from, to)[i - from] == b[i]);
    }
}

/// Output shows a moment as the input had it: what was read is a date and a
/// time of day, and their text is what stood in the row, to the second, and to
/// the millisecond where the fraction has at least three digits.
pub proof fn law_timestamp_writes_back(b: Seq<u8>)
    requires
        read_timestamp(b) is Ok,
    ensures
        ({
            let ts = read_timestamp(b)->Ok_0;
            &&& is_date(ts.date_key as nat)
            &&& ts.ms_of_day < MSEC_PER_DAY
            &&& ascii(timestamp_text_sec(ts.date_key as nat, ts.ms_of_day as nat)) == b.take(19)
            &&& b.len() >= 23 ==> ascii(timestamp_text(ts.date_key as nat, ts.ms_of_day as nat))
                == b.take(23)
            &&& b.len() == 23 ==> ascii(timestamp_text(ts.date_key as nat, ts.ms_of_day as nat))
                == b
        }),
{
    let ts = read_timestamp(b)->Ok_0;
    lemma_fields_bounded(b);
    lemma_date_parts(field(b, 0, 4), field(b, 5, 7), field(b, 8, 10));
    lemma_time_parts(field(b, 11, 13), field(b, 14, 16), field(b, 17, 19), fraction_ms(b));
    let a = ascii(timestamp_text_sec(ts.date_key as nat, ts.ms_of_day as nat));
    lemma_parts(ts.date_key as nat, ts.ms_of_day as nat);
    lemma_padded_digits(b.subrange(0, 4));
    lemma_padded_digits(b.subrange(5, 7));
    lemma_padded_digits(b.subrange(8, 10));
    lemma_padded_digits(b.subrange(11, 13));
    lemma_padded_digits(b.subrange(14, 16));
    lemma_padded_digits(b.subrange(17, 19));
    lemma_stitched(a, b);
    if b.len() >= 23 {
        let c = ascii(timestamp_text(ts.date_key as nat, ts.ms_of_day as nat));
        let digits = b.subrange(20, 23);
        lemma_padded_digits(digits);
        assert(ts.ms_of_day as nat % 1000 == value(digits));
        assert(c =~= a.push(46) + digits);
        assert(b.take(23) =~= b.take(19).push(46) + digits);
        if b.len() == 23 {
            assert(b.take(23) =~= b);
        }
    }
}

/// The numbers that stand for moments are ordered as the moments are: by year,
/// month and day, and by hour, minute, second and millisecond.
pub proof fn law_timestamp_order(a: Seq<u8>, b: Seq<u8>)
    requires
        read_timestamp(a) is Ok,
        read_timestamp(b) is Ok,
    ensures
        read_timestamp(a)->Ok_0.date_key < read_timestamp(b)->Ok_0.date_key <==> {
            ||| field(a, 0, 4) < field(b, 0, 4)
            ||| field(a, 0, 4) == field(b, 0, 4) && field(a, 5, 7) < field(b, 5, 7)
            ||| field(a, 0, 4) == field(b, 0, 4) && field(a, 5, 7) == field(b, 5, 7) && field(
                a,
                8,
                10,
            ) < field(b, 8, 10)
        },
        read_timestamp(a)->Ok_0.ms_of_day < read_timestamp(b)->Ok_0.ms_of_day <==> {
            ||| field(a, 11, 13) < field(b, 11, 13)
            ||| field(a, 11, 13) == field(b, 11, 13) && field(a, 14, 16) < field(b, 14, 16)
            ||| field(a, 11, 13) == field(b, 11, 13) && field(a, 14, 16) == field(b, 14, 16)
                && field(a, 17, 19) < field(b, 17, 19)
            ||| field(a, 11, 13) == field(b, 11, 13) && field(a, 14, 16) == field(b, 14, 16)
                && field(a, 17, 19) == field(b, 17, 19) && fraction_ms(a) < fraction_ms(b)
        },
{
    lemma_fields_bounded(a);
    lemma_fields_bounded(b);
}

/// Digits of the fraction after the third change nothing, be the moment readable
/// or not.
pub proof fn law_further_digits_dropped(b: Seq<u8>, more: Seq<u8>)
    requires
        b.len() >= 23,
        all_digits(more),
    ensures
        read_timestamp(b + more) == read_timestamp(b),
{
    let c = b + more;
    assert(b.take(19) =~= c.take(19));
    lemma_same_head(b, c);
    assert(b.subrange(20, 23) =~= c.subrange(20, 23));
    let tail = b.subrange(23, b.len() as int);
    let rest = c.subrange(23, c.len() as int);
    assert(rest =~= tail + more);
    if all_digits(tail) {
        assert forall|i: int| 0 <= i < rest.len() implies is_digit(#[trigger] rest[i]) by {
            if i < tail.len() {
                assert(rest[i] == tail[i]);
            } else {
                assert(rest[i] == more[i - tail.len()]);
            }
        }
    } else {
        let i = choose|i: int| 0 <= i < tail.len() && !is_digit(#[trigger] tail[i]);
        assert(rest[i] == tail[i]);
    }
}

/// Neither does a fraction that is a zero, where there was none, nor a zero at
/// the end of a fraction.
pub proof fn law_fraction_zero(b: Seq<u8>)
    ensures
        b.len() == 19 ==> read_timestamp(b.push(46).push(48)) == read_timestamp(b),
        b.len() > 20 ==> read_timestamp(b.push(48)) == read_timestamp(b),
{
    let zero = seq![48u8];
    assert(all_digits(zero));
    if b.len() == 19 {
        let c = b.push(46).push(48);
        assert(b.take(19) =~= c.take(19));
        lemma_same_head(b, c);
        assert(c.subrange(20, 21) =~= Seq::<u8>::empty().push((48 + 0) as u8));
        lemma_value_push(Seq::empty(), 0);
    } else if b.len() >= 23 {
        assert(b.push(48) =~= b + zero);
        law_further_digits_dropped(b, zero);
    } else if b.len() > 20 {
        let c = b.push(48);
        assert(b.take(19) =~= c.take(19));
        lemma_same_head(b, c);
        let head = b.subrange(20, b.len() as int);
        let longer = c.subrange(20, c.len() as int);
        assert(longer =~= head.push((48 + 0) as u8));
        if all_digits(head) {
            lemma_value_push(head, 0);
        } else {
            let i = choose|i: int| 0 <= i < head.len() && !is_digit(#[trigger] head[i]);
            assert(longer[i] == head[i]);
        }
    }
}

/// A carriage return at the end of a line changes nothing.
pub proof fn law_carriage_return(line: Seq<u8>)
    requires
        line.len() == 0 || line.last() != 13,
    ensures
        read_line(line.push(13)) == read_line(line),
{
    assert(line.push(13).drop_last() =~= line);
    assert(without_cr(line.push(13)) == without_cr(line));
}

/// The last column, the side, is not looked at.
pub proof fn law_side_ignored(a: Seq<u8>, b: Seq<u8>)
    requires
        pieces(a, COMMA).len() == 5,
        pieces(b, COMMA).len() == 5,
        forall|k: int| 0 <= k < 4 ==> #[trigger] pieces(a, COMMA)[k] == pieces(b, COMMA)[k],
    ensures
        read_row(a) == read_row(b),
{
}

/// All characters are decimal digits.
pub open spec fn is_numeral(text: Seq<char>) -> bool {
    forall|i: int| 0 <= i < text.len() ==> '0' <= #[trigger] text[i] <= '9'
}

/// Decimal text is made of digits, at least one, without needless zeros in
/// front, and stands for its number.
pub proof fn law_decimal_text(n: nat)
    ensures
        is_numeral(decimal(n)),
        are_digits(ascii(decimal(n))),
        value(ascii(decimal(n))) == n,
        decimal(n).len() >= 1,
        decimal(n).len() > 1 ==> decimal(n)[0] != '0',
    decreases n,
{
    lemma_decimal_value(n);
    if n >= 10 {
        law_decimal_text(n / 10);
        let rest = decimal(n / 10);
        assert(decimal(n) == rest.push(digit_char(n % 10)));
        assert forall|i: int| 0 <= i < decimal(n).len() implies '0' <= #[trigger] decimal(n)[i]
            <= '9' by {
            if i < rest.len() {
                assert(decimal(n)[i] == rest[i]);
            }
        }
        if rest.len() == 1 {
            assert(ascii(rest) =~= Seq::<u8>::empty().push(rest[0] as u8));
            lemma_value_push(Seq::empty(), (rest[0] as u8 - 48) as nat);
        }
    }
    let s = ascii(decimal(n));
    assert forall|i: int| 0 <= i < s.len() implies '0' as u8 <= #[trigger] s[i] <= '9' as u8 by {
        assert('0' <= decimal(n)[i] <= '9');
    }
}

/// Zeros stand for nothing.
proof fn lemma_zeros_value(count: int)
    ensures
        value(ascii(zeros(count))) == 0,
    decreases count,
{
    if count > 0 {
        lemma_zeros_value(count - 1);
        assert(ascii(zeros(count)).drop_last() =~= ascii(zeros(count - 1)));
    }
}

/// Padded text is made of digits, stands for its number, and is as wide as asked
/// for, where the number is not too large for that.
pub proof fn law_padded_text(n: nat, width: nat)
    ensures
        is_numeral(zero_padded(n, width)),
        are_digits(ascii(zero_padded(n, width))),
        value(ascii(zero_padded(n, width))) == n,
        zero_padded(n, width).len() >= width,
        width >= 1 && n < pow10(width) ==> zero_padded(n, width).len() == width,
{
    let text = zero_padded(n, width);
    let lead = zeros(width - decimal(n).len());
    law_decimal_text(n);
    lemma_zeros_value(width - decimal(n).len());
    assert(ascii(text) =~= ascii(lead) + ascii(decimal(n)));
    law_value_is_positional(ascii(lead), ascii(decimal(n)), 48);
    assert(0 * pow10(ascii(decimal(n)).len()) == 0) by (nonlinear_arith);
    if width >= 1 && n < pow10(width) {
        lemma_padded_value(n, width);
    }
    assert forall|i: int| 0 <= i < text.len() implies '0' <= #[trigger] text[i] <= '9' by {
        if i >= lead.len() {
            assert(text[i] == decimal(n)[i - lead.len()]);
        }
    }
    assert forall|i: int| 0 <= i < text.len() implies '0' as u8 <= #[trigger] ascii(text)[i]
        <= '9' as u8 by {
        assert('0' <= text[i] <= '9');
    }
}

/// Three numbers with the same mark between them, the second and the third of
/// two digits.
pub open spec fn three_numbers(b: Seq<u8>, mark: u8) -> bool {
    let n = b.len() as int;
    &&& n >= 8
    &&& b[n - 3] == mark && b[n - 6] == mark
    &&& are_digits(b.take(n - 6))
    &&& are_digits(b.subrange(n - 5, n - 3))
    &&& are_digits(b.subrange(n - 2, n))
}

/// The first of three numbers.
pub open spec fn first_number(b: Seq<u8>) -> nat {
    value(b.take(b.len() - 6))
}

/// The second of three numbers.
pub open spec fn second_number(b: Seq<u8>) -> nat {
    value(b.subrange(b.len() - 5, b.len() - 3))
}

/// The third of three numbers.
pub open spec fn third_number(b: Seq<u8>) -> nat {
    value(b.subrange(b.len() - 2, b.len() as int))
}

/// Three padded numbers with a mark between them.
proof fn lemma_three_numbers(x: nat, width: nat, y: nat, z: nat, mark: char)
    requires
        width >= 2,
        y < 100,
        z < 100,
        (mark as u32) < 128,
    ensures
        ({
            let text = zero_padded(x, width).push(mark) + zero_padded(y, 2).push(mark)
                + zero_padded(z, 2);
            let b = ascii(text);
            &&& three_numbers(b, mark as u8)
            &&& first_number(b) == x
            &&& second_number(b) == y
            &&& third_number(b) == z
            &&& b.len() >= width + 6
            &&& x < pow10(width) ==> b.len() == width + 6
            &&& is_ascii_chars(text)
        }),
{
    lemma_small_pow10();
    law_padded_text(x, width);
    law_padded_text(y, 2);
    law_padded_text(z, 2);
    let text = zero_padded(x, width).push(mark) + zero_padded(y, 2).push(mark) + zero_padded(z, 2);
    let b = ascii(text);
    let n = b.len() as int;
    assert(b.take(n - 6) =~= ascii(zero_padded(x, width)));
    assert(b.subrange(n - 5, n - 3) =~= ascii(zero_padded(y, 2)));
    assert(b.subrange(n - 2, n) =~= ascii(zero_padded(z, 2)));
    assert forall|i: int| 0 <= i < text.len() implies '\0' <= #[trigger] text[i]
        <= '\u{7f}' by {
        if i < n - 6 {
            assert(text[i] == zero_padded(x, width)[i]);
        } else if n - 5 <= i < n - 3 {
            assert(text[i] == zero_padded(y, 2)[i - (n - 5)]);
        } else if n - 2 <= i {
            assert(text[i] == zero_padded(z, 2)[i - (n - 2)]);
        } else {
            assert(text[i] == mark);
        }
    }
}

/// The text of a date holds year, month and day between dashes, which make up
/// the date again; with a year of at most four digits it is ten characters long.
pub proof fn law_date_text(date_key: nat)
    ensures
        ({
            let b = ascii(date_text(date_key));
            &&& three_numbers(b, '-' as u8)
            &&& first_number(b) * 10_000 + second_number(b) * 100 + third_number(b) == date_key
            &&& b.len() >= 10
            &&& date_key < 100_000_000 ==> b.len() == 10
        }),
        is_ascii_chars(date_text(date_key)),
{
    lemma_small_pow10();
    lemma_three_numbers(date_key / 10_000, 4, (date_key / 100) % 100, date_key % 100, '-');
}

/// The text of a time of day holds hours, minutes and seconds between colons,
/// minutes and seconds below sixty, which make up the time again but for its
/// milliseconds; below a hundred hours it is eight characters long.
pub proof fn law_time_text(ms: nat)
    ensures
        ({
            let b = ascii(time_text(ms));
            let seconds = first_number(b) * 3600 + second_number(b) * 60 + third_number(b);
            &&& three_numbers(b, ':' as u8)
            &&& second_number(b) < 60 && third_number(b) < 60
            &&& seconds * 1000 <= ms < seconds * 1000 + 1000
            &&& b.len() >= 8
            &&& ms < 360_000_000 ==> b.len() == 8
        }),
        is_ascii_chars(time_text(ms)),
{
    lemma_small_pow10();
    lemma_three_numbers(ms / 3_600_000, 2, (ms / 60_000) % 60, (ms / 1000) % 60, ':');
}

/// The text of a time of day to the millisecond is that to the second, a point,
/// and three digits for the milliseconds.
pub proof fn law_time_text_msec(ms: nat)
    ensures
        ({
            let text = time_text_msec(ms);
            let n = text.len() as int;
            &&& n >= 12
            &&& text.take(n - 4) == time_text(ms)
            &&& text[n - 4] == '.'
            &&& are_digits(ascii(text.subrange(n - 3, n)))
            &&& value(ascii(text.subrange(n - 3, n))) == ms % 1000
        }),
        is_ascii_chars(time_text_msec(ms)),
{
    lemma_small_pow10();
    law_time_text(ms);
    law_padded_text(ms % 1000, 3);
    let text = time_text_msec(ms);
    let frac = zero_padded(ms % 1000, 3);
    let n = text.len() as int;
    assert(text.take(n - 4) =~= time_text(ms));
    assert(text.subrange(n - 3, n) =~= frac);
    assert forall|i: int| 0 <= i < text.len() implies '\0' <= #[trigger] text[i]
        <= '\u{7f}' by {
        if i < n - 4 {
            assert(text[i] == time_text(ms)[i]);
        } else if i > n - 4 {
            assert(text[i] == frac[i - (n - 3)]);
        }
    }
}

} // verus!
