//! Unsigned decimal numbers, read from ASCII bytes and written as text.
use vstd::prelude::*;

verus! {

/// An ASCII decimal digit.
pub open spec fn is_digit(b: u8) -> bool {
    48 <= b <= 57
}

/// The number that a sequence of ASCII digits stands for.
pub open spec fn value(s: Seq<u8>) -> nat
    decreases s.len(),
{
    if s.len() == 0 {
        0
    } else {
        value(s.drop_last()) * 10 + (s.last() - 48) as nat
    }
}

/// How many digits `s` starts with.
pub open spec fn digit_run(s: Seq<u8>) -> nat
    decreases s.len(),
{
    if s.len() == 0 || !is_digit(s[0]) {
        0
    } else {
        1 + digit_run(s.drop_first())
    }
}

/// Every byte is a digit.
pub open spec fn all_digits(s: Seq<u8>) -> bool {
    forall|i: int| 0 <= i < s.len() ==> is_digit(#[trigger] s[i])
}

/// The run of digits ends at the first byte that is none.
pub proof fn lemma_digit_run_ends(s: Seq<u8>, k: int)
    requires
        0 <= k <= s.len(),
        all_digits(s.take(k)),
        k < s.len() ==> !is_digit(s[k]),
    ensures
        digit_run(s) == k,
    decreases s.len(),
{
    if k > 0 {
        assert(s.take(k)[0] == s[0]);
        assert(all_digits(s.drop_first().take(k - 1))) by {
            assert forall|i: int| 0 <= i < k - 1 implies is_digit(
                #[trigger] s.drop_first().take(k - 1)[i],
            ) by {
                assert(s.take(k)[i + 1] == s[i + 1]);
            }
        }
        lemma_digit_run_ends(s.drop_first(), k - 1);
    }
}

/// The run is made of digits and cannot be made longer.
pub proof fn lemma_digit_run(s: Seq<u8>)
    ensures
        digit_run(s) <= s.len(),
        all_digits(s.take(digit_run(s) as int)),
        digit_run(s) < s.len() ==> !is_digit(s[digit_run(s) as int]),
    decreases s.len(),
{
    if s.len() > 0 && is_digit(s[0]) {
        lemma_digit_run(s.drop_first());
        let k = digit_run(s) as int;
        assert forall|i: int| 0 <= i < k implies is_digit(#[trigger] s.take(k)[i]) by {
            if i > 0 {
                assert(s.drop_first().take(k - 1)[i - 1] == s[i]);
            }
        }
    }
}

/// A longer prefix stands for no smaller a number.
pub proof fn lemma_value_grows(s: Seq<u8>, i: int, j: int)
    requires
        0 <= i <= j <= s.len(),
        all_digits(s.take(j)),
    ensures
        value(s.take(i)) <= value(s.take(j)),
    decreases j - i,
{
    if i < j {
        assert(all_digits(s.take(j - 1))) by {
            assert forall|n: int| 0 <= n < j - 1 implies is_digit(#[trigger] s.take(j - 1)[n]) by {
                assert(s.take(j)[n] == s[n]);
            }
        }
        lemma_value_grows(s, i, j - 1);
        assert(s.take(j).drop_last() =~= s.take(j - 1));
    }
}

/// Ten to the power of `k`.
pub open spec fn pow10(k: nat) -> nat
    decreases k,
{
    if k == 0 {
        1
    } else {
        10 * pow10((k - 1) as nat)
    }
}

/// `k` digits stand for a number below ten to the power of `k`.
pub proof fn lemma_value_bound(s: Seq<u8>)
    requires
        all_digits(s),
    ensures
        value(s) < pow10(s.len()),
    decreases s.len(),
{
    if s.len() > 0 {
        assert(all_digits(s.drop_last())) by {
            assert forall|i: int| 0 <= i < s.len() - 1 implies is_digit(
                #[trigger] s.drop_last()[i],
            ) by {
                assert(s.drop_last()[i] == s[i]);
            }
        }
        assert(is_digit(s[s.len() - 1]));
        lemma_value_bound(s.drop_last());
    }
}

/// The digit `d` (below ten) as a character.
pub open spec fn digit_char(d: nat) -> char {
    (48 + d) as char
}

/// `n` in decimal, without leading zeros.
pub open spec fn decimal(n: nat) -> Seq<char>
    decreases n,
{
    if n < 10 {
        seq![digit_char(n)]
    } else {
        decimal(n / 10).push(digit_char(n % 10))
    }
}

/// `count` zeros.
pub open spec fn zeros(count: int) -> Seq<char> {
    Seq::new(
        if count > 0 {
            count as nat
        } else {
            0
        },
        |i: int| '0',
    )
}

/// `n` in decimal, with leading zeros up to `width` characters.
pub open spec fn zero_padded(n: nat, width: nat) -> Seq<char> {
    zeros(width - decimal(n).len()) + decimal(n)
}

/// A padded number is the padded rest followed by its last digit.
pub proof fn lemma_zero_padded_step(n: nat, width: nat)
    requires
        width >= 2,
    ensures
        zero_padded(n, width) == zero_padded(n / 10, (width - 1) as nat).push(digit_char(n % 10)),
{
    lemma_decimal_len(n / 10);
    if n < 10 {
        assert(decimal(0) =~= seq!['0']);
    }
    assert(zero_padded(n, width) =~= zero_padded(n / 10, (width - 1) as nat).push(
        digit_char(n % 10),
    ));
}

/// A number has at least one digit.
pub proof fn lemma_decimal_len(n: nat)
    ensures
        decimal(n).len() >= 1,
    decreases n,
{
    if n >= 10 {
        lemma_decimal_len(n / 10);
    }
}

/// `String::push` of the standard library: the character is put at the end.
pub assume_specification[ String::push ](s: &mut String, c: char)
    ensures
        final(s)@ == old(s)@.push(c),
;

/// Appends the digit `d`.
fn push_digit(out: &mut String, d: u8)
    requires
        d < 10,
    ensures
        final(out)@ == old(out)@.push(digit_char(d as nat)),
{
    out.push((48 + d) as char);
}

/// Appends `n` in decimal.
pub fn push_decimal(out: &mut String, n: u128)
    ensures
        final(out)@ == old(out)@ + decimal(n as nat),
    decreases n,
{
    if n >= 10 {
        push_decimal(out, n / 10);
    }
    push_digit(out, (n % 10) as u8);
    assert(out@ =~= old(out)@ + decimal(n as nat));
}

/// Appends `n` in decimal, padded with zeros to `width` characters.
pub fn push_zero_padded(out: &mut String, n: u32, width: u32)
    ensures
        final(out)@ == old(out)@ + zero_padded(n as nat, width as nat),
    decreases width,
{
    if width < 2 {
        proof {
            lemma_decimal_len(n as nat);
            assert(zero_padded(n as nat, width as nat) =~= decimal(n as nat));
        }
        push_decimal(out, n as u128);
    } else {
        push_zero_padded(out, n / 10, width - 1);
        push_digit(out, (n % 10) as u8);
        proof {
            lemma_zero_padded_step(n as nat, width as nat);
            assert(out@ =~= old(out)@ + zero_padded(n as nat, width as nat));
        }
    }
}

/// A digit stands for how far it is from the digit zero, and the digits before
/// others count ten times as much for each of these.
pub proof fn law_value_is_positional(a: Seq<u8>, b: Seq<u8>, d: u8)
    requires
        is_digit(d),
    ensures
        value(seq![d]) == d - 48,
        value(a + b) == value(a) * pow10(b.len()) + value(b),
        pow10(0) == 1,
        pow10(b.len() + 1) == 10 * pow10(b.len()),
    decreases b.len(),
{
    assert(seq![d].drop_last() =~= Seq::<u8>::empty());
    reveal_with_fuel(value, 2);
    if b.len() == 0 {
        assert(a + b =~= a);
        assert(value(a) * 1 == value(a)) by (nonlinear_arith);
    } else {
        let init = b.drop_last();
        law_value_is_positional(a, init, d);
        assert((a + b).drop_last() =~= a + init);
        let (v, p) = (value(a), pow10(init.len()));
        assert((v * p) * 10 == v * (10 * p)) by (nonlinear_arith);
    }
}

} // verus!
