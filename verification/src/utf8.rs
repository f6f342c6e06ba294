//! Text taken from raw bytes.
use vstd::prelude::*;
use vstd::string::StringSliceAdditionalSpecFns;
use vstd::utf8::valid_utf8;

use crate::decimal::{decimal, push_decimal};

verus! {

/// Where and how a byte sequence stops being UTF-8.
#[derive(Debug, Clone, Copy, PartialEq, Eq, Structural)]
pub struct Utf8Error {
    /// Length of the longest prefix that is UTF-8.
    pub valid_up_to: usize,
    /// Length of the offending sequence after that prefix, or `None` where the
    /// bytes end in the middle of a character.
    pub error_len: Option<usize>,
}

/// No prefix longer than `n` bytes is UTF-8, and that of `n` bytes is.
pub open spec fn is_longest_valid(bytes: Seq<u8>, n: nat) -> bool {
    &&& n <= bytes.len()
    &&& valid_utf8(bytes.take(n as int))
    &&& forall|m: int| n < m <= bytes.len() ==> !valid_utf8(#[trigger] bytes.take(m))
}

/// Length of the longest prefix that is UTF-8.
pub open spec fn valid_up_to(bytes: Seq<u8>) -> nat {
    choose|n: nat| is_longest_valid(bytes, n)
}

/// What `std::str::Utf8Error::error_len` tells of bytes that are not UTF-8.
pub uninterp spec fn utf8_error_len(bytes: Seq<u8>) -> Option<usize>;

/// The error that bytes which are not UTF-8 give.
pub open spec fn utf8_error(bytes: Seq<u8>) -> Utf8Error {
    Utf8Error { valid_up_to: valid_up_to(bytes) as usize, error_len: utf8_error_len(bytes) }
}

/// There is only one longest prefix.
pub proof fn lemma_valid_up_to(bytes: Seq<u8>, n: nat)
    requires
        is_longest_valid(bytes, n),
    ensures
        valid_up_to(bytes) == n,
{
    let m = valid_up_to(bytes);
    assert(is_longest_valid(bytes, m));
    if n < m {
        assert(!valid_utf8(bytes.take(m as int)));
    } else if m < n {
        assert(!valid_utf8(bytes.take(n as int)));
    }
}

/// `std::str::from_utf8`, with the two numbers of its error taken out. Claimed
/// of it: it succeeds on valid UTF-8 and on nothing else, and the text it gives
/// has the same bytes; otherwise `valid_up_to` is the length of the longest
/// valid prefix, and `error_len` depends on the bytes alone, is `None` only
/// where at most three bytes follow that prefix, and is else the length of a
/// sequence of bytes, at least one, that follows it.
#[verifier::external_body]
fn std_from_utf8<'a>(bytes: &'a [u8]) -> (res: Result<&'a str, Utf8Error>)
    ensures
        res is Ok <==> valid_utf8(bytes@),
        res matches Ok(text) ==> text.spec_bytes() == bytes@,
        res matches Err(e) ==> is_longest_valid(bytes@, e.valid_up_to as nat),
        res matches Err(e) ==> e.error_len == utf8_error_len(bytes@),
        res matches Err(e) ==> e.error_len is None ==> 1 <= bytes@.len() - e.valid_up_to <= 3,
        res matches Err(e) ==> (e.error_len matches Some(len) ==> 1 <= len <= bytes@.len()
            - e.valid_up_to),
{
    match std::str::from_utf8(bytes) {
        Ok(text) => Ok(text),
        Err(e) => Err(Utf8Error { valid_up_to: e.valid_up_to(), error_len: e.error_len() }),
    }
}

/// Reads `bytes` as UTF-8.
pub fn text_of<'a>(bytes: &'a [u8]) -> (res: Result<&'a str, Utf8Error>)
    ensures
        match res {
            Ok(text) => valid_utf8(bytes@) && text.spec_bytes() == bytes@,
            Err(e) => {
                &&& !valid_utf8(bytes@)
                &&& e == utf8_error(bytes@)
                &&& is_longest_valid(bytes@, e.valid_up_to as nat)
                &&& e.error_len is None ==> 1 <= bytes@.len() - e.valid_up_to <= 3
                &&& e.error_len matches Some(len) ==> 1 <= len <= bytes@.len() - e.valid_up_to
            },
        },
{
    let res = std_from_utf8(bytes);
    proof {
        if let Err(e) = res {
            lemma_valid_up_to(bytes@, e.valid_up_to as nat);
        }
    }
    res
}

impl Utf8Error {
    /// The message for this error.
    pub open spec fn spec_message(self) -> Seq<char> {
        match self.error_len {
            Some(len) => "invalid utf-8 sequence of "@ + decimal(len as nat) + " bytes from index "@
                + decimal(self.valid_up_to as nat),
            None => "incomplete utf-8 byte sequence from index "@ + decimal(
                self.valid_up_to as nat,
            ),
        }
    }

    /// The message for this error.
    pub fn message(&self) -> (text: String)
        ensures
            text@ == self.spec_message(),
    {
        let mut text = String::new();
        match self.error_len {
            Some(len) => {
                text.append("invalid utf-8 sequence of ");
                push_decimal(&mut text, len as u128);
                text.append(" bytes from index ");
            },
            None => {
                text.append("incomplete utf-8 byte sequence from index ");
            },
        }
        push_decimal(&mut text, self.valid_up_to as u128);
        assert(text@ =~= self.spec_message());
        text
    }
}

/// Some prefix is the longest that is UTF-8, where none longer than `k` is.
proof fn lemma_longest_exists(bytes: Seq<u8>, k: nat)
    requires
        k <= bytes.len(),
        forall|m: int| k < m <= bytes.len() ==> !valid_utf8(#[trigger] bytes.take(m)),
    ensures
        exists|n: nat| is_longest_valid(bytes, n),
    decreases k,
{
    if valid_utf8(bytes.take(k as int)) {
        assert(is_longest_valid(bytes, k));
    } else if k == 0 {
        assert(bytes.take(0) =~= Seq::<u8>::empty());
    } else {
        lemma_longest_exists(bytes, (k - 1) as nat);
    }
}

/// Of bytes that are no text, the error names how many of them, from the left,
/// are text, and these are the most that are.
pub proof fn law_error_tells_how_far_text_goes(bytes: Seq<u8>)
    requires
        !valid_utf8(bytes),
        bytes.len() <= usize::MAX,
    ensures
        ({
            let n = utf8_error(bytes).valid_up_to as int;
            &&& n < bytes.len()
            &&& valid_utf8(bytes.take(n))
            &&& forall|m: int| n < m <= bytes.len() ==> !valid_utf8(#[trigger] bytes.take(m))
        }),
        utf8_error(bytes).error_len == utf8_error_len(bytes),
{
    assert(bytes.take(bytes.len() as int) =~= bytes);
    lemma_longest_exists(bytes, bytes.len());
    assert(is_longest_valid(bytes, valid_up_to(bytes)));
}

} // verus!
