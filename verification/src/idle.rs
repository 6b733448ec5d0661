//! How long the service waits for its next client before it exits.

use vstd::prelude::*;
use crate::wire::text_bytes;

verus! {

/// Lifetime used when the caller asks for none, or for one out of bounds.
pub const DEFAULT_IDLE_TIMEOUT_SECONDS: u64 = 10;

/// Longest lifetime a caller may request, so that a forgotten service
/// cannot retain its image indefinitely.
pub const MAX_IDLE_TIMEOUT_SECONDS: u64 = 300;

/// The lifetime in seconds that a requested value selects.
pub open spec fn spec_idle_timeout(seconds: Option<u64>) -> u64 {
    match seconds {
        Some(s) if 1 <= s <= MAX_IDLE_TIMEOUT_SECONDS => s,
        _ => DEFAULT_IDLE_TIMEOUT_SECONDS,
    }
}

/// Returns the service lifetime in seconds: the requested value when it lies
/// in `1..=MAX_IDLE_TIMEOUT_SECONDS`, otherwise the default.
pub fn idle_timeout_from_seconds(seconds: Option<u64>) -> (timeout: u64)
    ensures
        timeout == spec_idle_timeout(seconds),
        1 <= timeout <= MAX_IDLE_TIMEOUT_SECONDS,
        forall|s: u64| seconds == Some(s) && 1 <= s <= 300 ==> timeout == s,
        forall|s: u64| seconds == Some(s) && (s < 1 || s > 300) ==> timeout == 10,
        seconds is None ==> timeout == 10,
{
    match seconds {
        Some(s) if 1 <= s && s <= MAX_IDLE_TIMEOUT_SECONDS => s,
        _ => DEFAULT_IDLE_TIMEOUT_SECONDS,
    }
}

/// Whether a byte is an ASCII decimal digit.
pub open spec fn is_digit_byte(b: u8) -> bool {
    48 <= b <= 57
}

/// The number that ASCII decimal digits write.
pub open spec fn decimal_value(digits: Seq<u8>) -> nat
    decreases digits.len(),
{
    if digits.len() == 0 {
        0
    } else {
        decimal_value(digits.drop_last()) * 10 + (digits.last() - 48) as nat
    }
}

/// The bytes after an optional leading `+`.
pub open spec fn unsigned_digits(bytes: Seq<u8>) -> Seq<u8> {
    if bytes.len() > 0 && bytes[0] == 43 {
        bytes.drop_first()
    } else {
        bytes
    }
}

/// What `u64::from_str` reads from a text: an optional `+` followed by one or
/// more decimal digits and nothing else, whose value fits in a `u64`;
/// `None` for any other text.
pub open spec fn decimal_u64(text: Seq<char>) -> Option<u64> {
    let digits = unsigned_digits(text_bytes(text));
    if digits.len() > 0 && (forall|i: int| 0 <= i < digits.len() ==> #[trigger] is_digit_byte(digits[i]))
        && decimal_value(digits) <= u64::MAX {
        Some(decimal_value(digits) as u64)
    } else {
        None
    }
}

proof fn lemma_decimal_value_grows(digits: Seq<u8>, k: int)
    requires
        0 <= k <= digits.len(),
    ensures
        decimal_value(digits.take(k)) <= decimal_value(digits),
    decreases digits.len(),
{
    if k < digits.len() {
        lemma_decimal_value_grows(digits.drop_last(), k);
        assert(digits.drop_last().take(k) =~= digits.take(k));
    } else {
        assert(digits.take(k) =~= digits);
    }
}

/// Reads a number of seconds as `u64::from_str` does.
fn parse_u64(text: &str) -> (value: Option<u64>)
    ensures
        value == decimal_u64(text@),
{
    let bytes = text.as_bytes();
    let ghost all = bytes@;
    let mut start: usize = 0;
    if bytes.len() > 0 && bytes[0] == 43 {
        start = 1;
    }
    let ghost digits = unsigned_digits(all);
    assert(digits =~= all.subrange(start as int, all.len() as int));
    if start == bytes.len() {
        return None;
    }
    let mut value: u64 = 0;
    let mut i: usize = start;
    while i < bytes.len()
        invariant
            bytes@ == all,
            all == text_bytes(text@),
            start <= i <= all.len(),
            digits == all.subrange(start as int, all.len() as int),
            digits == unsigned_digits(all),
            digits.len() > 0,
            forall|j: int| 0 <= j < i - start ==> #[trigger] is_digit_byte(digits[j]),
            value == decimal_value(digits.take(i - start)),
        decreases all.len() - i,
    {
        let b: u8 = bytes[i];
        if b < 48 || b > 57 {
            assert(!is_digit_byte(digits[i - start]));
            return None;
        }
        let d: u64 = (b - 48) as u64;
        assert(digits.take(i - start + 1).drop_last() =~= digits.take(i - start));
        if value > (u64::MAX - d) / 10 {
            proof {
                let taken = digits.take(i - start + 1);
                assert(decimal_value(taken) == value * 10 + d);
                lemma_decimal_value_grows(digits, i - start + 1);
            }
            return None;
        }
        value = value * 10 + d;
        i = i + 1;
    }
    assert(digits.take(i - start) =~= digits);
    Some(value)
}

/// The lifetime that a configured setting selects: the setting read as a
/// number of seconds, kept when it is in bounds, and the default when it is
/// absent, unreadable or out of bounds.
pub fn configured_idle_timeout(setting: Option<&str>) -> (timeout: u64)
    ensures
        timeout == spec_idle_timeout(
            match setting {
                Some(text) => decimal_u64(text@),
                None => None,
            },
        ),
{
    let seconds = match setting {
        Some(text) => parse_u64(text),
        None => None,
    };
    idle_timeout_from_seconds(seconds)
}

/// A requested lifetime from one to three hundred seconds is kept as it is;
/// no request, or any other value, selects ten seconds.
pub proof fn lemma_idle_timeout_selection(seconds: Option<u64>)
    ensures
        forall|s: u64| seconds == Some(s) && 1 <= s <= 300 ==> spec_idle_timeout(seconds) == s,
        forall|s: u64|
            seconds == Some(s) && (s < 1 || s > 300) ==> spec_idle_timeout(seconds) == 10,
        seconds is None ==> spec_idle_timeout(seconds) == 10,
{
}

/// A text that is one ASCII digit (`0` to `9`) reads as that digit's value.
pub proof fn lemma_decimal_single_digit(text: Seq<char>, b: u8)
    requires
        text_bytes(text) == seq![b],
        48 <= b <= 57,
    ensures
        decimal_u64(text) == Some((b - 48) as u64),
{
    let bytes = text_bytes(text);
    assert(unsigned_digits(bytes) == bytes);
    assert(bytes.drop_last() =~= Seq::<u8>::empty());
    assert(decimal_value(bytes.drop_last()) == 0);
    assert(bytes.last() == b);
    assert(decimal_value(bytes) == (b - 48) as nat);
    assert(is_digit_byte(bytes[0]));
}

/// Appending an ASCII digit (`0` to `9`) to a text that reads as `value`
/// makes it read as `value * 10` plus that digit, as long as that fits in a
/// `u64`.
pub proof fn lemma_decimal_append_digit(text: Seq<char>, longer: Seq<char>, b: u8, value: u64)
    requires
        decimal_u64(text) == Some(value),
        text_bytes(longer) == text_bytes(text).push(b),
        48 <= b <= 57,
        value * 10 + (b - 48) <= u64::MAX,
    ensures
        decimal_u64(longer) == Some((value * 10 + (b - 48)) as u64),
{
    let bytes = text_bytes(text);
    let digits = unsigned_digits(bytes);
    let longer_bytes = text_bytes(longer);
    assert(bytes.len() > 0);
    assert(longer_bytes[0] == bytes[0]);
    let longer_digits = unsigned_digits(longer_bytes);
    assert(longer_digits =~= digits.push(b));
    assert(longer_digits.drop_last() =~= digits);
    assert forall|i: int| 0 <= i < longer_digits.len() implies #[trigger] is_digit_byte(
        longer_digits[i],
    ) by {
        if i < digits.len() {
            assert(longer_digits[i] == digits[i]);
        }
    }
}

/// Appending an ASCII digit to a text that reads as `value` makes it
/// unreadable when `value * 10` plus the digit does not fit in a `u64`.
pub proof fn lemma_decimal_append_overflows(text: Seq<char>, longer: Seq<char>, b: u8, value: u64)
    requires
        decimal_u64(text) == Some(value),
        text_bytes(longer) == text_bytes(text).push(b),
        48 <= b <= 57,
        value * 10 + (b - 48) > u64::MAX,
    ensures
        decimal_u64(longer) is None,
{
    let bytes = text_bytes(text);
    let digits = unsigned_digits(bytes);
    let longer_bytes = text_bytes(longer);
    assert(longer_bytes[0] == bytes[0]);
    let longer_digits = unsigned_digits(longer_bytes);
    assert(longer_digits =~= digits.push(b));
    assert(longer_digits.drop_last() =~= digits);
}

/// A leading `+` changes nothing: `+` followed by a text that does not itself
/// start with `+` reads as that text.
pub proof fn lemma_decimal_plus_sign(text: Seq<char>, signed: Seq<char>)
    requires
        text_bytes(signed) == seq![43u8] + text_bytes(text),
        text_bytes(text).len() == 0 || text_bytes(text)[0] != 43,
    ensures
        decimal_u64(signed) == decimal_u64(text),
{
    assert(unsigned_digits(text_bytes(signed)) =~= text_bytes(text));
    assert(unsigned_digits(text_bytes(text)) == text_bytes(text));
}

/// A text reads as nothing when some byte is not an ASCII digit (`0` to `9`)
/// and is not a `+` in first place.
pub proof fn lemma_decimal_rejects(text: Seq<char>, i: int)
    requires
        0 <= i < text_bytes(text).len(),
        !(48 <= text_bytes(text)[i] <= 57),
        !(i == 0 && text_bytes(text)[i] == 43),
    ensures
        decimal_u64(text) is None,
{
    let bytes = text_bytes(text);
    let digits = unsigned_digits(bytes);
    if bytes.len() > 0 && bytes[0] == 43 {
        assert(digits[i - 1] == bytes[i]);
        assert(!is_digit_byte(digits[i - 1]));
    } else {
        assert(!is_digit_byte(digits[i]));
    }
}

/// The empty text reads as nothing.
pub proof fn lemma_decimal_rejects_empty(text: Seq<char>)
    requires
        text_bytes(text).len() == 0,
    ensures
        decimal_u64(text) is None,
{
}

/// A setting of one to three ASCII digits (`0` to `9`) selects the number
/// they write in decimal when it is from one to three hundred, and ten
/// seconds otherwise.
pub proof fn lemma_short_setting_selects_its_number(text: Seq<char>)
    requires
        1 <= text_bytes(text).len() <= 3,
        forall|i: int| 0 <= i < text_bytes(text).len() ==> 48 <= #[trigger] text_bytes(text)[i] <= 57,
    ensures
        ({
            let b = text_bytes(text);
            let n: int = if b.len() == 1 {
                b[0] - 48
            } else if b.len() == 2 {
                (b[0] - 48) * 10 + (b[1] - 48)
            } else {
                (b[0] - 48) * 100 + (b[1] - 48) * 10 + (b[2] - 48)
            };
            &&& 1 <= n <= 300 ==> spec_idle_timeout(decimal_u64(text)) == n
            &&& !(1 <= n <= 300) ==> spec_idle_timeout(decimal_u64(text)) == 10
        }),
{
    let b = text_bytes(text);
    assert(unsigned_digits(b) == b);
    assert forall|i: int| 0 <= i < b.len() implies #[trigger] is_digit_byte(b[i]) by {
        assert(48 <= b[i] <= 57);
    }
    reveal_with_fuel(decimal_value, 4);
    if b.len() >= 2 {
        assert(b.drop_last().drop_last().len() == b.len() - 2);
        assert(b.drop_last().last() == b[b.len() - 2]);
    }
    if b.len() == 3 {
        assert(b.drop_last().drop_last().last() == b[0]);
        assert(b.drop_last().drop_last().drop_last().len() == 0);
    }
    if b.len() == 2 {
        assert(b.drop_last().drop_last().len() == 0);
    }
    if b.len() == 1 {
        assert(b.drop_last().len() == 0);
    }
}

/// Converts a lifetime in seconds to the millisecond timeout that `poll`
/// takes.
pub fn poll_timeout_millis(seconds: u64) -> (millis: i32)
    requires
        seconds * 1000 <= i32::MAX,
    ensures
        millis == seconds * 1000,
{
    (seconds * 1000) as i32
}

/// What one `poll` on the listener means for the waiting service.
#[derive(Clone, Copy, Debug, PartialEq, Eq, Structural)]
pub enum PollOutcome {
    /// A client is waiting to be accepted.
    Ready,
    /// The idle lifetime expired: the service exits.
    Expired,
    /// A signal interrupted the wait: poll again.
    Retry,
    /// `poll` failed for another reason: report it.
    Failed,
}

/// Interprets the value `poll` returned, and, when it was negative, whether
/// the error was an interruption.
pub fn poll_outcome(ready: i32, interrupted: bool) -> (outcome: PollOutcome)
    ensures
        ready > 0 ==> outcome == PollOutcome::Ready,
        ready == 0 ==> outcome == PollOutcome::Expired,
        ready < 0 && interrupted ==> outcome == PollOutcome::Retry,
        ready < 0 && !interrupted ==> outcome == PollOutcome::Failed,
{
    if ready > 0 {
        PollOutcome::Ready
    } else if ready == 0 {
        PollOutcome::Expired
    } else if interrupted {
        PollOutcome::Retry
    } else {
        PollOutcome::Failed
    }
}

/// Every lifetime this module selects converts to a `poll` timeout.
pub proof fn lemma_idle_timeout_fits_poll(seconds: Option<u64>)
    ensures
        spec_idle_timeout(seconds) * 1000 <= i32::MAX,
{
}

} // verus!
