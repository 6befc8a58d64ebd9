//! The context window: how long it is, how much of it a request takes, and
//! which messages go where it does not fit.
use vstd::prelude::*;
use vstd::string::*;

use crate::text;
use crate::types;
use crate::types::{CallView, MessageView, OpenAIMessage};

verus! {

// ---------------------------------------------------------------------------
// Decimal numbers
// ---------------------------------------------------------------------------

pub open spec fn is_digit(c: char) -> bool {
    '0' <= c && c <= '9'
}

pub open spec fn all_digits(s: Seq<char>) -> bool {
    forall|i: int| 0 <= i < s.len() ==> is_digit(#[trigger] s[i])
}

pub open spec fn digit_value(c: char) -> nat {
    ((c as u32) - 48) as nat
}

/// The number that the first `n` digits form; after the last digit come zeros.
pub open spec fn leading(digits: Seq<char>, n: int) -> nat
    decreases n,
{
    if n <= 0 {
        0
    } else {
        leading(digits, n - 1) * 10 + (if n <= digits.len() {
            digit_value(digits[n - 1])
        } else {
            0
        })
    }
}

/// The number that digits form.
pub open spec fn number(digits: Seq<char>) -> nat {
    leading(digits, digits.len() as int)
}

/// A decimal numeral taken apart: `0.digits` times ten to the power of `point`.
pub ghost struct Decimal {
    pub negative: bool,
    pub digits: Seq<char>,
    pub point: int,
}

/// What a numeral stands for.
pub ghost enum Numeral {
    Finite(Decimal),
    Infinite { negative: bool },
    NotANumber,
}

/// `s` without a sign at its start.
pub open spec fn unsigned(s: Seq<char>) -> Seq<char> {
    if s.len() > 0 && (s[0] == '+' || s[0] == '-') {
        s.skip(1)
    } else {
        s
    }
}

pub open spec fn is_negative(s: Seq<char>) -> bool {
    s.len() > 0 && s[0] == '-'
}

/// The integer digits and the fraction digits of a numeral without sign and
/// exponent; at least one digit in all.
pub open spec fn mantissa(s: Seq<char>) -> Option<(Seq<char>, Seq<char>)> {
    let (whole, fraction) = match text::find(s, seq!['.']) {
        Some(i) => (s.take(i), s.skip(i + 1)),
        None => (s, Seq::empty()),
    };
    if all_digits(whole) && all_digits(fraction) && whole.len() + fraction.len() > 0 {
        Some((whole, fraction))
    } else {
        None
    }
}

/// The exponent that a sign and digits stand for.
pub open spec fn exponent(s: Seq<char>) -> Option<int> {
    let d = unsigned(s);
    if d.len() > 0 && all_digits(d) {
        Some(if is_negative(s) {
            -number(d)
        } else {
            number(d) as int
        })
    } else {
        None
    }
}

/// Reads a numeral in lower case: digits with a point and an exponent as they
/// may come, or a name for an infinite value or for none; with a sign as it
/// may come.
pub open spec fn numeral(s: Seq<char>) -> Option<Numeral> {
    let u = unsigned(s);
    if u == "inf"@ || u == "infinity"@ {
        Some(Numeral::Infinite { negative: is_negative(s) })
    } else if u == "nan"@ {
        Some(Numeral::NotANumber)
    } else {
        let (m, e) = match text::find(u, seq!['e']) {
            Some(i) => (u.take(i), exponent(u.skip(i + 1))),
            None => (u, Some(0int)),
        };
        match (mantissa(m), e) {
            (Some((whole, fraction)), Some(x)) => Some(
                Numeral::Finite(
                    Decimal {
                        negative: is_negative(s),
                        digits: whole + fraction,
                        point: whole.len() + x,
                    },
                ),
            ),
            _ => None,
        }
    }
}

pub open spec fn at_most_max(n: nat) -> nat {
    if n > usize::MAX {
        usize::MAX as nat
    } else {
        n
    }
}

/// The whole part of a numeral's value times ten to the power of `shift`,
/// brought into the range of `usize`; 0 where there is no value.
pub open spec fn scaled(n: Numeral, shift: int) -> nat {
    match n {
        Numeral::Finite(d) => if d.negative {
            0
        } else {
            at_most_max(leading(d.digits, d.point + shift))
        },
        Numeral::Infinite { negative } => if negative {
            0
        } else {
            usize::MAX as nat
        },
        Numeral::NotANumber => 0,
    }
}

/// The length of the context window where the configuration gives none that
/// can be read.
pub const DEFAULT_LENGTH: usize = 200_000;

/// The number that digits stand for, with a plus as it may come, where it fits
/// into `usize`.
pub open spec fn whole_number(s: Seq<char>) -> Option<nat> {
    let d = if s.len() > 0 && s[0] == '+' {
        s.skip(1)
    } else {
        s
    };
    if d.len() > 0 && all_digits(d) && number(d) <= usize::MAX {
        Some(number(d))
    } else {
        None
    }
}

/// The length that a text in lower case stands for: a number of millions (`m`),
/// of thousands (`k`), or a whole number.
pub open spec fn length_in(s: Seq<char>) -> nat {
    if s.len() > 0 && s.last() == 'm' {
        match numeral(s.drop_last()) {
            Some(n) => scaled(n, 6),
            None => DEFAULT_LENGTH as nat,
        }
    } else if s.len() > 0 && s.last() == 'k' {
        match numeral(s.drop_last()) {
            Some(n) => scaled(n, 3),
            None => DEFAULT_LENGTH as nat,
        }
    } else {
        match whole_number(s) {
            Some(n) => n,
            None => DEFAULT_LENGTH as nat,
        }
    }
}

proof fn lemma_leading_grows(digits: Seq<char>, m: int, n: int)
    requires
        0 <= m <= n,
    ensures
        leading(digits, m) <= leading(digits, n),
    decreases n - m,
{
    if m < n {
        lemma_leading_grows(digits, m, n - 1);
    }
}

proof fn lemma_leading_zero(digits: Seq<char>, n: int)
    requires
        digits.len() <= n,
        number(digits) == 0,
    ensures
        leading(digits, n) == 0,
    decreases n,
{
    if n > digits.len() {
        lemma_leading_zero(digits, n - 1);
    }
}

/// Twenty zeros after a number that is not 0 take it out of the range.
proof fn lemma_leading_large(digits: Seq<char>, n: int)
    requires
        digits.len() + 20 <= n,
        number(digits) > 0,
    ensures
        leading(digits, n) > usize::MAX,
{
    let k = digits.len() as int;
    reveal_with_fuel(leading, 21);
    assert(leading(digits, k + 20) >= 100_000_000_000_000_000_000);
    lemma_leading_grows(digits, k + 20, n);
}

/// The most that an exponent counts for: more than any text has digits.
const FAR: i128 = 1_000_000_000_000_000_000_000_000_000_000;

spec fn clamped(x: int) -> int {
    if x > FAR {
        FAR as int
    } else if x < -FAR {
        -FAR
    } else {
        x
    }
}

proof fn lemma_clamped(digits: Seq<char>, whole: int, x: int, shift: int)
    requires
        0 <= whole <= digits.len() <= usize::MAX,
        0 <= shift <= 6,
    ensures
        at_most_max(leading(digits, whole + clamped(x) + shift)) == at_most_max(
            leading(digits, whole + x + shift),
        ),
{
    if x > FAR {
        if number(digits) == 0 {
            lemma_leading_zero(digits, whole + x + shift);
            lemma_leading_zero(digits, whole + FAR + shift);
        } else {
            lemma_leading_large(digits, whole + x + shift);
            lemma_leading_large(digits, whole + FAR + shift);
        }
    }
}

fn has_only_digits(chars: &Vec<char>, from: usize, to: usize) -> (r: bool)
    requires
        from <= to <= chars@.len(),
    ensures
        r == all_digits(chars@.subrange(from as int, to as int)),
{
    let mut i: usize = from;
    while i < to
        invariant
            from <= i <= to <= chars@.len(),
            forall|j: int| from <= j < i ==> is_digit(#[trigger] chars@[j]),
        decreases to - i,
    {
        if !('0' <= chars[i] && chars[i] <= '9') {
            assert(!is_digit(chars@.subrange(from as int, to as int)[i - from]));
            return false;
        }
        i = i + 1;
    }
    assert forall|j: int| 0 <= j < to - from implies is_digit(
        #[trigger] chars@.subrange(from as int, to as int)[j],
    ) by {
        assert(is_digit(chars@[from + j]));
    }
    true
}

fn only_digits(s: &str) -> (r: bool)
    ensures
        r == all_digits(s@),
{
    let chars = text::chars_of(s);
    assert(chars@.subrange(0, chars@.len() as int) =~= s@);
    has_only_digits(&chars, 0, chars.len())
}

/// The number that digits form, as far as it is not larger than `cap`.
fn number_up_to(s: &str, cap: i128) -> (r: i128)
    requires
        all_digits(s@),
        0 <= cap <= FAR,
    ensures
        r == (if number(s@) > cap {
            cap as int
        } else {
            number(s@) as int
        }),
{
    let chars = text::chars_of(s);
    let mut v: i128 = 0;
    let mut i: usize = 0;
    while i < chars.len()
        invariant
            chars@ == s@,
            all_digits(s@),
            0 <= cap <= FAR,
            i <= chars@.len(),
            0 <= v <= cap,
            v == leading(s@, i as int),
        decreases chars.len() - i,
    {
        let c = chars[i];
        assert(is_digit(s@[i as int]));
        let d: i128 = (c as u32 - 48) as i128;
        assert(d == digit_value(s@[i as int]));
        let w: i128 = v * 10 + d;
        assert(w == leading(s@, i + 1));
        if w > cap {
            proof {
                lemma_leading_grows(s@, i + 1, s@.len() as int);
            }
            return cap;
        }
        v = w;
        i = i + 1;
    }
    v
}

/// The number that the first `n` digits form, brought into the range of
/// `usize`.
fn leading_up_to_max(digits: &str, n: i128) -> (r: usize)
    requires
        all_digits(digits@),
        digits@.len() <= usize::MAX,
        n <= 2 * FAR,
    ensures
        r == at_most_max(leading(digits@, n as int)),
{
    let chars = text::chars_of(digits);
    let mut v: u128 = 0;
    let mut i: i128 = 0;
    while i < n
        invariant
            chars@ == digits@,
            all_digits(digits@),
            chars@.len() <= usize::MAX,
            0 <= i <= n || (i == 0 && n < 0),
            n <= 2 * FAR,
            v <= usize::MAX,
            v == leading(digits@, i as int),
        decreases n - i,
    {
        let d: u128 = if i < chars.len() as i128 {
            assert(is_digit(digits@[i as int]));
            (chars[i as usize] as u32 - 48) as u128
        } else {
            if v == 0 {
                proof {
                    lemma_leading_grows(digits@, digits@.len() as int, i as int);
                    lemma_leading_zero(digits@, n as int);
                }
                return 0;
            }
            0
        };
        let w: u128 = v * 10 + d;
        assert(w == leading(digits@, i + 1));
        if w > usize::MAX as u128 {
            proof {
                lemma_leading_grows(digits@, i + 1, n as int);
            }
            return usize::MAX;
        }
        v = w;
        i = i + 1;
    }
    v as usize
}

fn without_sign(s: &str) -> (r: String)
    ensures
        r@ == unsigned(s@),
{
    if !s.is_empty() && (s.get_char(0) == '+' || s.get_char(0) == '-') {
        text::tail(s, 1)
    } else {
        s.to_owned()
    }
}

fn starts_negative(s: &str) -> (r: bool)
    ensures
        r == is_negative(s@),
{
    !s.is_empty() && s.get_char(0) == '-'
}

fn mantissa_of(s: &str) -> (r: Option<(String, String)>)
    ensures
        match r {
            Some((w, f)) => mantissa(s@) == Some((w@, f@)) && w@.len() + f@.len() <= s@.len()
                <= usize::MAX,
            None => mantissa(s@) is None,
        },
{
    proof {
        reveal_strlit(".");
        assert("."@ =~= seq!['.']);
    }
    if s.unicode_len() == 0 {
        return None;
    }
    let (whole, fraction) = match text::find_text(s, ".") {
        Some(i) => (text::head(s, i), text::tail(s, i + 1)),
        None => (s.to_owned(), String::new()),
    };
    if only_digits(whole.as_str()) && only_digits(fraction.as_str()) && !(whole.as_str().is_empty()
        && fraction.as_str().is_empty()) {
        Some((whole, fraction))
    } else {
        None
    }
}

fn exponent_of(s: &str) -> (r: Option<i128>)
    ensures
        match r {
            Some(x) => exponent(s@) is Some && x == clamped(exponent(s@)->0),
            None => exponent(s@) is None,
        },
{
    let d = without_sign(s);
    if d.as_str().is_empty() || !only_digits(d.as_str()) {
        return None;
    }
    let x = number_up_to(d.as_str(), FAR);
    if starts_negative(s) {
        Some(0 - x)
    } else {
        Some(x)
    }
}

/// The whole part of a numeral's value times ten to the power of `shift`;
/// `None` where the text is no numeral.
fn scaled_of(s: &str, shift: i128) -> (r: Option<usize>)
    requires
        0 <= shift <= 6,
    ensures
        match r {
            Some(n) => numeral(s@) is Some && n == scaled(numeral(s@)->0, shift as int),
            None => numeral(s@) is None,
        },
{
    let negative = starts_negative(s);
    let u = without_sign(s);
    if text::same(u.as_str(), "inf") || text::same(u.as_str(), "infinity") {
        return Some(if negative {
            0
        } else {
            usize::MAX
        });
    }
    if text::same(u.as_str(), "nan") {
        return Some(0);
    }
    proof {
        reveal_strlit("e");
        assert("e"@ =~= seq!['e']);
    }
    let ghost mut x: Option<int> = Some(0int);
    let (m, e): (String, Option<i128>) = match text::find_text(u.as_str(), "e") {
        Some(i) => {
            let rest = text::tail(u.as_str(), i + 1);
            proof {
                x = exponent(rest@);
            }
            (text::head(u.as_str(), i), exponent_of(rest.as_str()))
        },
        None => (u, Some(0)),
    };
    match (mantissa_of(m.as_str()), e) {
        (Some((whole, fraction)), Some(c)) => {
            if negative {
                return Some(0);
            }
            let digits = text::cat(whole.as_str(), fraction.as_str());
            proof {
                assert forall|i: int| 0 <= i < digits@.len() implies is_digit(
                    #[trigger] digits@[i],
                ) by {
                    if i < whole@.len() {
                        assert(is_digit(whole@[i]));
                    } else {
                        assert(is_digit(fraction@[i - whole@.len()]));
                    }
                }
                lemma_clamped(digits@, whole@.len() as int, x->0, shift as int);
            }
            let w: usize = whole.as_str().unicode_len();
            Some(leading_up_to_max(digits.as_str(), w as i128 + c + shift))
        },
        _ => None,
    }
}

fn whole_number_of(s: &str) -> (r: Option<usize>)
    ensures
        match r {
            Some(n) => whole_number(s@) == Some(n as nat),
            None => whole_number(s@) is None,
        },
{
    let d = if !s.is_empty() && s.get_char(0) == '+' {
        text::tail(s, 1)
    } else {
        s.to_owned()
    };
    if d.as_str().is_empty() || !only_digits(d.as_str()) {
        return None;
    }
    let n = number_up_to(d.as_str(), usize::MAX as i128 + 1);
    if n <= usize::MAX as i128 {
        Some(n as usize)
    } else {
        None
    }
}

/// The length that a text in lower case stands for.
pub fn context_length_of(s: &str) -> (r: usize)
    ensures
        r == length_in(s@),
{
    let n: usize = s.unicode_len();
    if n == 0 {
        return DEFAULT_LENGTH;
    }
    let last = s.get_char(n - 1);
    if last == 'm' || last == 'k' {
        let front = text::head(s, n - 1);
        assert(front@ =~= s@.drop_last());
        let shift: i128 = if last == 'm' {
            6
        } else {
            3
        };
        match scaled_of(front.as_str(), shift) {
            Some(v) => v,
            None => DEFAULT_LENGTH,
        }
    } else {
        match whole_number_of(s) {
            Some(v) => v,
            None => DEFAULT_LENGTH,
        }
    }
}

/// The length of the context window that the configuration gives: `1m`,
/// `200k` or a whole number.
pub fn parse_context_length(s: &str) -> (r: usize)
    ensures
        r == length_in(text::lowercase(text::trim(s@))),
{
    context_length_of(text::trimmed(s).as_str().to_lowercase().as_str())
}

// ---------------------------------------------------------------------------
// Tokens
// ---------------------------------------------------------------------------

/// How many characters of a text are ASCII.
pub open spec fn ascii_count(s: Seq<char>) -> nat
    decreases s.len(),
{
    if s.len() == 0 {
        0
    } else {
        ascii_count(s.drop_last()) + (if (s.last() as u32) < 128 {
            1nat
        } else {
            0nat
        })
    }
}

/// The estimated tokens of a text, at least 1: a quarter for an ASCII character
/// and six fifths for any other, rounded up.
pub open spec fn tokens(s: Seq<char>) -> nat {
    let a = ascii_count(s);
    let n = (5 * a + 24 * (s.len() - a) + 19) / 20;
    if n < 1 {
        1
    } else {
        n as nat
    }
}

proof fn lemma_ascii_count(s: Seq<char>)
    ensures
        ascii_count(s) <= s.len(),
        ascii_count(s) + 2 * (s.len() - ascii_count(s)) <= text::byte_len(s),
    decreases s.len(),
{
    if s.len() > 0 {
        lemma_ascii_count(s.drop_last());
        let last = seq![s.last()];
        assert(s =~= s.drop_last() + last);
        text::lemma_byte_len_concat(s.drop_last(), last);
        assert(last.drop_first() =~= Seq::<char>::empty());
        assert(text::byte_len(last) == text::byte_width(s.last())) by {
            reveal_with_fuel(text::byte_len, 2);
        }
    }
}

/// The estimated tokens of a text.
pub fn estimate_tokens(text: &str) -> (r: usize)
    ensures
        r == tokens(text@),
{
    if text::byte_length(text) == 0 {
        proof {
            text::lemma_byte_len_bound(text@);
        }
        return 1;
    }
    let chars = text::chars_of(text);
    let mut ascii: usize = 0;
    let mut i: usize = 0;
    assert(text@.take(0) =~= Seq::<char>::empty());
    while i < chars.len()
        invariant
            chars@ == text@,
            i <= chars@.len(),
            ascii <= i,
            ascii == ascii_count(text@.take(i as int)),
        decreases chars.len() - i,
    {
        assert(text@.take(i + 1).drop_last() =~= text@.take(i as int));
        if (chars[i] as u32) < 128 {
            ascii = ascii + 1;
        }
        i = i + 1;
    }
    assert(text@.take(text@.len() as int) =~= text@);
    proof {
        lemma_ascii_count(text@);
    }
    let other: usize = chars.len() - ascii;
    let n: u128 = (5 * ascii as u128 + 24 * other as u128 + 19) / 20;
    if n < 1 {
        1
    } else {
        n as usize
    }
}

/// The estimated tokens of tool calls.
pub open spec fn call_tokens(calls: Seq<CallView>) -> nat
    decreases calls.len(),
{
    if calls.len() == 0 {
        0
    } else {
        call_tokens(calls.drop_last()) + tokens(calls.last().name) + tokens(
            calls.last().arguments,
        )
    }
}

/// What a message costs beside what it says.
pub const OVERHEAD: usize = 4;

/// The estimated tokens of a message.
pub open spec fn message_tokens(m: MessageView) -> nat {
    let content = match m.content {
        Some(t) => tokens(t),
        None => 0,
    };
    let calls = match m.tool_calls {
        Some(v) => call_tokens(v),
        None => 0,
    };
    content + calls + OVERHEAD as nat
}

/// The estimated tokens of messages.
pub open spec fn total_tokens(v: Seq<MessageView>) -> nat
    decreases v.len(),
{
    if v.len() == 0 {
        0
    } else {
        total_tokens(v.drop_last()) + message_tokens(v.last())
    }
}

/// Tokens add up.
pub proof fn lemma_total_tokens_concat(a: Seq<MessageView>, b: Seq<MessageView>)
    ensures
        total_tokens(a + b) == total_tokens(a) + total_tokens(b),
    decreases b.len(),
{
    if b.len() == 0 {
        assert(a + b =~= a);
    } else {
        assert((a + b).drop_last() =~= a + b.drop_last());
        lemma_total_tokens_concat(a, b.drop_last());
    }
}

fn plus(a: usize, b: usize) -> (r: usize)
    ensures
        r == at_most_max((a + b) as nat),
{
    if a <= usize::MAX - b {
        a + b
    } else {
        usize::MAX
    }
}

/// The estimated tokens of a message, in the range of `usize`.
pub fn estimate_single_msg_tokens(msg: &OpenAIMessage) -> (r: usize)
    ensures
        r == at_most_max(message_tokens(msg@)),
{
    let mut count: usize = match &msg.content {
        Some(c) => estimate_tokens(c.as_str()),
        None => 0,
    };
    let ghost content: nat = count as nat;
    match &msg.tool_calls {
        Some(calls) => {
            let ghost all = types::call_views(calls@);
            let mut i: usize = 0;
            assert(all.take(0) =~= Seq::<CallView>::empty());
            while i < calls.len()
                invariant
                    all == types::call_views(calls@),
                    i <= calls@.len(),
                    count == at_most_max(content + call_tokens(all.take(i as int))),
                decreases calls.len() - i,
            {
                assert(all.take(i + 1).drop_last() =~= all.take(i as int));
                assert(all.take(i + 1).last() == calls@[i as int]@);
                count = plus(count, estimate_tokens(calls[i].function.name.as_str()));
                count = plus(count, estimate_tokens(calls[i].function.arguments.as_str()));
                i = i + 1;
            }
            assert(all.take(all.len() as int) =~= all);
        },
        None => {},
    }
    plus(count, OVERHEAD)
}

/// The estimated tokens of messages, in the range of `usize`.
pub fn estimate_token_count(messages: &Vec<OpenAIMessage>) -> (r: usize)
    ensures
        r == at_most_max(total_tokens(types::message_views(messages@))),
{
    let ghost all = types::message_views(messages@);
    let mut count: usize = 0;
    let mut i: usize = 0;
    assert(all.take(0) =~= Seq::<MessageView>::empty());
    while i < messages.len()
        invariant
            all == types::message_views(messages@),
            i <= messages@.len(),
            count == at_most_max(total_tokens(all.take(i as int))),
        decreases messages.len() - i,
    {
        assert(all.take(i + 1).drop_last() =~= all.take(i as int));
        assert(all.take(i + 1).last() == messages@[i as int]@);
        count = plus(count, estimate_single_msg_tokens(&messages[i]));
        i = i + 1;
    }
    assert(all.take(all.len() as int) =~= all);
    count
}

// ---------------------------------------------------------------------------
// Timeouts
// ---------------------------------------------------------------------------

/// How many seconds a request of a size may take: a minute for every 200,000
/// bytes, at least a minute.
pub open spec fn timeout_secs(bytes: nat) -> nat {
    let n = bytes * 60 / 200_000;
    if n < 60 {
        60
    } else {
        n
    }
}

/// How many seconds a request of a size may take.
pub fn calc_timeout_secs(body_bytes: usize) -> (r: u64)
    ensures
        r == timeout_secs(body_bytes as nat),
{
    let n: u128 = body_bytes as u128 * 60 / 200_000;
    if n < 60 {
        60
    } else {
        n as u64
    }
}

// ---------------------------------------------------------------------------
// Trimming
// ---------------------------------------------------------------------------

/// The tokens up to which a context window is filled: four fifths of it.
pub open spec fn threshold(max_context: nat) -> nat {
    max_context * 4 / 5
}

fn threshold_of(max_context: usize) -> (r: usize)
    ensures
        r == threshold(max_context as nat),
        r < usize::MAX,
{
    (max_context as u128 * 4 / 5) as usize
}

/// Whether messages take more than the window is filled up to.
pub fn should_trim(messages: &Vec<OpenAIMessage>, max_context: usize) -> (r: bool)
    ensures
        r == (total_tokens(types::message_views(messages@)) > threshold(max_context as nat)),
{
    estimate_token_count(messages) > threshold_of(max_context)
}

/// The position after the first message of the system; 0 without one.
pub open spec fn after_system(v: Seq<MessageView>, from: int) -> int
    decreases v.len() - from,
{
    if from < 0 || from >= v.len() {
        0
    } else if v[from].role == "system"@ {
        from + 1
    } else {
        after_system(v, from + 1)
    }
}

/// The messages without the `n` that follow position `start`.
pub open spec fn dropping(v: Seq<MessageView>, start: int, n: int) -> Seq<MessageView> {
    v.take(start) + v.skip(start + n)
}

/// How many messages may go: all but those up to the system's and the last two.
pub open spec fn removable(v: Seq<MessageView>) -> int {
    let n = v.len() - (after_system(v, 0) + 2);
    if n < 0 {
        0
    } else {
        n
    }
}

/// How many messages go, where `i` go already: one more, unless the rest meets
/// the limit or no more may go.
pub open spec fn removed(v: Seq<MessageView>, limit: nat, i: int) -> int
    decreases removable(v) - i,
{
    if i >= removable(v) {
        i
    } else if total_tokens(dropping(v, after_system(v, 0), i)) <= limit {
        i
    } else {
        removed(v, limit, i + 1)
    }
}

/// The messages with the oldest ones dropped until the rest meets the limit, as
/// far as they may go.
pub open spec fn trimmed(v: Seq<MessageView>, limit: nat) -> Seq<MessageView> {
    dropping(v, after_system(v, 0), removed(v, limit, 0))
}

proof fn lemma_after_system(v: Seq<MessageView>, from: int)
    requires
        0 <= from,
    ensures
        0 <= after_system(v, from) <= v.len(),
        after_system(v, from) > 0 ==> {
            &&& from < after_system(v, from)
            &&& v[after_system(v, from) - 1].role == "system"@
            &&& forall|i: int|
                from <= i < after_system(v, from) - 1 ==> (#[trigger] v[i]).role != "system"@
        },
        after_system(v, from) == 0 ==> forall|i: int|
            from <= i < v.len() ==> (#[trigger] v[i]).role != "system"@,
    decreases v.len() - from,
{
    if from < v.len() && v[from].role != "system"@ {
        lemma_after_system(v, from + 1);
    }
}

proof fn lemma_after_system_is(v: Seq<MessageView>, from: int, k: int)
    requires
        0 <= from < k <= v.len(),
        v[k - 1].role == "system"@,
        forall|i: int| from <= i < k - 1 ==> (#[trigger] v[i]).role != "system"@,
    ensures
        after_system(v, from) == k,
    decreases k - from,
{
    if from < k - 1 {
        lemma_after_system_is(v, from + 1, k);
    }
}

proof fn lemma_after_system_none(v: Seq<MessageView>, from: int)
    requires
        0 <= from,
        forall|i: int| from <= i < v.len() ==> (#[trigger] v[i]).role != "system"@,
    ensures
        after_system(v, from) == 0,
    decreases v.len() - from,
{
    if from < v.len() {
        lemma_after_system_none(v, from + 1);
    }
}

proof fn lemma_removed(v: Seq<MessageView>, limit: nat, i: int)
    requires
        0 <= i <= removable(v),
        i > 0 ==> total_tokens(dropping(v, after_system(v, 0), i - 1)) > limit,
    ensures
        i <= removed(v, limit, i) <= removable(v),
        removed(v, limit, i) > 0 ==> total_tokens(
            dropping(v, after_system(v, 0), removed(v, limit, i) - 1),
        ) > limit,
        removed(v, limit, i) < removable(v) ==> total_tokens(
            dropping(v, after_system(v, 0), removed(v, limit, i)),
        ) <= limit,
    decreases removable(v) - i,
{
    if i < removable(v) && total_tokens(dropping(v, after_system(v, 0), i)) > limit {
        lemma_removed(v, limit, i + 1);
    }
}

/// Trimming keeps everything up to the first message of the system, and the
/// last two messages after it; what goes is one stretch, the oldest. What is
/// left meets the limit, unless nothing more may go; nothing goes that need
/// not.
pub proof fn law_trimmed(v: Seq<MessageView>, limit: nat)
    ensures
        ({
            let start = after_system(v, 0);
            let n = removed(v, limit, 0);
            let r = trimmed(v, limit);
            &&& 0 <= start <= v.len()
            &&& 0 <= n <= removable(v)
            &&& r == v.take(start) + v.skip(start + n)
            &&& r.len() == v.len() - n
            &&& start > 0 ==> r[start - 1] == v[start - 1] && r[start - 1].role == "system"@
            &&& v.len() >= start + 2 ==> r[r.len() - 1] == v[v.len() - 1] && r[r.len() - 2]
                == v[v.len() - 2]
            &&& total_tokens(r) <= limit || n == removable(v)
            &&& total_tokens(r) <= limit || r.len() <= start + 2
            &&& n > 0 ==> total_tokens(dropping(v, start, n - 1)) > limit
            &&& total_tokens(v) <= limit ==> r == v
        }),
{
    lemma_after_system(v, 0);
    lemma_removed(v, limit, 0);
    assert(dropping(v, after_system(v, 0), 0) =~= v);
}

/// Trimming again changes nothing.
pub proof fn law_trimmed_twice(v: Seq<MessageView>, limit: nat)
    ensures
        trimmed(trimmed(v, limit), limit) == trimmed(v, limit),
{
    let start = after_system(v, 0);
    let n = removed(v, limit, 0);
    let r = trimmed(v, limit);
    law_trimmed(v, limit);
    lemma_after_system(v, 0);
    if start > 0 {
        assert forall|i: int| 0 <= i < start - 1 implies (#[trigger] r[i]).role != "system"@ by {
            assert(r[i] == v[i]);
        }
        lemma_after_system_is(r, 0, start);
    } else {
        assert forall|i: int| 0 <= i < r.len() implies (#[trigger] r[i]).role != "system"@ by {
            assert(r[i] == v[i + n]);
        }
        lemma_after_system_none(r, 0);
    }
    assert(dropping(r, start, 0) =~= r);
}

/// Drops the oldest messages after the system's until the rest takes no more
/// than four fifths of the window; the last two always stay.
pub fn trim_messages(messages: &mut Vec<OpenAIMessage>, max_context: usize)
    ensures
        types::message_views(final(messages)@) == trimmed(
            types::message_views(old(messages)@),
            threshold(max_context as nat),
        ),
        total_tokens(types::message_views(final(messages)@)) <= threshold(max_context as nat)
            || final(messages)@.len() <= after_system(types::message_views(old(messages)@), 0) + 2,
{
    let ghost all = types::message_views(messages@);
    let ghost limit = threshold(max_context as nat);
    let bound = threshold_of(max_context);
    let n: usize = messages.len();
    proof {
        lemma_after_system(all, 0);
        law_trimmed(all, limit);
    }
    let mut start: usize = 0;
    let mut k: usize = 0;
    while k < n && start == 0
        invariant
            all == types::message_views(messages@),
            n == messages@.len(),
            k <= n,
            start <= n,
            start == 0 ==> after_system(all, 0) == after_system(all, k as int),
            start > 0 ==> after_system(all, 0) == start,
        decreases n - k,
    {
        assert(all[k as int] == messages@[k as int]@);
        if text::same(messages[k].role.as_str(), "system") {
            start = k + 1;
        }
        k = k + 1;
    }
    assert(after_system(all, 0) == start);
    assert(all.len() == n);
    if n - start <= 2 {
        assert(dropping(all, start as int, 0) =~= all);
        return ;
    }
    let may_go: usize = n - start - 2;
    let ends = totals_from(messages);
    let mut head: usize = 0;
    let mut h: usize = 0;
    assert(all.take(0) =~= Seq::<MessageView>::empty());
    while h < start
        invariant
            all == types::message_views(messages@),
            h <= start <= messages@.len(),
            head == at_most_max(total_tokens(all.take(h as int))),
        decreases start - h,
    {
        assert(all.take(h + 1).drop_last() =~= all.take(h as int));
        assert(all.take(h + 1).last() == messages@[h as int]@);
        head = plus(head, estimate_single_msg_tokens(&messages[h]));
        h = h + 1;
    }
    let mut count: usize = 0;
    let mut stop = false;
    while count < may_go && !stop
        invariant
            all == types::message_views(messages@),
            n == messages@.len() == all.len(),
            start + may_go + 2 == n,
            start == after_system(all, 0),
            may_go == removable(all),
            bound == limit < usize::MAX,
            count <= may_go,
            head == at_most_max(total_tokens(all.take(start as int))),
            ends@.len() == n + 1,
            forall|j: int|
                0 <= j <= n ==> #[trigger] ends@[j] == at_most_max(total_tokens(all.skip(j))),
            !stop ==> removed(all, limit, 0) == removed(all, limit, count as int),
            stop ==> removed(all, limit, 0) == count,
        decreases may_go - count + (if stop {
                0int
            } else {
                1int
            }),
    {
        let rest = ends[start + count];
        proof {
            lemma_total_tokens_concat(all.take(start as int), all.skip(start + count));
        }
        if plus(head, rest) <= bound {
            stop = true;
        } else {
            count = count + 1;
        }
    }
    remove_range(messages, start, count);
    assert(types::message_views(messages@).len() == messages@.len());
}

/// The estimated tokens of the messages from each position on, in the range of
/// `usize`.
fn totals_from(messages: &Vec<OpenAIMessage>) -> (r: Vec<usize>)
    ensures
        r@.len() == messages@.len() + 1,
        forall|j: int|
            0 <= j <= messages@.len() ==> #[trigger] r@[j] == at_most_max(
                total_tokens(types::message_views(messages@).skip(j)),
            ),
{
    let ghost all = types::message_views(messages@);
    let n: usize = messages.len();
    let mut back: Vec<usize> = Vec::new();
    back.push(0);
    let mut k: usize = n;
    assert(all.skip(n as int) =~= Seq::<MessageView>::empty());
    while k > 0
        invariant
            all == types::message_views(messages@),
            n == messages@.len() == all.len(),
            k <= n,
            back@.len() == n - k + 1,
            forall|j: int|
                k <= j <= n ==> #[trigger] back@[n - j] == at_most_max(total_tokens(all.skip(j))),
        decreases k,
    {
        let t = estimate_single_msg_tokens(&messages[k - 1]);
        let last = back[n - k];
        proof {
            assert(back@[n - k] == at_most_max(total_tokens(all.skip(k as int))));
            let one = seq![all[k - 1]];
            assert(all.skip(k - 1) =~= one + all.skip(k as int));
            lemma_total_tokens_concat(one, all.skip(k as int));
            assert(one.drop_last() =~= Seq::<MessageView>::empty());
            assert(total_tokens(one) == message_tokens(all[k - 1])) by {
                reveal_with_fuel(total_tokens, 2);
            }
            assert(all[k - 1] == messages@[k - 1]@);
        }
        back.push(plus(t, last));
        k = k - 1;
    }
    let mut r: Vec<usize> = Vec::new();
    let mut i: usize = 0;
    while i <= n
        invariant
            all == types::message_views(messages@),
            n == messages@.len() == all.len(),
            i <= n + 1,
            back@.len() == n + 1,
            r@.len() == i,
            forall|j: int|
                0 <= j <= n ==> #[trigger] back@[n - j] == at_most_max(total_tokens(all.skip(j))),
            forall|j: int|
                0 <= j < i ==> #[trigger] r@[j] == at_most_max(total_tokens(all.skip(j))),
        decreases n + 1 - i,
    {
        let t = back[n - i];
        assert(back@[n - i] == at_most_max(total_tokens(all.skip(i as int))));
        r.push(t);
        if i == n {
            return r;
        }
        i = i + 1;
    }
    r
}

/// Takes `count` messages out from position `start` on.
fn remove_range(messages: &mut Vec<OpenAIMessage>, start: usize, count: usize)
    requires
        start + count <= old(messages)@.len(),
    ensures
        types::message_views(final(messages)@) == dropping(
            types::message_views(old(messages)@),
            start as int,
            count as int,
        ),
{
    let ghost all = types::message_views(messages@);
    let mut tail = messages.split_off(start);
    let keep = tail.split_off(count);
    let mut keep = keep;
    messages.append(&mut keep);
    assert(types::message_views(messages@) =~= dropping(all, start as int, count as int));
}

// ---------------------------------------------------------------------------
// What lengths, estimates and limits come to
// ---------------------------------------------------------------------------

/// A digit more makes a number ten times as large and adds the digit.
pub proof fn law_number(digits: Seq<char>, c: char)
    ensures
        number(digits.push(c)) == number(digits) * 10 + digit_value(c),
        number(Seq::empty()) == 0,
{
    let more = digits.push(c);
    lemma_leading_same(digits, more, digits.len() as int);
}

proof fn lemma_leading_same(a: Seq<char>, b: Seq<char>, n: int)
    requires
        0 <= n <= a.len(),
        n <= b.len(),
        forall|i: int| 0 <= i < n ==> a[i] == b[i],
    ensures
        leading(a, n) == leading(b, n),
    decreases n,
{
    if n > 0 {
        lemma_leading_same(a, b, n - 1);
    }
}

proof fn lemma_plain_numeral(digits: Seq<char>)
    requires
        digits.len() > 0,
        all_digits(digits),
    ensures
        numeral(digits) == Some(
            Numeral::Finite(Decimal { negative: false, digits, point: digits.len() as int }),
        ),
        digits[0] != '+',
{
    assert(is_digit(digits[0]));
    assert(is_digit(digits.last()));
    reveal_strlit("inf");
    reveal_strlit("infinity");
    reveal_strlit("nan");
    assert(unsigned(digits) == digits);
    assert("inf"@[0] == 'i' && "infinity"@[0] == 'i' && "nan"@[0] == 'n');
    assert(!digits.contains('e')) by {
        if digits.contains('e') {
            let i = choose|i: int| 0 <= i < digits.len() && digits[i] == 'e';
            assert(is_digit(digits[i]));
        }
    }
    assert(!digits.contains('.')) by {
        if digits.contains('.') {
            let i = choose|i: int| 0 <= i < digits.len() && digits[i] == '.';
            assert(is_digit(digits[i]));
        }
    }
    text::lemma_holds_none(digits, seq!['e']);
    text::lemma_holds_none(digits, seq!['.']);
    assert(digits + Seq::<char>::empty() =~= digits);
}

/// A whole number stands for itself, one with a `k` for a thousand times as
/// much, one with an `m` for a million times as much, as far as that fits.
pub proof fn law_length_in(digits: Seq<char>)
    requires
        digits.len() > 0,
        all_digits(digits),
    ensures
        number(digits) <= usize::MAX ==> length_in(digits) == number(digits),
        number(digits) > usize::MAX ==> length_in(digits) == 200_000,
        number(digits) * 1_000 <= usize::MAX ==> length_in(digits.push('k')) == number(digits)
            * 1_000,
        number(digits) * 1_000_000 <= usize::MAX ==> length_in(digits.push('m')) == number(digits)
            * 1_000_000,
{
    assert(is_digit(digits[0]));
    assert(is_digit(digits[digits.len() - 1]));
    lemma_plain_numeral(digits);
    assert(digits.push('k').drop_last() =~= digits);
    assert(digits.push('m').drop_last() =~= digits);
    assert(digits.last() != 'k' && digits.last() != 'm');
    let n = digits.len() as int;
    reveal_with_fuel(leading, 7);
    assert(leading(digits, n + 3) == leading(digits, n) * 1_000);
    assert(leading(digits, n + 6) == leading(digits, n) * 1_000_000);
}

/// What is no number is the default length.
pub proof fn law_length_default(s: Seq<char>)
    ensures
        s.len() == 0 ==> length_in(s) == 200_000,
        s.len() > 0 && s.last() != 'm' && s.last() != 'k' && !is_digit(s.last())
            ==> length_in(s) == 200_000,
        s.len() > 0 && numeral(s) is None ==> length_in(s.push('k')) == 200_000 && length_in(
            s.push('m'),
        ) == 200_000,
{
    if s.len() > 0 {
        assert(s.push('k').drop_last() =~= s);
        assert(s.push('m').drop_last() =~= s);
        if s[0] == '+' {
            if s.len() > 1 {
                assert(s.skip(1)[s.len() - 2] == s.last());
            }
        } else {
            assert(s[s.len() - 1] == s.last());
        }
    }
}

/// ASCII characters are counted, whatever stands around them.
pub proof fn law_ascii_count(a: Seq<char>, b: Seq<char>)
    ensures
        ascii_count(a + b) == ascii_count(a) + ascii_count(b),
        ascii_count(a) <= a.len(),
        (forall|i: int| 0 <= i < a.len() ==> (#[trigger] a[i] as u32) < 128) ==> ascii_count(a)
            == a.len(),
        (forall|i: int| 0 <= i < a.len() ==> (#[trigger] a[i] as u32) >= 128) ==> ascii_count(a)
            == 0,
    decreases a.len() + b.len(),
{
    if a.len() > 0 {
        law_ascii_count(a.drop_last(), Seq::empty());
        assert(forall|i: int| 0 <= i < a.drop_last().len() ==> a.drop_last()[i] == a[i]);
        assert(a[a.len() - 1] == a.last());
    }
    if b.len() == 0 {
        assert(a + b =~= a);
    } else {
        assert((a + b).drop_last() =~= a + b.drop_last());
        law_ascii_count(a, b.drop_last());
    }
}

/// The estimate is what the characters cost, a quarter for an ASCII character
/// and six fifths for any other, rounded up; at least 1. Two texts cost at most
/// a token more apart than together.
pub proof fn law_tokens(a: Seq<char>, b: Seq<char>)
    ensures
        a.len() == 0 ==> tokens(a) == 1,
        a.len() > 0 ==> 20 * (tokens(a) - 1) < 5 * ascii_count(a) + 24 * (a.len() - ascii_count(a))
            <= 20 * tokens(a),
        (forall|i: int| 0 <= i < a.len() ==> (#[trigger] a[i] as u32) < 128) && a.len() > 0
            ==> 4 * (tokens(a) - 1) < a.len() <= 4 * tokens(a),
        (forall|i: int| 0 <= i < a.len() ==> (#[trigger] a[i] as u32) >= 128) && a.len() > 0
            ==> 5 * (tokens(a) - 1) < 6 * a.len() <= 5 * tokens(a),
        tokens(a) <= tokens(a + b) <= tokens(a) + tokens(b),
{
    law_ascii_count(a, b);
    law_ascii_count(b, a);
    law_ascii_count(a + b, Seq::empty());
    let x = 5 * ascii_count(a) + 24 * (a.len() - ascii_count(a));
    let y = 5 * ascii_count(b) + 24 * (b.len() - ascii_count(b));
    assert((a + b).len() == a.len() + b.len());
    assert(5 * ascii_count(a + b) + 24 * ((a + b).len() - ascii_count(a + b)) == x + y);
}

/// A message costs what it says, the name and the arguments of each call, and
/// four tokens more; messages cost what each of them costs.
pub proof fn law_message_tokens(m: MessageView, calls: Seq<CallView>, c: CallView)
    ensures
        m.content is None && m.tool_calls is None ==> message_tokens(m) == 4,
        m.tool_calls is None ==> (m.content matches Some(t) ==> message_tokens(m) == tokens(t) + 4),
        message_tokens((MessageView { tool_calls: Some(calls.push(c)), ..m })) == message_tokens(
            (MessageView { tool_calls: Some(calls), ..m }),
        ) + tokens(c.name) + tokens(c.arguments),
        message_tokens((MessageView { tool_calls: Some(Seq::empty()), ..m })) == message_tokens(
            (MessageView { tool_calls: None, ..m }),
        ),
        total_tokens(seq![m]) == message_tokens(m),
{
    assert(calls.push(c).drop_last() =~= calls);
    assert(seq![m].drop_last() =~= Seq::<MessageView>::empty());
    reveal_with_fuel(total_tokens, 2);
}

/// A request may take a minute for every 200,000 bytes, rounded down to the
/// second, and never less than a minute; a larger one never less than a smaller.
pub proof fn law_timeout(bytes: nat, more: nat)
    requires
        bytes <= more,
    ensures
        timeout_secs(bytes) >= 60,
        bytes <= 200_000 ==> timeout_secs(bytes) == 60,
        bytes >= 200_000 ==> timeout_secs(bytes) * 200_000 <= bytes * 60 < (timeout_secs(bytes) + 1)
            * 200_000,
        timeout_secs(bytes) <= timeout_secs(more),
{
}

/// The window is filled up to four fifths, rounded down.
pub proof fn law_threshold(max_context: nat)
    ensures
        5 * threshold(max_context) <= 4 * max_context < 5 * (threshold(max_context) + 1),
{
}

/// The first message of the system stays, and so does all that stands before
/// it, and the last two messages after it; what goes stood right after it.
pub proof fn law_trim_keeps(v: Seq<MessageView>, limit: nat, i: int)
    requires
        0 <= i < v.len(),
        v[i].role == "system"@,
        forall|j: int| 0 <= j < i ==> (#[trigger] v[j]).role != "system"@,
    ensures
        ({
            let r = trimmed(v, limit);
            &&& r.len() <= v.len()
            &&& r.len() > i
            &&& forall|j: int| 0 <= j <= i ==> #[trigger] r[j] == v[j]
            &&& forall|j: int|
                i < j < r.len() ==> #[trigger] r[j] == v[j + (v.len() - r.len())]
            &&& r.len() >= i + 3 || r == v
            &&& total_tokens(r) <= limit || r.len() <= i + 3
            &&& total_tokens(v) <= limit ==> r == v
        }),
{
    lemma_after_system_is(v, 0, i + 1);
    law_trimmed(v, limit);
    let n = removed(v, limit, 0);
    let r = trimmed(v, limit);
    if n == 0 {
        assert(r =~= v);
    }
}

/// Without a message of the system, the last two messages stay, and what goes
/// are the first ones.
pub proof fn law_trim_without_system(v: Seq<MessageView>, limit: nat)
    requires
        forall|j: int| 0 <= j < v.len() ==> (#[trigger] v[j]).role != "system"@,
    ensures
        ({
            let r = trimmed(v, limit);
            &&& r.len() <= v.len()
            &&& forall|j: int|
                0 <= j < r.len() ==> #[trigger] r[j] == v[j + (v.len() - r.len())]
            &&& r.len() >= 2 || r == v
            &&& total_tokens(r) <= limit || r.len() <= 2
            &&& total_tokens(v) <= limit ==> r == v
        }),
{
    lemma_after_system_none(v, 0);
    law_trimmed(v, limit);
    let n = removed(v, limit, 0);
    let r = trimmed(v, limit);
    if n == 0 {
        assert(r =~= v);
    }
}

} // verus!
