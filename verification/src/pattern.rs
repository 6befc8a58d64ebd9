//! Regular expressions: where they match in a text, and replacing the matches.
use vstd::prelude::*;
use vstd::string::*;

use crate::dsml;
use crate::text;

verus! {

/// A stretch of a text, by the byte offsets of its start and its end.
#[derive(Clone, Copy)]
pub struct Span {
    pub start: usize,
    pub end: usize,
}

/// One match of a regular expression, with its first two groups where they
/// took part in it.
#[derive(Clone, Copy)]
pub struct Captured {
    pub whole: Span,
    pub first: Option<Span>,
    pub second: Option<Span>,
}

/// The matches that `regex::Regex::captures_iter` finds in a text; `None`
/// where `regex::Regex::new` refuses the pattern.
pub uninterp spec fn regex_captures(pattern: Seq<char>, text: Seq<char>) -> Option<Seq<Captured>>;

pub open spec fn span_inside(s: Span, from: int, to: int) -> bool {
    from <= s.start <= s.end <= to
}

/// The matches lie in a text of `n` bytes, one after the other.
pub open spec fn in_order(found: Seq<Captured>, n: int) -> bool {
    &&& forall|i: int| 0 <= i < found.len() ==> span_inside((#[trigger] found[i]).whole, 0, n)
    &&& forall|i: int, j: int|
        0 <= i < j < found.len() ==> (#[trigger] found[i]).whole.end <= (
        #[trigger] found[j]).whole.start
    &&& forall|i: int|
        0 <= i < found.len() ==> {
            let m = #[trigger] found[i];
            &&& m.first matches Some(s) ==> span_inside(s, m.whole.start as int, m.whole.end as int)
            &&& m.second matches Some(s) ==> span_inside(
                s,
                m.whole.start as int,
                m.whole.end as int,
            )
        }
}

/// `regex::Regex::new` and `regex::Regex::captures_iter`: the successive
/// non-overlapping matches of `pattern` in `text`, from left to right, each
/// with the byte offsets of the match and of its groups 1 and 2; `None` where
/// the pattern does not compile. Both tag patterns begin with one or more `<`,
/// so that in a text without that character neither matches.
#[verifier::external_body]
pub(crate) fn captures(pattern: &str, text: &str) -> (r: Option<Vec<Captured>>)
    ensures
        match r {
            Some(found) => regex_captures(pattern@, text@) == Some(found@) && in_order(
                found@,
                text::byte_len(text@) as int,
            ),
            None => regex_captures(pattern@, text@) is None,
        },
        (pattern@ == dsml::WRAPPER_PATTERN@ || pattern@ == dsml::INTERNAL_PATTERN@)
            && !text@.contains('<') ==> (r matches Some(found) ==> found@.len() == 0),
{
    let re = regex::Regex::new(pattern).ok()?;
    let span = |m: regex::Match| Span { start: m.start(), end: m.end() };
    Some(re.captures_iter(text).map(|c| Captured {
        whole: span(c.get_match()),
        first: c.get(1).map(span),
        second: c.get(2).map(span),
    }).collect())
}

pub open spec fn is_meta(c: char) -> bool {
    c == '\\' || c == '.' || c == '+' || c == '*' || c == '?' || c == '(' || c == ')' || c == '|' || c
        == '[' || c == ']' || c == '{' || c == '}' || c == '^' || c == '$' || c == '#' || c == '&'
        || c == '-' || c == '~'
}

/// `s` with a backslash before each character that means something in a
/// regular expression.
pub open spec fn pattern_of(s: Seq<char>) -> Seq<char>
    decreases s.len(),
{
    if s.len() == 0 {
        Seq::empty()
    } else {
        let head = if is_meta(s[0]) {
            seq!['\\', s[0]]
        } else {
            seq![s[0]]
        };
        head + pattern_of(s.drop_first())
    }
}

/// `regex::escape`: a backslash before each meta character.
#[verifier::external_body]
pub(crate) fn escape(s: &str) -> (r: String)
    ensures
        r@ == pattern_of(s@),
{
    regex::escape(s)
}

/// The text that a stretch covers.
pub open spec fn span_text(text: Seq<char>, s: Span) -> Seq<char> {
    text.subrange(
        text::chars_within(text, s.start as int) as int,
        text::chars_within(text, s.end as int) as int,
    )
}

/// The text that a stretch covers.
pub fn text_at(text: &str, s: Span) -> (r: String)
    requires
        s.start <= s.end,
    ensures
        r@ == span_text(text@, s),
{
    let from = text::count_within(text, s.start);
    let to = text::count_within(text, s.end);
    proof {
        text::lemma_chars_within_monotone(text@, s.start as int, s.end as int);
    }
    text::cut(text, from, to)
}

/// The position after the first `k` matches.
pub open spec fn cut_after(text: Seq<char>, found: Seq<Captured>, k: int) -> int {
    if k <= 0 {
        0
    } else {
        text::chars_within(text, found[k - 1].whole.end as int) as int
    }
}

/// The text up to the end of match `k - 1`, with the first `k` matches
/// replaced.
pub open spec fn replaced_to(
    text: Seq<char>,
    found: Seq<Captured>,
    with: Seq<Seq<char>>,
    k: int,
) -> Seq<char>
    decreases k,
{
    if k <= 0 {
        Seq::empty()
    } else {
        replaced_to(text, found, with, k - 1) + text.subrange(
            cut_after(text, found, k - 1),
            text::chars_within(text, found[k - 1].whole.start as int) as int,
        ) + with[k - 1]
    }
}

/// The text with match `i` replaced by `with[i]`, for each `i`.
pub open spec fn replaced(text: Seq<char>, found: Seq<Captured>, with: Seq<Seq<char>>) -> Seq<
    char,
> {
    replaced_to(text, found, with, found.len() as int) + text.skip(
        cut_after(text, found, found.len() as int),
    )
}

/// The text with each match replaced.
pub fn replace_matches(text: &str, found: &Vec<Captured>, with: &Vec<String>) -> (r: String)
    requires
        in_order(found@, text::byte_len(text@) as int),
        with@.len() == found@.len(),
    ensures
        r@ == replaced(text@, found@, text::views(with@)),
{
    let ghost reps = text::views(with@);
    let mut r = String::new();
    let mut from: usize = 0;
    let mut k: usize = 0;
    while k < found.len()
        invariant
            in_order(found@, text::byte_len(text@) as int),
            with@.len() == found@.len(),
            reps == text::views(with@),
            k <= found@.len(),
            from == cut_after(text@, found@, k as int),
            from <= text@.len(),
            r@ == replaced_to(text@, found@, reps, k as int),
        decreases found.len() - k,
    {
        let m = found[k];
        let start = text::count_within(text, m.whole.start);
        proof {
            if k > 0 {
                let prev = found@[k - 1];
                assert(prev.whole.end <= found@[k as int].whole.start);
                text::lemma_chars_within_monotone(
                    text@,
                    prev.whole.end as int,
                    m.whole.start as int,
                );
            }
        }
        r.append(text::cut(text, from, start).as_str());
        r.append(with[k].as_str());
        from = text::count_within(text, m.whole.end);
        k = k + 1;
    }
    let n: usize = text.unicode_len();
    r.append(text::cut(text, from, n).as_str());
    assert(text@.subrange(from as int, n as int) =~= text@.skip(from as int));
    r
}

} // verus!
