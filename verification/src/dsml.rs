//! Tool-call markup: bringing the spellings that models use to one canonical
//! form, and mapping positions in the canonical text back to the raw text.
use vstd::prelude::*;
use vstd::string::*;

use crate::pattern;
use crate::pattern::Captured;
use crate::text;

verus! {

// ---------------------------------------------------------------------------
// Characters
// ---------------------------------------------------------------------------

/// Whether `c` is the fullwidth form of an ASCII punctuation mark.
pub open spec fn is_fullwidth_mark(c: char) -> bool {
    let v = c as u32;
    ||| 0xff01 <= v <= 0xff0f
    ||| 0xff1a <= v <= 0xff20
    ||| 0xff3b <= v <= 0xff40
    ||| 0xff5b <= v <= 0xff5e
}

/// The ASCII punctuation mark that `c` is the fullwidth form of; any other
/// character unchanged.
pub open spec fn narrow(c: char) -> char {
    if is_fullwidth_mark(c) {
        ((c as u32) - 0xfee0) as u8 as char
    } else {
        c
    }
}

pub open spec fn narrowed(s: Seq<char>) -> Seq<char> {
    s.map_values(|c: char| narrow(c))
}

fn narrow_char(c: char) -> (r: char)
    ensures
        r == narrow(c),
{
    let v: u32 = c as u32;
    if (0xff01 <= v && v <= 0xff0f) || (0xff1a <= v && v <= 0xff20) || (0xff3b <= v && v <= 0xff40)
        || (0xff5b <= v && v <= 0xff5e) {
        (v - 0xfee0) as u8 as char
    } else {
        c
    }
}

/// Replaces fullwidth ASCII punctuation by its basic ASCII equivalent.
pub fn normalize_fullwidth_ascii(s: &str) -> (r: String)
    ensures
        r@ == narrowed(s@),
{
    let chars = text::chars_of(s);
    let mut r = String::new();
    let mut i: usize = 0;
    while i < chars.len()
        invariant
            chars@ == s@,
            i <= chars@.len(),
            r@ == narrowed(s@).take(i as int),
        decreases chars.len() - i,
    {
        r.push(narrow_char(chars[i]));
        assert(r@ =~= narrowed(s@).take(i + 1));
        i = i + 1;
    }
    assert(r@ =~= narrowed(s@));
    r
}

/// A corner bracket as an angle bracket, fullwidth punctuation as ASCII.
pub open spec fn fold(c: char) -> char {
    if c == '\u{3008}' {
        '<'
    } else if c == '\u{3009}' {
        '>'
    } else {
        narrow(c)
    }
}

fn fold_char(c: char) -> (r: char)
    ensures
        r == fold(c),
{
    if c == '\u{3008}' {
        '<'
    } else if c == '\u{3009}' {
        '>'
    } else {
        narrow_char(c)
    }
}

/// Corner brackets as angle brackets, fullwidth punctuation as ASCII.
pub open spec fn folded(s: Seq<char>) -> Seq<char> {
    narrowed(text::swap_char(text::swap_char(s, '\u{3008}', '<'), '\u{3009}', '>'))
}

// ---------------------------------------------------------------------------
// Tags
// ---------------------------------------------------------------------------

/// A tag with an optional DSML prefix; group 1 is the slash of a closing tag,
/// group 2 its name.
pub const WRAPPER_PATTERN: &'static str =
    r"[<]+(?:[|\s！、\u{2581}]*(?:DSML|dsml|DSMARTTOOLCALLS|DSM|dsmarttoolcalls)[|\s！、\u{2581}]*)?(/)?\s*(tool_calls|tool_calls_begin|tool_calls_end|tool_call_begin|tool_call_end|invoke|parameter)";

/// A tag of the raw internal format; group 2 is its name.
pub const INTERNAL_PATTERN: &'static str =
    r"[<]+[|]*(/?)\s*(tool_calls_begin|tool_calls_end|tool_call_begin|tool_call_end|tool_sep|tool_call_argument_begin)[|]*[>]*";

/// The canonical name of a tag; a closing tag begins with a slash.
pub open spec fn canonical_name(tag: Seq<char>) -> Seq<char> {
    if tag == "tool_calls_begin"@ {
        "tool_calls"@
    } else if tag == "tool_calls_end"@ {
        "/tool_calls"@
    } else if tag == "tool_call_begin"@ {
        "invoke"@
    } else if tag == "tool_call_end"@ {
        "/invoke"@
    } else if tag == "tool_sep"@ || tag == "tool_call_argument_begin"@ {
        Seq::empty()
    } else {
        tag
    }
}

/// What a tag with the name `tag` becomes, where `slash` says whether it is
/// written as a closing tag: an opening or a closing tag without its closing
/// bracket, a complete closing tag where the name says that it closes, or
/// nothing.
pub open spec fn wrapper_form(tag: Seq<char>, slash: bool) -> Seq<char> {
    let name = canonical_name(tag);
    if name.len() == 0 {
        Seq::empty()
    } else if name[0] == '/' {
        seq!['<'] + name + seq!['>']
    } else if slash {
        seq!['<', '/'] + name
    } else {
        seq!['<'] + name
    }
}

/// What a tag of the raw internal format becomes.
pub open spec fn internal_form(tag: Seq<char>, whole: Seq<char>) -> Seq<char> {
    if tag == "tool_calls_begin"@ {
        "<tool_calls>"@
    } else if tag == "tool_calls_end"@ {
        "</tool_calls>"@
    } else if tag == "tool_call_begin"@ {
        "<invoke"@
    } else if tag == "tool_call_end"@ {
        "</invoke>"@
    } else if tag == "tool_sep"@ || tag == "tool_call_argument_begin"@ {
        Seq::empty()
    } else {
        whole
    }
}

/// The name in group 2 of a match; empty where the group took no part.
pub open spec fn tag_name(s: Seq<char>, m: Captured) -> Seq<char> {
    match m.second {
        Some(span) => pattern::span_text(s, span),
        None => Seq::empty(),
    }
}

pub open spec fn wrapper_forms(s: Seq<char>, found: Seq<Captured>) -> Seq<Seq<char>> {
    found.map_values(|m: Captured| wrapper_form(tag_name(s, m), m.first is Some))
}

pub open spec fn internal_forms(s: Seq<char>, found: Seq<Captured>) -> Seq<Seq<char>> {
    found.map_values(
        |m: Captured| internal_form(tag_name(s, m), pattern::span_text(s, m.whole)),
    )
}

fn canonical_name_of(tag: String) -> (r: String)
    ensures
        r@ == canonical_name(tag@),
{
    if text::same(tag.as_str(), "tool_calls_begin") {
        "tool_calls".to_owned()
    } else if text::same(tag.as_str(), "tool_calls_end") {
        "/tool_calls".to_owned()
    } else if text::same(tag.as_str(), "tool_call_begin") {
        "invoke".to_owned()
    } else if text::same(tag.as_str(), "tool_call_end") {
        "/invoke".to_owned()
    } else if text::same(tag.as_str(), "tool_sep") || text::same(
        tag.as_str(),
        "tool_call_argument_begin",
    ) {
        String::new()
    } else {
        tag
    }
}

fn wrapper_form_of(tag: String, slash: bool) -> (r: String)
    ensures
        r@ == wrapper_form(tag@, slash),
{
    let name = canonical_name_of(tag);
    if name.as_str().is_empty() {
        return String::new();
    }
    let closing = name.as_str().get_char(0) == '/';
    let mut r = String::new();
    r.push('<');
    if slash && !closing {
        r.push('/');
        assert(r@ =~= seq!['<', '/']);
    } else {
        assert(r@ =~= seq!['<']);
    }
    r.append(name.as_str());
    if closing {
        r.push('>');
        assert(r@ =~= seq!['<'] + name@ + seq!['>']);
    }
    r
}

fn internal_form_of(tag: &str, whole: String) -> (r: String)
    ensures
        r@ == internal_form(tag@, whole@),
{
    if text::same(tag, "tool_calls_begin") {
        "<tool_calls>".to_owned()
    } else if text::same(tag, "tool_calls_end") {
        "</tool_calls>".to_owned()
    } else if text::same(tag, "tool_call_begin") {
        "<invoke".to_owned()
    } else if text::same(tag, "tool_call_end") {
        "</invoke>".to_owned()
    } else if text::same(tag, "tool_sep") || text::same(tag, "tool_call_argument_begin") {
        String::new()
    } else {
        whole
    }
}

fn tag_name_of(s: &str, m: Captured) -> (r: String)
    requires
        m.second matches Some(span) ==> span.start <= span.end,
    ensures
        r@ == tag_name(s@, m),
{
    match m.second {
        Some(span) => pattern::text_at(s, span),
        None => String::new(),
    }
}

/// `s` with the tags `found`, matches of `WRAPPER_PATTERN`, in canonical form.
pub fn replace_wrappers(s: &str, found: &Vec<Captured>) -> (r: String)
    requires
        pattern::in_order(found@, text::byte_len(s@) as int),
    ensures
        r@ == pattern::replaced(s@, found@, wrapper_forms(s@, found@)),
{
    let mut with: Vec<String> = Vec::new();
    let mut i: usize = 0;
    while i < found.len()
        invariant
            pattern::in_order(found@, text::byte_len(s@) as int),
            i <= found@.len(),
            with@.len() == i,
            text::views(with@) == wrapper_forms(s@, found@).take(i as int),
        decreases found.len() - i,
    {
        let m = found[i];
        assert(m == found@[i as int]);
        with.push(wrapper_form_of(tag_name_of(s, m), m.first.is_some()));
        assert(text::views(with@) =~= wrapper_forms(s@, found@).take(i + 1));
        i = i + 1;
    }
    assert(text::views(with@) =~= wrapper_forms(s@, found@));
    pattern::replace_matches(s, found, &with)
}

/// `s` with the tags `found`, matches of `INTERNAL_PATTERN`, in canonical form.
pub fn replace_internals(s: &str, found: &Vec<Captured>) -> (r: String)
    requires
        pattern::in_order(found@, text::byte_len(s@) as int),
    ensures
        r@ == pattern::replaced(s@, found@, internal_forms(s@, found@)),
{
    let mut with: Vec<String> = Vec::new();
    let mut i: usize = 0;
    while i < found.len()
        invariant
            pattern::in_order(found@, text::byte_len(s@) as int),
            i <= found@.len(),
            with@.len() == i,
            text::views(with@) == internal_forms(s@, found@).take(i as int),
        decreases found.len() - i,
    {
        let m = found[i];
        assert(m == found@[i as int]);
        with.push(internal_form_of(tag_name_of(s, m).as_str(), pattern::text_at(s, m.whole)));
        assert(text::views(with@) =~= internal_forms(s@, found@).take(i + 1));
        i = i + 1;
    }
    assert(text::views(with@) =~= internal_forms(s@, found@));
    pattern::replace_matches(s, found, &with)
}

/// `s` with DSML prefixes stripped from its tags.
pub open spec fn unwrapped(s: Seq<char>) -> Seq<char> {
    match pattern::regex_captures(WRAPPER_PATTERN@, s) {
        Some(found) => pattern::replaced(s, found, wrapper_forms(s, found)),
        None => s,
    }
}

/// `s` with the raw internal tags in canonical form.
pub open spec fn internals_named(s: Seq<char>) -> Seq<char> {
    match pattern::regex_captures(INTERNAL_PATTERN@, s) {
        Some(found) => pattern::replaced(s, found, internal_forms(s, found)),
        None => s,
    }
}

/// The canonical form of `s`.
pub open spec fn normalized(s: Seq<char>) -> Seq<char> {
    internals_named(unwrapped(folded(s)))
}

/// No character of `s` is an opening angle bracket, in any of its forms.
pub open spec fn unbracketed(s: Seq<char>) -> bool {
    !s.contains('<') && !s.contains('\u{3008}') && !s.contains('\u{ff1c}')
}

proof fn lemma_fold(c: char)
    ensures
        fold(c) == '<' ==> c == '<' || c == '\u{3008}' || c == '\u{ff1c}',
{
    let v = c as u32;
    if is_fullwidth_mark(c) {
        assert(narrow(c) as u32 == v - 0xfee0);
        assert('<' as u32 == 0x3c);
        assert('\u{ff1c}' as u32 == 0xff1c);
    }
}

/// Folding makes no opening bracket out of anything else.
pub proof fn lemma_unbracketed(s: Seq<char>)
    ensures
        unbracketed(s) ==> !folded(s).contains('<'),
{
    if unbracketed(s) {
        assert forall|i: int| 0 <= i < s.len() implies #[trigger] folded(s)[i] != '<' by {
            assert(s.contains(s[i]));
            assert(folded(s)[i] == fold(s[i]));
            lemma_fold(s[i]);
        }
    }
}

proof fn lemma_no_matches(s: Seq<char>, found: Seq<Captured>, with: Seq<Seq<char>>)
    requires
        found.len() == 0,
    ensures
        pattern::replaced(s, found, with) == s,
{
    assert(pattern::replaced(s, found, with) =~= s);
}

/// Brings tool-call markup to canonical XML form.
///
/// DSML wrappers (`<|DSML|tool_calls>`) lose their prefix, the raw internal
/// tags (`<|tool_call_begin|>`) get their canonical names, separators vanish,
/// corner brackets and fullwidth punctuation become ASCII.
pub fn normalize_dsml_tags(s: &str) -> (r: String)
    ensures
        r@ == normalized(s@),
        unbracketed(s@) ==> normalized(s@) == folded(s@),
{
    proof {
        lemma_unbracketed(s@);
    }
    let angled = text::with_char_swapped(
        text::with_char_swapped(s, '\u{3008}', '<').as_str(),
        '\u{3009}',
        '>',
    );
    let plain = normalize_fullwidth_ascii(angled.as_str());
    assert(plain@ == folded(s@));
    let bare = match pattern::captures(WRAPPER_PATTERN, plain.as_str()) {
        Some(found) => {
            proof {
                if unbracketed(s@) {
                    lemma_no_matches(plain@, found@, wrapper_forms(plain@, found@));
                }
            }
            replace_wrappers(plain.as_str(), &found)
        },
        None => plain,
    };
    assert(unbracketed(s@) ==> bare@ == folded(s@));
    match pattern::captures(INTERNAL_PATTERN, bare.as_str()) {
        Some(found) => {
            proof {
                if unbracketed(s@) {
                    lemma_no_matches(bare@, found@, internal_forms(bare@, found@));
                }
            }
            replace_internals(bare.as_str(), &found)
        },
        None => bare,
    }
}

// ---------------------------------------------------------------------------
// Positions
// ---------------------------------------------------------------------------

/// How far into `raw` one has to read to have met the characters
/// `ni..end` of `norm` one after the other, from position `oi` on.
pub open spec fn read_to(raw: Seq<char>, norm: Seq<char>, oi: int, ni: int, end: int) -> int
    decreases raw.len() - oi,
{
    if ni < end && ni < norm.len() && oi < raw.len() {
        if fold(raw[oi]) == norm[ni] {
            read_to(raw, norm, oi + 1, ni + 1, end)
        } else {
            read_to(raw, norm, oi + 1, ni, end)
        }
    } else {
        oi
    }
}

/// The position in `raw` after the first `close` of its canonical form `norm`.
pub open spec fn close_end(raw: Seq<char>, norm: Seq<char>, close: Seq<char>) -> Option<int> {
    match text::find(norm, close) {
        Some(p) => Some(read_to(raw, norm, 0, 0, p + close.len())),
        None => None,
    }
}

/// The position that `close_end` gives lies in the raw text, and past its
/// start where there is something to read.
pub proof fn lemma_read_to(raw: Seq<char>, norm: Seq<char>, oi: int, ni: int, end: int)
    requires
        0 <= oi <= raw.len(),
        0 <= ni,
    ensures
        oi <= read_to(raw, norm, oi, ni, end) <= raw.len(),
        ni < end && ni < norm.len() && oi < raw.len() ==> oi < read_to(raw, norm, oi, ni, end),
    decreases raw.len() - oi,
{
    if ni < end && ni < norm.len() && oi < raw.len() {
        if fold(raw[oi]) == norm[ni] {
            lemma_read_to(raw, norm, oi + 1, ni + 1, end);
        } else {
            lemma_read_to(raw, norm, oi + 1, ni, end);
        }
    }
}

proof fn lemma_read_to_same(raw: Seq<char>, norm: Seq<char>, i: int, end: int)
    requires
        norm == folded(raw),
        0 <= i <= end <= raw.len(),
    ensures
        read_to(raw, norm, i, i, end) == end,
    decreases end - i,
{
    if i < end {
        assert(fold(raw[i]) == norm[i]);
        lemma_read_to_same(raw, norm, i + 1, end);
    }
}

/// Where the canonical form differs from the raw text in fullwidth punctuation
/// and corner brackets alone, the position found is the one right after the close tag.
pub proof fn law_close_end_exact(raw: Seq<char>, close: Seq<char>)
    requires
        text::holds(folded(raw), close),
    ensures
        close_end(raw, folded(raw), close) == Some(
            text::find(folded(raw), close)->0 + close.len(),
        ),
{
    text::lemma_find_from(folded(raw), close, 0);
    lemma_read_to_same(raw, folded(raw), 0, text::find(folded(raw), close)->0 + close.len());
}

/// The position in `raw` after the first `close` of its canonical form.
pub fn close_tag_end(raw: &str, norm: &str, close: &str) -> (r: Option<usize>)
    ensures
        match r {
            Some(k) => close_end(raw@, norm@, close@) == Some(k as int) && k <= raw@.len(),
            None => close_end(raw@, norm@, close@) is None,
        },
{
    let rc = text::chars_of(raw);
    let nc = text::chars_of(norm);
    let end: usize = match text::find_text(norm, close) {
        Some(p) => p + close.unicode_len(),
        None => return None,
    };
    let mut oi: usize = 0;
    let mut ni: usize = 0;
    while ni < end && ni < nc.len() && oi < rc.len()
        invariant
            rc@ == raw@,
            nc@ == norm@,
            oi <= rc@.len(),
            ni <= nc@.len(),
            read_to(raw@, norm@, 0, 0, end as int) == read_to(
                raw@,
                norm@,
                oi as int,
                ni as int,
                end as int,
            ),
        decreases rc.len() - oi,
    {
        if fold_char(rc[oi]) == nc[ni] {
            ni = ni + 1;
        }
        oi = oi + 1;
    }
    Some(oi)
}

/// The byte index in `original` after the close tag: `norm_canonical` is the
/// canonical form of `original`, in which `close_tag` is looked for.
pub fn find_close_tag_end_in_original(
    original: &str,
    norm_canonical: &str,
    close_tag: &str,
) -> (r: Option<usize>)
    ensures
        match r {
            Some(n) => close_end(original@, norm_canonical@, close_tag@) is Some && n
                == text::byte_len(
                original@.take(close_end(original@, norm_canonical@, close_tag@)->0),
            ),
            None => close_end(original@, norm_canonical@, close_tag@) is None,
        },
{
    match close_tag_end(original, norm_canonical, close_tag) {
        Some(k) => {
            let head = text::cut(original, 0, k);
            assert(head@ =~= original@.take(k as int));
            Some(text::byte_length(head.as_str()))
        },
        None => None,
    }
}

/// Whether the canonical form of what stands in `raw` from position `i` on
/// begins with `open`.
pub open spec fn opens_at(raw: Seq<char>, open: Seq<char>, i: int) -> bool {
    0 <= i < raw.len() && raw[i] == '<' && text::begins(normalized(raw.skip(i)), open)
}

/// The first position at or after `from` at which `open` opens in `raw`.
pub open spec fn first_opening(raw: Seq<char>, open: Seq<char>, from: int) -> Option<int>
    decreases raw.len() - from,
{
    if from < 0 || from >= raw.len() {
        None
    } else if opens_at(raw, open, from) {
        Some(from)
    } else {
        first_opening(raw, open, from + 1)
    }
}

/// How many bytes before the estimated offset the scan for a tag starts.
pub const LOOK_BACK: usize = 30;

/// The position in `raw` of the tag that stands at byte offset `offset` of its
/// canonical form: the first opening from shortly before that offset on, else
/// the offset itself.
pub open spec fn tag_position(raw: Seq<char>, offset: int, open: Seq<char>) -> int {
    let estimated = if offset <= text::byte_len(raw) {
        offset
    } else {
        text::byte_len(raw) as int
    };
    let back = if estimated >= LOOK_BACK {
        estimated - LOOK_BACK
    } else {
        0
    };
    match first_opening(raw, open, text::chars_within(raw, back) as int) {
        Some(i) => i,
        None => text::chars_within(raw, estimated) as int,
    }
}

/// The first opening found lies in the text.
pub proof fn lemma_first_opening(raw: Seq<char>, open: Seq<char>, from: int)
    requires
        0 <= from,
    ensures
        first_opening(raw, open, from) matches Some(i) ==> from <= i && opens_at(raw, open, i),
    decreases raw.len() - from,
{
    if from < raw.len() && !opens_at(raw, open, from) {
        lemma_first_opening(raw, open, from + 1);
    }
}

/// The position of a tag lies in the text.
pub proof fn lemma_tag_position(raw: Seq<char>, offset: int, open: Seq<char>)
    requires
        0 <= offset,
    ensures
        0 <= tag_position(raw, offset, open) <= raw.len(),
{
    let estimated = if offset <= text::byte_len(raw) {
        offset
    } else {
        text::byte_len(raw) as int
    };
    let back = if estimated >= LOOK_BACK {
        estimated - LOOK_BACK
    } else {
        0
    };
    text::lemma_chars_within(raw, estimated);
    lemma_first_opening(raw, open, text::chars_within(raw, back) as int);
}

/// The position in `raw` of the tag that stands at byte offset `norm_idx` of
/// its canonical form. Scans for the first occurrence of the tag from shortly
/// before that offset on; where none is found, the offset stands.
pub fn find_original_tag_pos(raw: &str, norm_idx: usize, open: &str) -> (r: usize)
    ensures
        r == tag_position(raw@, norm_idx as int, open@),
        r <= raw@.len(),
{
    proof {
        lemma_tag_position(raw@, norm_idx as int, open@);
    }
    let total = text::byte_length(raw);
    let estimated: usize = if norm_idx <= total {
        norm_idx
    } else {
        total
    };
    let back: usize = if estimated >= LOOK_BACK {
        estimated - LOOK_BACK
    } else {
        0
    };
    let start = text::count_within(raw, back);
    let chars = text::chars_of(raw);
    let mut i: usize = start;
    while i < chars.len()
        invariant
            chars@ == raw@,
            start <= i <= chars@.len(),
            first_opening(raw@, open@, start as int) == first_opening(raw@, open@, i as int),
            tag_position(raw@, norm_idx as int, open@) == match first_opening(
                raw@,
                open@,
                start as int,
            ) {
                Some(k) => k,
                None => text::chars_within(raw@, estimated as int) as int,
            },
        decreases chars.len() - i,
    {
        if chars[i] == '<' {
            let rest = text::text_between(&chars, i, chars.len());
            assert(rest@ =~= raw@.skip(i as int));
            if text::begins_with(normalize_dsml_tags(rest.as_str()).as_str(), open) {
                return i;
            }
        }
        i = i + 1;
    }
    text::count_within(raw, estimated)
}

} // verus!
