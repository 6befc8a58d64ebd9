//! Text as a sequence of characters: measuring, searching, cutting and joining.
//!
//! Positions count characters. Where a rule of the proxy is stated in bytes (a
//! buffer limit, an offset taken from another text), `byte_len` and
//! `chars_within` relate the two.
use vstd::prelude::*;
use vstd::string::*;
use vstd::utf8::*;

verus! {

// ---------------------------------------------------------------------------
// Bytes and characters
// ---------------------------------------------------------------------------

/// The number of bytes that a character takes in UTF-8.
pub open spec fn byte_width(c: char) -> nat {
    let v = c as u32;
    if v < 0x80 {
        1
    } else if v < 0x800 {
        2
    } else if v < 0x10000 {
        3
    } else {
        4
    }
}

/// The number of bytes that a text takes in UTF-8.
pub open spec fn byte_len(s: Seq<char>) -> nat
    decreases s.len(),
{
    if s.len() == 0 {
        0
    } else {
        byte_width(s[0]) + byte_len(s.drop_first())
    }
}

/// The number of leading characters of `s` that fit in `n` bytes.
///
/// Where `n` is the byte offset of a character, this is that character's
/// position; inside a character it is the position of that character.
pub open spec fn chars_within(s: Seq<char>, n: int) -> nat
    decreases s.len(),
{
    if s.len() == 0 || byte_width(s[0]) > n {
        0
    } else {
        1 + chars_within(s.drop_first(), n - byte_width(s[0]))
    }
}

proof fn lemma_byte_len_encode(s: Seq<char>)
    ensures
        byte_len(s) == encode_utf8(s).len(),
    decreases s.len(),
{
    if s.len() > 0 {
        lemma_byte_len_encode(s.drop_first());
        char_is_scalar(s[0]);
    }
}

/// Byte lengths add up under concatenation.
pub proof fn lemma_byte_len_concat(a: Seq<char>, b: Seq<char>)
    ensures
        byte_len(a + b) == byte_len(a) + byte_len(b),
    decreases a.len(),
{
    if a.len() == 0 {
        assert(a + b =~= b);
    } else {
        assert((a + b).drop_first() =~= a.drop_first() + b);
        lemma_byte_len_concat(a.drop_first(), b);
    }
}

/// A text has at least as many bytes as characters.
pub proof fn lemma_byte_len_bound(s: Seq<char>)
    ensures
        s.len() <= byte_len(s) <= 4 * s.len(),
    decreases s.len(),
{
    if s.len() > 0 {
        lemma_byte_len_bound(s.drop_first());
    }
}

/// `chars_within` stays inside the text, cuts at or before the offset, and
/// leaves less than one character between the cut and the offset.
pub proof fn lemma_chars_within(s: Seq<char>, n: int)
    requires
        0 <= n,
    ensures
        chars_within(s, n) <= s.len(),
        byte_len(s.take(chars_within(s, n) as int)) <= n,
        chars_within(s, n) < s.len() ==> n < byte_len(s.take(chars_within(s, n) as int))
            + byte_width(s[chars_within(s, n) as int]),
    decreases s.len(),
{
    if s.len() == 0 || byte_width(s[0]) > n {
        assert(s.take(0) =~= Seq::<char>::empty());
    } else {
        let rest = s.drop_first();
        let m = n - byte_width(s[0]);
        lemma_chars_within(rest, m);
        let k = chars_within(rest, m) as int;
        let t = s.take(k + 1);
        assert(t.drop_first() =~= rest.take(k));
        assert(t[0] == s[0]);
        if k < rest.len() {
            assert(rest[k] == s[k + 1]);
        }
    }
}

/// At the byte offset of a character, `chars_within` is that character's
/// position.
pub proof fn lemma_chars_within_boundary(s: Seq<char>, k: int)
    requires
        0 <= k <= s.len(),
    ensures
        chars_within(s, byte_len(s.take(k)) as int) == k,
    decreases k,
{
    if k == 0 {
        assert(s.take(0) =~= Seq::<char>::empty());
    } else {
        let rest = s.drop_first();
        assert(s.take(k).drop_first() =~= rest.take(k - 1));
        lemma_chars_within_boundary(rest, k - 1);
    }
}

/// A larger offset is never at an earlier position.
pub proof fn lemma_chars_within_monotone(s: Seq<char>, m: int, n: int)
    requires
        m <= n,
    ensures
        chars_within(s, m) <= chars_within(s, n) <= s.len(),
    decreases s.len(),
{
    if s.len() > 0 && byte_width(s[0]) <= n {
        lemma_chars_within_monotone(
            s.drop_first(),
            if byte_width(s[0]) <= m {
                m - byte_width(s[0])
            } else {
                n - byte_width(s[0])
            },
            n - byte_width(s[0]),
        );
    }
}

/// The least number of leading characters of `s` that take at least `n` bytes;
/// all of them where `s` is shorter.
pub open spec fn chars_covering(s: Seq<char>, n: int) -> nat
    decreases s.len(),
{
    if s.len() == 0 || n <= 0 {
        0
    } else {
        1 + chars_covering(s.drop_first(), n - byte_width(s[0]))
    }
}

/// `chars_covering` stays inside the text, cuts at or after the offset, and
/// leaves less than one character between the offset and the cut.
pub proof fn lemma_chars_covering(s: Seq<char>, n: int)
    requires
        0 <= n <= byte_len(s),
    ensures
        chars_covering(s, n) <= s.len(),
        n <= byte_len(s.take(chars_covering(s, n) as int)) < n + 4,
    decreases s.len(),
{
    if s.len() == 0 || n == 0 {
        assert(s.take(0) =~= Seq::<char>::empty());
    } else {
        let rest = s.drop_first();
        let m = n - byte_width(s[0]);
        let k = chars_covering(rest, m) as int;
        if m <= 0 {
            assert(rest.take(0) =~= Seq::<char>::empty());
        } else {
            lemma_chars_covering(rest, m);
        }
        assert(s.take(k + 1).drop_first() =~= rest.take(k));
        assert(s.take(k + 1)[0] == s[0]);
    }
}

/// The least number of leading characters of `s` that take at least `n` bytes.
pub fn count_covering(s: &str, n: usize) -> (k: usize)
    ensures
        k == chars_covering(s@, n as int),
        k <= s@.len(),
{
    let chars = chars_of(s);
    let mut left: usize = n;
    let mut k: usize = 0;
    assert(s@.skip(0) =~= s@);
    while k < chars.len() && left > 0
        invariant
            chars@ == s@,
            k <= chars@.len(),
            chars_covering(s@, n as int) == k + chars_covering(s@.skip(k as int), left as int),
        decreases chars.len() - k,
    {
        assert(s@.skip(k as int).drop_first() =~= s@.skip(k + 1));
        let w = char_width(chars[k]);
        assert(w > left ==> chars_covering(s@.skip(k + 1), left - w) == 0);
        assert(chars_covering(s@.skip(k + 1), 0) == 0);
        left = if w <= left {
            left - w
        } else {
            0
        };
        k = k + 1;
    }
    k
}

/// The byte length of `s`.
pub fn byte_length(s: &str) -> (n: usize)
    ensures
        n == byte_len(s@),
{
    proof {
        lemma_byte_len_encode(s@);
    }
    s.as_bytes().len()
}

fn char_width(c: char) -> (w: usize)
    ensures
        w == byte_width(c),
{
    let v: u32 = c as u32;
    if v < 0x80 {
        1
    } else if v < 0x800 {
        2
    } else if v < 0x10000 {
        3
    } else {
        4
    }
}

/// How many leading characters of `s` fit in `limit` bytes.
pub fn count_within(s: &str, limit: usize) -> (k: usize)
    ensures
        k == chars_within(s@, limit as int),
        k <= s@.len(),
{
    let chars = chars_of(s);
    let mut left: usize = limit;
    let mut k: usize = 0;
    assert(s@.skip(0) =~= s@);
    while k < chars.len() && char_width(chars[k]) <= left
        invariant
            chars@ == s@,
            k <= chars@.len(),
            chars_within(s@, limit as int) == k + chars_within(s@.skip(k as int), left as int),
        decreases chars.len() - k,
    {
        assert(s@.skip(k as int).drop_first() =~= s@.skip(k + 1));
        left = left - char_width(chars[k]);
        k = k + 1;
    }
    k
}

// ---------------------------------------------------------------------------
// Characters in and out of strings
// ---------------------------------------------------------------------------

/// `String::push` of std: appends the character at the end.
pub assume_specification[ std::string::String::push ](s: &mut std::string::String, c: char)
    ensures
        final(s)@ == old(s)@.push(c),
;

/// The characters of `s`, in order.
pub fn chars_of(s: &str) -> (v: Vec<char>)
    ensures
        v@ == s@,
{
    let mut v: Vec<char> = Vec::new();
    for c in it: s.chars()
        invariant
            it.seq() == s@,
            v@ == s@.take(it.index() as int),
    {
        proof {
            assert(s@.take(it.index() as int).push(c) =~= s@.take(it.index() + 1));
        }
        v.push(c);
    }
    assert(s@.take(s@.len() as int) =~= s@);
    v
}

/// The string that holds the characters `from..to` of `chars`.
pub fn text_between(chars: &Vec<char>, from: usize, to: usize) -> (s: String)
    requires
        from <= to <= chars@.len(),
    ensures
        s@ == chars@.subrange(from as int, to as int),
{
    let mut s = String::new();
    let mut i: usize = from;
    while i < to
        invariant
            from <= i <= to <= chars@.len(),
            s@ == chars@.subrange(from as int, i as int),
        decreases to - i,
    {
        s.push(chars[i]);
        i = i + 1;
        assert(chars@.subrange(from as int, i as int) =~= chars@.subrange(
            from as int,
            i - 1,
        ).push(chars@[i - 1]));
    }
    s
}

/// The characters `from..to` of `s`.
pub fn cut(s: &str, from: usize, to: usize) -> (r: String)
    requires
        from <= to <= s@.len(),
    ensures
        r@ == s@.subrange(from as int, to as int),
{
    s.substring_char(from, to).to_owned()
}

/// The characters of `s` before position `to`.
pub fn head(s: &str, to: usize) -> (r: String)
    requires
        to <= s@.len(),
    ensures
        r@ == s@.take(to as int),
{
    let r = cut(s, 0, to);
    assert(r@ =~= s@.take(to as int));
    r
}

/// The characters of `s` from position `from` on.
pub fn tail(s: &str, from: usize) -> (r: String)
    requires
        from <= s@.len(),
    ensures
        r@ == s@.skip(from as int),
        s@.len() <= usize::MAX,
{
    let n: usize = s.unicode_len();
    let r = cut(s, from, n);
    assert(r@ =~= s@.skip(from as int));
    r
}

/// The two texts one after the other.
pub fn cat(a: &str, b: &str) -> (r: String)
    ensures
        r@ == a@ + b@,
{
    let mut r = a.to_owned();
    r.append(b);
    r
}

/// Whether the two texts are equal.
pub fn same(a: &str, b: &str) -> (r: bool)
    ensures
        r == (a@ == b@),
{
    a.to_owned() == b.to_owned()
}

// ---------------------------------------------------------------------------
// Searching
// ---------------------------------------------------------------------------

/// Whether `p` stands in `s` at position `i`.
pub open spec fn occurs_at(s: Seq<char>, p: Seq<char>, i: int) -> bool {
    0 <= i && i + p.len() <= s.len() && s.subrange(i, i + p.len()) == p
}

/// The first position at or after `from` at which `p` stands in `s`.
pub open spec fn find_from(s: Seq<char>, p: Seq<char>, from: int) -> Option<int>
    decreases s.len() + 1 - from,
{
    if from < 0 || from + p.len() > s.len() {
        None
    } else if occurs_at(s, p, from) {
        Some(from)
    } else {
        find_from(s, p, from + 1)
    }
}

/// The first position at which `p` stands in `s`.
pub open spec fn find(s: Seq<char>, p: Seq<char>) -> Option<int> {
    find_from(s, p, 0)
}

/// Whether `p` stands somewhere in `s`.
pub open spec fn holds(s: Seq<char>, p: Seq<char>) -> bool {
    find(s, p) is Some
}

pub open spec fn begins(s: Seq<char>, p: Seq<char>) -> bool {
    occurs_at(s, p, 0)
}

pub open spec fn ends(s: Seq<char>, p: Seq<char>) -> bool {
    occurs_at(s, p, s.len() - p.len())
}

/// What `find_from` finds is the least position at which the pattern stands.
pub proof fn lemma_find_from(s: Seq<char>, p: Seq<char>, from: int)
    requires
        0 <= from,
    ensures
        match find_from(s, p, from) {
            Some(i) => from <= i && occurs_at(s, p, i) && forall|j: int|
                from <= j < i ==> !occurs_at(s, p, j),
            None => forall|j: int| from <= j ==> !occurs_at(s, p, j),
        },
    decreases s.len() + 1 - from,
{
    if from + p.len() > s.len() {
    } else if occurs_at(s, p, from) {
    } else {
        lemma_find_from(s, p, from + 1);
    }
}

/// What stands first in a text is found where it stands, whatever follows.
pub proof fn lemma_find_first(s: Seq<char>, p: Seq<char>, from: int, i: int)
    requires
        0 <= from <= i,
        occurs_at(s, p, i),
        forall|j: int| from <= j < i ==> !occurs_at(s, p, j),
    ensures
        find_from(s, p, from) == Some(i),
{
    lemma_find_from(s, p, from);
}

/// A pattern that stands in a part of a text stands in the text.
pub proof fn lemma_occurs_part(a: Seq<char>, b: Seq<char>, p: Seq<char>, i: int)
    ensures
        occurs_at(a, p, i) ==> occurs_at(a + b, p, i),
        i + p.len() <= a.len() && occurs_at(a + b, p, i) ==> occurs_at(a, p, i),
        0 <= i && occurs_at(b, p, i) ==> occurs_at(a + b, p, a.len() + i),
        a.len() <= i && occurs_at(a + b, p, i) ==> occurs_at(b, p, i - a.len()),
{
    let s = a + b;
    let n = p.len();
    if 0 <= i && i + n <= a.len() {
        assert(s.subrange(i, i + n) =~= a.subrange(i, i + n));
    }
    if 0 <= i && i + n <= b.len() {
        assert(s.subrange(a.len() + i, a.len() + i + n) =~= b.subrange(i, i + n));
    }
    if a.len() <= i && i + n <= s.len() {
        assert(s.subrange(i, i + n) =~= b.subrange(i - a.len(), i - a.len() + n));
    }
}

/// Where the second part of a text begins with a character that stands in the
/// pattern only at its start, if at all, the pattern does not stand across the
/// two parts.
pub proof fn lemma_not_across(a: Seq<char>, b: Seq<char>, p: Seq<char>, i: int)
    requires
        b.len() > 0,
        forall|j: int| 1 <= j < p.len() ==> #[trigger] p[j] != b[0],
        i < a.len(),
        occurs_at(a + b, p, i),
    ensures
        occurs_at(a, p, i),
{
    let s = a + b;
    if i + p.len() > a.len() {
        let j = a.len() - i;
        assert(s.subrange(i, i + p.len())[j] == s[a.len() as int]);
        assert(s[a.len() as int] == b[0]);
    }
    lemma_occurs_part(a, b, p, i);
}

/// Where the first part of a text ends with a character that stands in the
/// pattern only at its end, if at all, the pattern does not stand across the
/// two parts.
pub proof fn lemma_not_across_end(a: Seq<char>, b: Seq<char>, p: Seq<char>, i: int)
    requires
        a.len() > 0,
        forall|j: int| 0 <= j < p.len() - 1 ==> #[trigger] p[j] != a.last(),
        i < a.len(),
        occurs_at(a + b, p, i),
    ensures
        occurs_at(a, p, i),
{
    let s = a + b;
    if i + p.len() > a.len() {
        let j = a.len() - 1 - i;
        assert(s.subrange(i, i + p.len())[j] == s[a.len() - 1]);
        assert(s[a.len() - 1] == a.last());
    }
    lemma_occurs_part(a, b, p, i);
}

/// A pattern that stands in neither part of a text, nor across them, does not
/// stand in the text.
pub proof fn lemma_holds_neither(a: Seq<char>, b: Seq<char>, p: Seq<char>)
    requires
        !holds(a, p),
        !holds(b, p),
        (a.len() > 0 && forall|j: int| 0 <= j < p.len() - 1 ==> #[trigger] p[j] != a.last()) || (
        b.len() > 0 && forall|j: int| 1 <= j < p.len() ==> #[trigger] p[j] != b[0]),
    ensures
        !holds(a + b, p),
{
    lemma_find_from(a, p, 0);
    lemma_find_from(b, p, 0);
    lemma_find_from(a + b, p, 0);
    if let Some(i) = find(a + b, p) {
        if i < a.len() {
            if a.len() > 0 && forall|j: int| 0 <= j < p.len() - 1 ==> #[trigger] p[j] != a.last() {
                lemma_not_across_end(a, b, p, i);
            } else {
                lemma_not_across(a, b, p, i);
            }
        } else {
            lemma_occurs_part(a, b, p, i);
        }
    }
}

/// A text in which the first character of a pattern does not stand does not
/// hold the pattern.
pub proof fn lemma_holds_none(s: Seq<char>, p: Seq<char>)
    requires
        p.len() > 0,
        !s.contains(p[0]),
    ensures
        !holds(s, p),
{
    lemma_find_from(s, p, 0);
    if let Some(i) = find(s, p) {
        assert(s.subrange(i, i + p.len())[0] == s[i]);
    }
}

/// A pattern that does not stand in the first part of a text, nor across the
/// two, is found where it stands in the second.
pub proof fn lemma_find_after(a: Seq<char>, b: Seq<char>, p: Seq<char>)
    requires
        b.len() > 0,
        p.len() > 0,
        forall|j: int| 1 <= j < p.len() ==> #[trigger] p[j] != b[0],
        !holds(a, p),
    ensures
        find(a + b, p) == (match find(b, p) {
            Some(i) => Some(a.len() + i),
            None => None,
        }),
{
    lemma_find_from(a, p, 0);
    lemma_find_from(b, p, 0);
    lemma_find_from(a + b, p, 0);
    match find(a + b, p) {
        Some(i) => {
            if i < a.len() {
                lemma_not_across(a, b, p, i);
            }
            lemma_occurs_part(a, b, p, i);
            match find(b, p) {
                Some(k) => {
                    lemma_occurs_part(a, b, p, k);
                },
                None => {},
            }
        },
        None => {
            if let Some(k) = find(b, p) {
                lemma_occurs_part(a, b, p, k);
            }
        },
    }
}

/// A text that ends with a text that begins with the pattern holds the pattern.
pub proof fn lemma_holds_in(a: Seq<char>, b: Seq<char>, p: Seq<char>)
    requires
        begins(b, p),
    ensures
        holds(a + b, p),
{
    let s = a + b;
    assert(s.subrange(a.len() as int, (a.len() + p.len()) as int) =~= b.subrange(0, p.len() as int));
    assert(occurs_at(s, p, a.len() as int));
    lemma_holds(s, p);
}

/// A text holds a pattern exactly when the pattern stands at some position.
pub proof fn lemma_holds(s: Seq<char>, p: Seq<char>)
    ensures
        holds(s, p) <==> exists|i: int| occurs_at(s, p, i),
{
    lemma_find_from(s, p, 0);
    if holds(s, p) {
        assert(occurs_at(s, p, find(s, p)->0));
    }
}

fn stands_at(s: &Vec<char>, p: &Vec<char>, i: usize) -> (r: bool)
    requires
        i + p@.len() <= s@.len(),
    ensures
        r == occurs_at(s@, p@, i as int),
{
    let n: usize = s.len();
    let mut k: usize = 0;
    while k < p.len()
        invariant
            i + p@.len() <= s@.len() == n,
            k <= p@.len(),
            forall|j: int| 0 <= j < k ==> s@[i + j] == p@[j],
        decreases p.len() - k,
    {
        if s[i + k] != p[k] {
            assert(s@.subrange(i as int, i + p@.len())[k as int] == s@[i + k]);
            return false;
        }
        k = k + 1;
    }
    assert(s@.subrange(i as int, i + p@.len()) =~= p@);
    true
}

/// The first position at or after `from` at which `p` stands in `s`.
pub fn find_text_from(s: &str, p: &str, from: usize) -> (r: Option<usize>)
    ensures
        match r {
            Some(i) => find_from(s@, p@, from as int) == Some(i as int) && from <= i && i + p@.len()
                <= s@.len() <= usize::MAX,
            None => find_from(s@, p@, from as int) is None,
        },
{
    let sc = chars_of(s);
    let pc = chars_of(p);
    let n: usize = sc.len();
    if n < pc.len() {
        return None;
    }
    let last: usize = n - pc.len();
    let mut i: usize = from;
    while i <= last
        invariant
            sc@ == s@,
            pc@ == p@,
            from <= i,
            last + pc@.len() == sc@.len() == n,
            find_from(s@, p@, from as int) == find_from(s@, p@, i as int),
        decreases last + 1 - i,
    {
        if stands_at(&sc, &pc, i) {
            return Some(i);
        }
        if i == last {
            return None;
        }
        i = i + 1;
    }
    None
}

/// The first position at which `p` stands in `s`.
pub fn find_text(s: &str, p: &str) -> (r: Option<usize>)
    ensures
        match r {
            Some(i) => find(s@, p@) == Some(i as int) && i + p@.len() <= s@.len() <= usize::MAX,
            None => find(s@, p@) is None,
        },
{
    find_text_from(s, p, 0)
}

/// Whether `p` stands somewhere in `s`.
pub fn contains_text(s: &str, p: &str) -> (r: bool)
    ensures
        r == holds(s@, p@),
{
    find_text(s, p).is_some()
}

pub fn begins_with(s: &str, p: &str) -> (r: bool)
    ensures
        r == begins(s@, p@),
{
    let sc = chars_of(s);
    let pc = chars_of(p);
    pc.len() <= sc.len() && stands_at(&sc, &pc, 0)
}

pub fn ends_with_text(s: &str, p: &str) -> (r: bool)
    ensures
        r == ends(s@, p@),
{
    let sc = chars_of(s);
    let pc = chars_of(p);
    pc.len() <= sc.len() && stands_at(&sc, &pc, sc.len() - pc.len())
}

// ---------------------------------------------------------------------------
// White space, case and single characters
// ---------------------------------------------------------------------------

/// The characters with the Unicode property White_Space.
pub open spec fn is_white(c: char) -> bool {
    let v = c as u32;
    ||| 0x09 <= v <= 0x0d
    ||| v == 0x20
    ||| v == 0x85
    ||| v == 0xa0
    ||| v == 0x1680
    ||| 0x2000 <= v <= 0x200a
    ||| v == 0x2028
    ||| v == 0x2029
    ||| v == 0x202f
    ||| v == 0x205f
    ||| v == 0x3000
}

pub open spec fn trim_start(s: Seq<char>) -> Seq<char>
    decreases s.len(),
{
    if s.len() > 0 && is_white(s[0]) {
        trim_start(s.drop_first())
    } else {
        s
    }
}

pub open spec fn trim_end(s: Seq<char>) -> Seq<char>
    decreases s.len(),
{
    if s.len() > 0 && is_white(s.last()) {
        trim_end(s.drop_last())
    } else {
        s
    }
}

/// `s` without the white space at its two ends.
pub open spec fn trim(s: Seq<char>) -> Seq<char> {
    trim_end(trim_start(s))
}

/// A trimmed text neither begins nor ends with white space.
pub proof fn law_trim(s: Seq<char>)
    ensures
        trim(s).len() <= s.len(),
        trim(s).len() > 0 ==> !is_white(trim(s)[0]) && !is_white(trim(s).last()),
{
    lemma_trim_start(s);
    lemma_trim_end(trim_start(s));
}

proof fn lemma_trim_start(s: Seq<char>)
    ensures
        trim_start(s).len() <= s.len(),
        trim_start(s).len() > 0 ==> !is_white(trim_start(s)[0]),
    decreases s.len(),
{
    if s.len() > 0 && is_white(s[0]) {
        lemma_trim_start(s.drop_first());
    }
}

proof fn lemma_trim_end(s: Seq<char>)
    ensures
        trim_end(s).len() <= s.len(),
        trim_end(s).len() > 0 ==> !is_white(trim_end(s).last()) && trim_end(s)[0] == s[0],
    decreases s.len(),
{
    if s.len() > 0 && is_white(s.last()) {
        lemma_trim_end(s.drop_last());
    }
}

pub fn is_white_char(c: char) -> (r: bool)
    ensures
        r == is_white(c),
{
    let v: u32 = c as u32;
    (0x09 <= v && v <= 0x0d) || v == 0x20 || v == 0x85 || v == 0xa0 || v == 0x1680 || (0x2000 <= v
        && v <= 0x200a) || v == 0x2028 || v == 0x2029 || v == 0x202f || v == 0x205f || v == 0x3000
}

/// `s` without the white space at its two ends.
pub fn trimmed(s: &str) -> (r: String)
    ensures
        r@ == trim(s@),
{
    let chars = chars_of(s);
    let mut from: usize = 0;
    let mut to: usize = chars.len();
    assert(s@.subrange(0, s@.len() as int) =~= s@);
    while from < to && is_white_char(chars[from])
        invariant
            chars@ == s@,
            from <= to == s@.len(),
            trim_start(s@) == trim_start(s@.subrange(from as int, to as int)),
        decreases to - from,
    {
        assert(s@.subrange(from as int, to as int).drop_first() =~= s@.subrange(
            from + 1,
            to as int,
        ));
        from = from + 1;
    }
    assert(trim_start(s@) == s@.subrange(from as int, to as int));
    while from < to && is_white_char(chars[to - 1])
        invariant
            chars@ == s@,
            from <= to <= s@.len(),
            trim(s@) == trim_end(s@.subrange(from as int, to as int)),
        decreases to - from,
    {
        assert(s@.subrange(from as int, to as int).drop_last() =~= s@.subrange(
            from as int,
            to - 1,
        ));
        to = to - 1;
    }
    text_between(&chars, from, to)
}

/// `s` without the copies of `c` at its end.
pub open spec fn strip_end(s: Seq<char>, c: char) -> Seq<char>
    decreases s.len(),
{
    if s.len() > 0 && s.last() == c {
        strip_end(s.drop_last(), c)
    } else {
        s
    }
}

/// `s` without the copies of `c` at its end.
pub fn stripped_end(s: &str, c: char) -> (r: String)
    ensures
        r@ == strip_end(s@, c),
{
    let chars = chars_of(s);
    let mut to: usize = chars.len();
    assert(s@.take(s@.len() as int) =~= s@);
    while to > 0 && chars[to - 1] == c
        invariant
            chars@ == s@,
            to <= s@.len(),
            strip_end(s@, c) == strip_end(s@.take(to as int), c),
        decreases to,
    {
        assert(s@.take(to as int).drop_last() =~= s@.take(to - 1));
        to = to - 1;
    }
    assert(s@.take(to as int) =~= s@.subrange(0, to as int));
    text_between(&chars, 0, to)
}

/// The lower-case letter of an upper-case ASCII letter; every other character
/// unchanged.
pub open spec fn ascii_lower(c: char) -> char {
    if 'A' <= c && c <= 'Z' {
        ((c as u8) + 32) as u8 as char
    } else {
        c
    }
}

/// What `str::to_lowercase` of std gives for a text.
pub uninterp spec fn lowercase(s: Seq<char>) -> Seq<char>;

/// `str::to_lowercase` of std: the lower-case equivalent by the Unicode rules,
/// which on an ASCII text replaces each upper-case letter and leaves the rest.
pub assume_specification[ str::to_lowercase ](s: &str) -> (r: std::string::String)
    ensures
        r@ == lowercase(s@),
        is_ascii_chars(s@) ==> r@ == s@.map_values(|c: char| ascii_lower(c)),
;

/// The position in `s` that has the byte offset at which `p` first stands in
/// the lower-case form of `s`.
pub open spec fn find_lower(s: Seq<char>, p: Seq<char>) -> Option<int> {
    match find(lowercase(s), p) {
        Some(k) => Some(chars_within(s, byte_len(lowercase(s).take(k)) as int) as int),
        None => None,
    }
}

/// The position in `s` that has the byte offset at which `p` first stands in
/// the lower-case form of `s`.
pub fn find_text_lower(s: &str, p: &str) -> (r: Option<usize>)
    ensures
        match r {
            Some(i) => find_lower(s@, p@) == Some(i as int) && i <= s@.len(),
            None => find_lower(s@, p@) is None,
        },
{
    let low = s.to_lowercase();
    match find_text(low.as_str(), p) {
        Some(k) => {
            proof {
                lemma_find_from(low@, p@, 0);
            }
            let before = byte_length(head(low.as_str(), k).as_str());
            Some(count_within(s, before))
        },
        None => None,
    }
}

/// The text with its ASCII letters in lower case.
pub open spec fn ascii_lowered(s: Seq<char>) -> Seq<char> {
    s.map_values(|c: char| ascii_lower(c))
}

/// Lower case changes the ASCII letters of the text alone, in each of its
/// parts.
pub open spec fn plain_case(s: Seq<char>) -> bool {
    forall|a: int, b: int|
        0 <= a <= b <= s.len() ==> lowercase(#[trigger] s.subrange(a, b)) == ascii_lowered(
            s.subrange(a, b),
        )
}

proof fn lemma_lower_width(c: char)
    ensures
        byte_width(ascii_lower(c)) == byte_width(c),
{
}

proof fn lemma_lowered_bytes(s: Seq<char>)
    ensures
        byte_len(ascii_lowered(s)) == byte_len(s),
    decreases s.len(),
{
    if s.len() > 0 {
        lemma_lower_width(s[0]);
        lemma_lowered_bytes(s.drop_first());
        assert(ascii_lowered(s).drop_first() =~= ascii_lowered(s.drop_first()));
    }
}

/// Where lower case changes the ASCII letters alone, a pattern is found where
/// it stands up to the case of those.
pub proof fn lemma_find_lower(s: Seq<char>, p: Seq<char>)
    requires
        lowercase(s) == ascii_lowered(s),
    ensures
        find_lower(s, p) == find(ascii_lowered(s), p),
{
    let low = ascii_lowered(s);
    lemma_find_from(low, p, 0);
    if let Some(k) = find(low, p) {
        assert(low.take(k) =~= ascii_lowered(s.take(k)));
        lemma_lowered_bytes(s.take(k));
        lemma_chars_within_boundary(s, k);
    }
}

/// Whether two texts are equal up to the case of ASCII letters.
pub open spec fn same_ignoring_case(a: Seq<char>, b: Seq<char>) -> bool {
    a.len() == b.len() && forall|i: int|
        0 <= i < a.len() ==> ascii_lower(#[trigger] a[i]) == ascii_lower(b[i])
}

pub fn ascii_lower_char(c: char) -> (r: char)
    ensures
        r == ascii_lower(c),
{
    if 'A' <= c && c <= 'Z' {
        ((c as u8) + 32) as char
    } else {
        c
    }
}

/// Whether two texts are equal up to the case of ASCII letters.
pub fn same_text_ignoring_case(a: &str, b: &str) -> (r: bool)
    ensures
        r == same_ignoring_case(a@, b@),
{
    let ac = chars_of(a);
    let bc = chars_of(b);
    if ac.len() != bc.len() {
        return false;
    }
    let mut i: usize = 0;
    while i < ac.len()
        invariant
            ac@ == a@,
            bc@ == b@,
            ac@.len() == bc@.len(),
            i <= ac@.len(),
            forall|j: int| 0 <= j < i ==> ascii_lower(#[trigger] a@[j]) == ascii_lower(b@[j]),
        decreases ac.len() - i,
    {
        if ascii_lower_char(ac[i]) != ascii_lower_char(bc[i]) {
            assert(ascii_lower(a@[i as int]) != ascii_lower(b@[i as int]));
            return false;
        }
        i = i + 1;
    }
    true
}

/// `s` with each `from` replaced by `to`.
pub open spec fn swap_char(s: Seq<char>, from: char, to: char) -> Seq<char> {
    s.map_values(|c: char| if c == from { to } else { c })
}

/// `s` with each `from` replaced by `to`.
pub fn with_char_swapped(s: &str, from: char, to: char) -> (r: String)
    ensures
        r@ == swap_char(s@, from, to),
{
    let chars = chars_of(s);
    let mut r = String::new();
    let mut i: usize = 0;
    while i < chars.len()
        invariant
            chars@ == s@,
            i <= chars@.len(),
            r@ == swap_char(s@, from, to).take(i as int),
        decreases chars.len() - i,
    {
        let c = chars[i];
        r.push(if c == from { to } else { c });
        assert(r@ =~= swap_char(s@, from, to).take(i + 1));
        i = i + 1;
    }
    assert(r@ =~= swap_char(s@, from, to));
    r
}

/// `s` without the copies of `c`.
pub open spec fn without(s: Seq<char>, c: char) -> Seq<char>
    decreases s.len(),
{
    if s.len() == 0 {
        Seq::empty()
    } else if s.last() == c {
        without(s.drop_last(), c)
    } else {
        without(s.drop_last(), c).push(s.last())
    }
}

/// Leaving a character out works piece by piece.
pub proof fn lemma_without_concat(a: Seq<char>, b: Seq<char>, c: char)
    ensures
        without(a + b, c) == without(a, c) + without(b, c),
    decreases b.len(),
{
    if b.len() == 0 {
        assert(a + b =~= a);
    } else {
        assert((a + b).drop_last() =~= a + b.drop_last());
        lemma_without_concat(a, b.drop_last(), c);
        assert(without(a + b, c) =~= without(a, c) + without(b, c));
    }
}

/// A text that does not hold the character stays as it is.
pub proof fn lemma_without_none(s: Seq<char>, c: char)
    requires
        forall|i: int| 0 <= i < s.len() ==> #[trigger] s[i] != c,
    ensures
        without(s, c) == s,
    decreases s.len(),
{
    if s.len() > 0 {
        lemma_without_none(s.drop_last(), c);
        assert(s.drop_last().push(s.last()) =~= s);
    }
}

/// `s` without the copies of `c`.
pub fn with_char_removed(s: &str, c: char) -> (r: String)
    ensures
        r@ == without(s@, c),
{
    let chars = chars_of(s);
    let mut r = String::new();
    let mut i: usize = 0;
    while i < chars.len()
        invariant
            chars@ == s@,
            i <= chars@.len(),
            r@ == without(s@.take(i as int), c),
        decreases chars.len() - i,
    {
        assert(s@.take(i + 1).drop_last() =~= s@.take(i as int));
        if chars[i] != c {
            r.push(chars[i]);
        }
        i = i + 1;
    }
    assert(s@.take(s@.len() as int) =~= s@);
    r
}

// ---------------------------------------------------------------------------
// Putting texts together
// ---------------------------------------------------------------------------

/// The views of a sequence of strings.
pub open spec fn views(v: Seq<String>) -> Seq<Seq<char>> {
    v.map_values(|s: String| s@)
}

/// The texts of `parts` with `sep` between them.
pub open spec fn joined(parts: Seq<Seq<char>>, sep: Seq<char>) -> Seq<char>
    decreases parts.len(),
{
    if parts.len() == 0 {
        Seq::empty()
    } else if parts.len() == 1 {
        parts[0]
    } else {
        joined(parts.drop_last(), sep) + sep + parts.last()
    }
}

/// The texts of `parts` with `sep` between them.
pub fn join(parts: &Vec<String>, sep: &str) -> (r: String)
    ensures
        r@ == joined(views(parts@), sep@),
{
    let mut r = String::new();
    let mut i: usize = 0;
    let ghost all = views(parts@);
    assert(r@ =~= joined(all.take(0), sep@));
    while i < parts.len()
        invariant
            all == views(parts@),
            i <= parts@.len(),
            r@ == joined(all.take(i as int), sep@),
        decreases parts.len() - i,
    {
        if i > 0 {
            r.append(sep);
        }
        r.append(parts[i].as_str());
        proof {
            assert(all.take(i + 1).drop_last() =~= all.take(i as int));
            assert(all.take(i + 1).last() == parts@[i as int]@);
            if i == 0 {
                assert(r@ =~= parts@[0]@);
            }
        }
        i = i + 1;
    }
    assert(all.take(all.len() as int) =~= all);
    r
}

pub open spec fn digit(d: nat) -> char {
    (48 + d) as u8 as char
}

/// The decimal numeral of `n`.
pub open spec fn decimal(n: nat) -> Seq<char>
    decreases n,
{
    if n < 10 {
        seq![digit(n)]
    } else {
        decimal(n / 10).push(digit(n % 10))
    }
}

/// The decimal numeral of `n`.
pub fn decimal_text(n: u64) -> (r: String)
    ensures
        r@ == decimal(n as nat),
    decreases n,
{
    let d = (48 + (n % 10) as u8) as char;
    let mut r = if n < 10 {
        String::new()
    } else {
        decimal_text(n / 10)
    };
    r.push(d);
    assert(n < 10 ==> r@ =~= seq![digit(n as nat)]);
    r
}

/// What `String::from_utf8_lossy` of std makes of bytes.
pub uninterp spec fn utf8_lossy(bytes: Seq<u8>) -> Seq<char>;

/// `String::from_utf8_lossy` of std: the text that the bytes encode; where they
/// are no valid UTF-8, invalid sequences become replacement characters.
#[verifier::external_body]
pub(crate) fn lossy_text(bytes: &Vec<u8>) -> (r: String)
    ensures
        r@ == utf8_lossy(bytes@),
        valid_utf8(bytes@) ==> r@ == decode_utf8(bytes@),
{
    String::from_utf8_lossy(bytes).into_owned()
}

// ---------------------------------------------------------------------------
// Lines
// ---------------------------------------------------------------------------

/// The number of characters of `s` up to and with its last `c`; 0 if there is
/// none.
pub open spec fn after_last(s: Seq<char>, c: char) -> nat
    decreases s.len(),
{
    if s.len() == 0 {
        0
    } else if s.last() == c {
        s.len()
    } else {
        after_last(s.drop_last(), c)
    }
}

/// The number of characters of `s` up to and with its last `c`; 0 if there is
/// none.
pub fn count_through_last(s: &str, c: char) -> (n: usize)
    ensures
        n == after_last(s@, c),
        n <= s@.len(),
{
    let chars = chars_of(s);
    let mut n: usize = chars.len();
    assert(s@.take(s@.len() as int) =~= s@);
    while n > 0 && chars[n - 1] != c
        invariant
            chars@ == s@,
            n <= s@.len(),
            after_last(s@, c) == after_last(s@.take(n as int), c),
        decreases n,
    {
        assert(s@.take(n as int).drop_last() =~= s@.take(n - 1));
        n = n - 1;
    }
    n
}

/// The lines of `s`: the pieces before each line feed, and what follows the
/// last one where that is not empty.
pub open spec fn lines(s: Seq<char>) -> Seq<Seq<char>>
    decreases s.len(),
{
    if s.len() == 0 {
        Seq::empty()
    } else {
        match find(s, seq!['\n']) {
            Some(i) => if 0 <= i < s.len() {
                seq![s.take(i)] + lines(s.skip(i + 1))
            } else {
                seq![s]
            },
            None => seq![s],
        }
    }
}

/// The lines of `s` that are complete: those that end in a line feed.
pub open spec fn ready_lines(s: Seq<char>) -> Seq<Seq<char>> {
    lines(s.take(after_last(s, '\n') as int))
}

/// What follows the last line feed of `s`.
pub open spec fn unfinished(s: Seq<char>) -> Seq<char> {
    s.skip(after_last(s, '\n') as int)
}

/// `after_last` stays inside the text; what it cuts off is empty or ends with
/// the character, and what follows does not hold it.
pub proof fn lemma_after_last(s: Seq<char>, c: char)
    ensures
        after_last(s, c) <= s.len(),
        after_last(s, c) > 0 ==> s[after_last(s, c) - 1] == c,
        forall|i: int| after_last(s, c) <= i < s.len() ==> #[trigger] s[i] != c,
    decreases s.len(),
{
    if s.len() > 0 && s.last() != c {
        lemma_after_last(s.drop_last(), c);
        assert forall|i: int| after_last(s, c) <= i < s.len() implies #[trigger] s[i] != c by {
            if i < s.len() - 1 {
                assert(s[i] == s.drop_last()[i]);
            }
        }
    }
}

proof fn lemma_after_last_is(s: Seq<char>, c: char, k: nat)
    requires
        k <= s.len(),
        k > 0 ==> s[k - 1] == c,
        forall|i: int| k <= i < s.len() ==> #[trigger] s[i] != c,
    ensures
        after_last(s, c) == k,
    decreases s.len(),
{
    if s.len() > k {
        assert(s[s.len() - 1] != c);
        assert forall|i: int| k <= i < s.drop_last().len() implies #[trigger] s.drop_last()[i]
            != c by {
            assert(s.drop_last()[i] == s[i]);
        }
        lemma_after_last_is(s.drop_last(), c, k);
    }
}

proof fn lemma_find_char(s: Seq<char>, c: char, i: int)
    requires
        0 <= i < s.len(),
        s[i] == c,
        forall|j: int| 0 <= j < i ==> #[trigger] s[j] != c,
    ensures
        find(s, seq![c]) == Some(i),
{
    lemma_find_from(s, seq![c], 0);
    assert(s.subrange(i, i + 1) =~= seq![c]);
    assert(occurs_at(s, seq![c], i));
    match find(s, seq![c]) {
        Some(j) => {
            assert(s.subrange(j, j + 1)[0] == s[j]);
            if j < i {
                assert(s[j] != c);
            }
        },
        None => {},
    }
}

/// The lines of a text that ends in a line feed, followed by another text, are
/// the lines of the one and the lines of the other.
pub proof fn lemma_lines_concat(a: Seq<char>, b: Seq<char>)
    requires
        a.len() > 0 ==> a.last() == '\n',
    ensures
        lines(a + b) == lines(a) + lines(b),
    decreases a.len(),
{
    if a.len() == 0 {
        assert(a + b =~= b);
        assert(lines(a) + lines(b) =~= lines(b));
    } else {
        lemma_find_from(a, seq!['\n'], 0);
        assert(a.subrange(a.len() - 1, a.len() as int) =~= seq!['\n']);
        assert(occurs_at(a, seq!['\n'], a.len() - 1));
        let i = find(a, seq!['\n'])->0;
        assert(a.subrange(i, i + 1)[0] == a[i]);
        assert forall|j: int| 0 <= j < i implies #[trigger] (a + b)[j] != '\n' by {
            if a[j] == '\n' {
                assert(a.subrange(j, j + 1) =~= seq!['\n']);
                assert(occurs_at(a, seq!['\n'], j));
            }
        }
        assert((a + b)[i] == a[i]);
        lemma_find_char(a + b, '\n', i);
        assert((a + b).take(i) =~= a.take(i));
        assert((a + b).skip(i + 1) =~= a.skip(i + 1) + b);
        lemma_lines_concat(a.skip(i + 1), b);
        assert(seq![a.take(i)] + (lines(a.skip(i + 1)) + lines(b)) =~= seq![a.take(i)] + lines(
            a.skip(i + 1),
        ) + lines(b));
    }
}

/// How a text is cut into pieces does not matter for its lines.
pub proof fn law_ready_lines(a: Seq<char>, b: Seq<char>)
    ensures
        ready_lines(a + b) == ready_lines(a) + ready_lines(unfinished(a) + b),
        unfinished(a + b) == unfinished(unfinished(a) + b),
{
    let k1 = after_last(a, '\n');
    let u = unfinished(a) + b;
    let k2 = after_last(u, '\n');
    lemma_after_last(a, '\n');
    lemma_after_last(u, '\n');
    let t = a + b;
    assert(t =~= a.take(k1 as int) + u);
    let k: nat = k1 + k2;
    if k2 > 0 {
        assert(t[k - 1] == u[k2 - 1]);
    } else if k1 > 0 {
        assert(t[k - 1] == a[k1 - 1]);
    }
    assert forall|i: int| k <= i < t.len() implies #[trigger] t[i] != '\n' by {
        assert(t[i] == u[i - k1]);
    }
    lemma_after_last_is(t, '\n', k);
    assert(t.take(k as int) =~= a.take(k1 as int) + u.take(k2 as int));
    lemma_lines_concat(a.take(k1 as int), u.take(k2 as int));
    assert(unfinished(t) =~= unfinished(u));
}

/// The lines of `s` that are complete, and what follows them.
pub fn split_ready(s: &str) -> (r: (Vec<String>, String))
    ensures
        views(r.0@) == ready_lines(s@),
        r.1@ == unfinished(s@),
{
    let k = count_through_last(s, '\n');
    (split_lines(head(s, k).as_str()), tail(s, k))
}

/// The lines of `s`.
pub fn split_lines(s: &str) -> (r: Vec<String>)
    ensures
        views(r@) == lines(s@),
{
    let mut r: Vec<String> = Vec::new();
    let mut rest = s.to_owned();
    proof {
        reveal_strlit("\n");
        assert("\n"@ =~= seq!['\n']);
    }
    assert(views(r@) + lines(rest@) =~= lines(s@));
    while !rest.as_str().is_empty()
        invariant
            "\n"@ == seq!['\n'],
            views(r@) + lines(rest@) == lines(s@),
        decreases rest@.len(),
    {
        let ghost before = views(r@);
        match find_text(rest.as_str(), "\n") {
            Some(i) => {
                let n: usize = rest.as_str().unicode_len();
                let line = cut(rest.as_str(), 0, i);
                let tail = cut(rest.as_str(), i + 1, n);
                proof {
                    lemma_find_from(rest@, seq!['\n'], 0);
                    assert(line@ =~= rest@.take(i as int));
                    assert(tail@ =~= rest@.skip(i + 1));
                    assert(before + (seq![line@] + lines(tail@)) =~= before.push(line@) + lines(
                        tail@,
                    ));
                }
                r.push(line);
                assert(views(r@) =~= before.push(line@));
                rest = tail;
            },
            None => {
                assert(before + seq![rest@] =~= before.push(rest@) + lines(Seq::empty()));
                let tail = String::new();
                r.push(rest);
                assert(views(r@) =~= before.push(rest@));
                rest = tail;
                assert(rest@ =~= Seq::<char>::empty());
            },
        }
    }
    assert(views(r@) + lines(rest@) =~= views(r@));
    r
}

/// What trimming takes off is white space alone.
pub proof fn law_trim_rest(s: Seq<char>)
    ensures
        exists|a: int, b: int|
            {
                &&& 0 <= a <= b <= s.len()
                &&& trim(s) == #[trigger] s.subrange(a, b)
                &&& forall|i: int| 0 <= i < a ==> is_white(#[trigger] s[i])
                &&& forall|i: int| b <= i < s.len() ==> is_white(#[trigger] s[i])
            },
{
    let a = lemma_start_cut(s);
    let t = trim_start(s);
    let b = lemma_end_cut(t);
    assert(t.subrange(0, b) =~= s.subrange(a, a + b));
    assert forall|i: int| a + b <= i < s.len() implies is_white(#[trigger] s[i]) by {
        assert(t[i - a] == s[i]);
    }
}

proof fn lemma_start_cut(s: Seq<char>) -> (a: int)
    ensures
        0 <= a <= s.len(),
        trim_start(s) == s.subrange(a, s.len() as int),
        forall|i: int| 0 <= i < a ==> is_white(#[trigger] s[i]),
    decreases s.len(),
{
    if s.len() > 0 && is_white(s[0]) {
        let rest = s.drop_first();
        let a = lemma_start_cut(rest);
        assert(rest.subrange(a, rest.len() as int) =~= s.subrange(a + 1, s.len() as int));
        assert forall|i: int| 0 <= i < a + 1 implies is_white(#[trigger] s[i]) by {
            if i > 0 {
                assert(rest[i - 1] == s[i]);
            }
        }
        a + 1
    } else {
        assert(s.subrange(0, s.len() as int) =~= s);
        0
    }
}

proof fn lemma_end_cut(s: Seq<char>) -> (b: int)
    ensures
        0 <= b <= s.len(),
        trim_end(s) == s.subrange(0, b),
        forall|i: int| b <= i < s.len() ==> is_white(#[trigger] s[i]),
    decreases s.len(),
{
    if s.len() > 0 && is_white(s.last()) {
        let rest = s.drop_last();
        let b = lemma_end_cut(rest);
        assert(rest.subrange(0, b) =~= s.subrange(0, b));
        assert forall|i: int| b <= i < s.len() implies is_white(#[trigger] s[i]) by {
            if i < rest.len() {
                assert(rest[i] == s[i]);
            }
        }
        b
    } else {
        assert(s.subrange(0, s.len() as int) =~= s);
        s.len() as int
    }
}

/// Parts that are joined all stand there, whole and in order, with the
/// separator between them.
pub proof fn law_joined(a: Seq<Seq<char>>, b: Seq<Seq<char>>, sep: Seq<char>, one: Seq<char>)
    ensures
        joined(Seq::empty(), sep) == Seq::<char>::empty(),
        joined(seq![one], sep) == one,
        a.len() > 0 && b.len() > 0 ==> joined(a + b, sep) == joined(a, sep) + sep + joined(b, sep),
    decreases b.len(),
{
    if a.len() > 0 && b.len() > 0 {
        assert((a + b).drop_last() =~= a + b.drop_last());
        if b.len() == 1 {
            assert(a + b.drop_last() =~= a);
        } else {
            law_joined(a, b.drop_last(), sep, one);
            assert(joined(a, sep) + sep + joined(b.drop_last(), sep) + sep + b.last() =~= joined(
                a,
                sep,
            ) + sep + joined(b, sep));
        }
    }
}

/// A text is cut into the lines that its line feeds end, and what follows the
/// last of them.
pub proof fn law_lines(a: Seq<char>, rest: Seq<char>)
    requires
        !a.contains('\n'),
        !rest.contains('\n'),
    ensures
        ready_lines(a.push('\n')) == seq![a],
        unfinished(a.push('\n') + rest) == rest,
        ready_lines(rest) == Seq::<Seq<char>>::empty(),
        unfinished(rest) == rest,
{
    let t = a.push('\n');
    lemma_after_last_is(t, '\n', t.len());
    assert(t.take(t.len() as int) =~= t);
    assert forall|j: int| 0 <= j < a.len() implies #[trigger] t[j] != '\n' by {
        assert(a.contains(a[j]));
    }
    lemma_find_char(t, '\n', a.len() as int);
    assert(t.take(a.len() as int) =~= a);
    assert(t.skip((a.len() + 1) as int) =~= Seq::<char>::empty());
    assert(lines(Seq::<char>::empty()) =~= Seq::<Seq<char>>::empty());
    assert(seq![a] + Seq::<Seq<char>>::empty() =~= seq![a]);
    assert forall|i: int| 0 <= i < rest.len() implies #[trigger] rest[i] != '\n' by {
        assert(rest.contains(rest[i]));
    }
    lemma_after_last_is(rest, '\n', 0);
    assert(rest.take(0) =~= Seq::<char>::empty());
    assert(rest.skip(0) =~= rest);
    let u = t + rest;
    assert forall|i: int| t.len() <= i < u.len() implies #[trigger] u[i] != '\n' by {
        assert(u[i] == rest[i - t.len()]);
    }
    lemma_after_last_is(u, '\n', t.len());
    assert(u.skip(t.len() as int) =~= rest);
}

} // verus!
