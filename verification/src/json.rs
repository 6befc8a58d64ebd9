//! JSON values, held as their compact text, and the pieces of JSON text that
//! the proxy writes itself.
use vstd::prelude::*;
use vstd::string::*;

use crate::text;

verus! {

// ---------------------------------------------------------------------------
// Reading
// ---------------------------------------------------------------------------

/// One level of a JSON value: what kind it is, and for an array or an object
/// the compact texts of what it holds.
pub enum JsonShape {
    Null,
    Bool(bool),
    Number(String),
    Text(String),
    Array(Vec<String>),
    Object(Vec<(String, String)>),
}

/// A JSON document: its compact text and its outermost level.
pub struct JsonDoc {
    pub text: String,
    pub shape: JsonShape,
}

/// The mathematical counterpart of `JsonShape`.
pub ghost enum ShapeView {
    Null,
    Bool(bool),
    Number(Seq<char>),
    Text(Seq<char>),
    Array(Seq<Seq<char>>),
    Object(Seq<(Seq<char>, Seq<char>)>),
}

/// The mathematical counterpart of `JsonDoc`.
pub ghost struct DocView {
    pub text: Seq<char>,
    pub shape: ShapeView,
}

/// The views of a sequence of keys with values.
pub open spec fn pair_views(v: Seq<(String, String)>) -> Seq<(Seq<char>, Seq<char>)> {
    v.map_values(|e: (String, String)| (e.0@, e.1@))
}

impl View for JsonShape {
    type V = ShapeView;

    open spec fn view(&self) -> ShapeView {
        match *self {
            JsonShape::Null => ShapeView::Null,
            JsonShape::Bool(b) => ShapeView::Bool(b),
            JsonShape::Number(n) => ShapeView::Number(n@),
            JsonShape::Text(s) => ShapeView::Text(s@),
            JsonShape::Array(items) => ShapeView::Array(text::views(items@)),
            JsonShape::Object(entries) => ShapeView::Object(pair_views(entries@)),
        }
    }
}

impl View for JsonDoc {
    type V = DocView;

    open spec fn view(&self) -> DocView {
        DocView { text: self.text@, shape: self.shape@ }
    }
}

/// What `serde_json::from_str` reads from a text as a `serde_json::Value`:
/// the value's compact text and its outermost level; `None` where the text is
/// not one JSON value.
pub uninterp spec fn json_doc(text: Seq<char>) -> Option<DocView>;

/// `serde_json::from_str` into a `serde_json::Value`, taken apart one level
/// deep. The members of an object come in the order of `serde_json::Map`: in
/// the order of their keys, no key twice.
#[verifier::external_body]
pub(crate) fn read_json(text: &str) -> (r: Option<JsonDoc>)
    ensures
        match r {
            Some(d) => json_doc(text@) == Some(d@) && (d@.shape matches ShapeView::Object(m)
                ==> in_key_order(m)),
            None => json_doc(text@) is None,
        },
{
    let value: serde_json::Value = serde_json::from_str(text).ok()?;
    let text = value.to_string();
    let shape = match value {
        serde_json::Value::Null => JsonShape::Null,
        serde_json::Value::Bool(b) => JsonShape::Bool(b),
        serde_json::Value::Number(n) => JsonShape::Number(n.to_string()),
        serde_json::Value::String(s) => JsonShape::Text(s),
        serde_json::Value::Array(a) => JsonShape::Array(a.iter().map(|v| v.to_string()).collect()),
        serde_json::Value::Object(m) =>
            JsonShape::Object(m.into_iter().map(|(k, v)| (k, v.to_string())).collect()),
    };
    Some(JsonDoc { text, shape })
}

/// The value beside the first `key` among `entries`.
pub open spec fn lookup(entries: Seq<(Seq<char>, Seq<char>)>, key: Seq<char>) -> Option<Seq<char>>
    decreases entries.len(),
{
    if entries.len() == 0 {
        None
    } else if entries[0].0 == key {
        Some(entries[0].1)
    } else {
        lookup(entries.drop_first(), key)
    }
}

/// The members of the object that `text` is.
pub open spec fn json_members(text: Seq<char>) -> Option<Seq<(Seq<char>, Seq<char>)>> {
    match json_doc(text) {
        Some(d) => match d.shape {
            ShapeView::Object(entries) => Some(entries),
            _ => None,
        },
        None => None,
    }
}

/// The items of the array that `text` is.
pub open spec fn json_items(text: Seq<char>) -> Option<Seq<Seq<char>>> {
    match json_doc(text) {
        Some(d) => match d.shape {
            ShapeView::Array(items) => Some(items),
            _ => None,
        },
        None => None,
    }
}

/// The string that `text` is.
pub open spec fn json_string(text: Seq<char>) -> Option<Seq<char>> {
    match json_doc(text) {
        Some(d) => match d.shape {
            ShapeView::Text(s) => Some(s),
            _ => None,
        },
        None => None,
    }
}

/// The member `key` of the object that `text` is.
pub open spec fn json_member(text: Seq<char>, key: Seq<char>) -> Option<Seq<char>> {
    match json_members(text) {
        Some(entries) => lookup(entries, key),
        None => None,
    }
}

/// The member `key` of the object that `text` is, where it is a string.
pub open spec fn json_member_string(text: Seq<char>, key: Seq<char>) -> Option<Seq<char>> {
    match json_member(text, key) {
        Some(v) => json_string(v),
        None => None,
    }
}

/// The member `key` of an optional value.
pub open spec fn member_of(v: Option<Seq<char>>, key: Seq<char>) -> Option<Seq<char>> {
    match v {
        Some(t) => json_member(t, key),
        None => None,
    }
}

/// The item at position 0 of an optional value.
pub open spec fn first_of(v: Option<Seq<char>>) -> Option<Seq<char>> {
    match v {
        Some(t) => match json_items(t) {
            Some(items) => if items.len() > 0 {
                Some(items[0])
            } else {
                None
            },
            None => None,
        },
        None => None,
    }
}

/// The string that an optional value is.
pub open spec fn string_of(v: Option<Seq<char>>) -> Option<Seq<char>> {
    match v {
        Some(t) => json_string(t),
        None => None,
    }
}

/// The text of an optional value.
pub open spec fn opt_view(v: Option<Json>) -> Option<Seq<char>> {
    match v {
        Some(j) => Some(j@),
        None => None,
    }
}

/// A JSON value, held as its compact text.
pub struct Json {
    pub text: String,
}

impl View for Json {
    type V = Seq<char>;

    open spec fn view(&self) -> Seq<char> {
        self.text@
    }
}

impl Clone for Json {
    fn clone(&self) -> (r: Json)
        ensures
            r@ == self@,
    {
        Json { text: self.text.clone() }
    }
}

/// The position of the first member `key`.
pub fn find_member(entries: &Vec<(String, String)>, key: &str) -> (r: Option<usize>)
    ensures
        match r {
            Some(i) => i < entries@.len() && lookup(pair_views(entries@), key@) == Some(
                entries@[i as int].1@,
            ),
            None => lookup(pair_views(entries@), key@) is None,
        },
{
    let ghost all = pair_views(entries@);
    let mut i: usize = 0;
    assert(all.skip(0) =~= all);
    while i < entries.len()
        invariant
            all == pair_views(entries@),
            i <= entries@.len(),
            lookup(all, key@) == lookup(all.skip(i as int), key@),
        decreases entries.len() - i,
    {
        assert(all.skip(i as int)[0] == (entries@[i as int].0@, entries@[i as int].1@));
        if text::same(entries[i].0.as_str(), key) {
            return Some(i);
        }
        assert(all.skip(i as int).drop_first() =~= all.skip(i + 1));
        i = i + 1;
    }
    None
}

impl Json {
    /// Reads `text` as one JSON value.
    pub fn parse(text: &str) -> (r: Option<Json>)
        ensures
            match r {
                Some(j) => json_doc(text@) is Some && j@ == json_doc(text@)->0.text,
                None => json_doc(text@) is None,
            },
    {
        match read_json(text) {
            Some(d) => Some(Json { text: d.text }),
            None => None,
        }
    }

    /// The members of an object, in order.
    pub fn members(&self) -> (r: Option<Vec<(String, String)>>)
        ensures
            match r {
                Some(v) => json_members(self@) == Some(pair_views(v@)) && in_key_order(
                    pair_views(v@),
                ),
                None => json_members(self@) is None,
            },
    {
        match read_json(self.text.as_str()) {
            Some(d) => match d.shape {
                JsonShape::Object(entries) => Some(entries),
                _ => None,
            },
            None => None,
        }
    }

    /// The items of an array.
    pub fn items(&self) -> (r: Option<Vec<String>>)
        ensures
            match r {
                Some(v) => json_items(self@) == Some(text::views(v@)),
                None => json_items(self@) is None,
            },
    {
        match read_json(self.text.as_str()) {
            Some(d) => match d.shape {
                JsonShape::Array(items) => Some(items),
                _ => None,
            },
            None => None,
        }
    }

    /// The member `key` of an object.
    pub fn get(&self, key: &str) -> (r: Option<Json>)
        ensures
            match r {
                Some(j) => json_member(self@, key@) == Some(j@),
                None => json_member(self@, key@) is None,
            },
    {
        match self.members() {
            Some(entries) => match find_member(&entries, key) {
                Some(i) => Some(Json { text: entries[i].1.clone() }),
                None => None,
            },
            None => None,
        }
    }

    /// The item at position 0 of an array.
    pub fn first_item(&self) -> (r: Option<Json>)
        ensures
            match r {
                Some(j) => json_items(self@) is Some && json_items(self@)->0.len() > 0 && j@
                    == json_items(self@)->0[0],
                None => json_items(self@) is None || json_items(self@)->0.len() == 0,
            },
    {
        match self.items() {
            Some(items) => {
                assert(text::views(items@).len() == items@.len());
                if items.len() > 0 {
                    Some(Json { text: items[0].clone() })
                } else {
                    None
                }
            },
            None => None,
        }
    }

    /// The content of a string.
    pub fn as_str(&self) -> (r: Option<String>)
        ensures
            match r {
                Some(s) => json_string(self@) == Some(s@),
                None => json_string(self@) is None,
            },
    {
        match read_json(self.text.as_str()) {
            Some(d) => match d.shape {
                JsonShape::Text(s) => Some(s),
                _ => None,
            },
            None => None,
        }
    }

    /// The member `key` of an object, where it is a string.
    pub fn get_str(&self, key: &str) -> (r: Option<String>)
        ensures
            match r {
                Some(s) => json_member_string(self@, key@) == Some(s@),
                None => json_member_string(self@, key@) is None,
            },
    {
        match self.get(key) {
            Some(j) => j.as_str(),
            None => None,
        }
    }

    /// Whether an object has the member `key`; false of every other value.
    pub fn has(&self, key: &str) -> (r: bool)
        ensures
            r == (json_member(self@, key@) is Some),
    {
        self.get(key).is_some()
    }
}

/// The member `key` of an optional value.
pub fn get_of(v: &Option<Json>, key: &str) -> (r: Option<Json>)
    ensures
        opt_view(r) == member_of(opt_view(*v), key@),
{
    match v {
        Some(j) => j.get(key),
        None => None,
    }
}

/// The item at position 0 of an optional value.
pub fn first_item_of(v: Option<Json>) -> (r: Option<Json>)
    ensures
        opt_view(r) == first_of(opt_view(v)),
{
    match v {
        Some(j) => j.first_item(),
        None => None,
    }
}

/// The string that an optional value is.
pub fn str_of(v: &Option<Json>) -> (r: Option<String>)
    ensures
        match r {
            Some(s) => string_of(opt_view(*v)) == Some(s@),
            None => string_of(opt_view(*v)) is None,
        },
{
    match v {
        Some(j) => j.as_str(),
        None => None,
    }
}

// ---------------------------------------------------------------------------
// Writing
// ---------------------------------------------------------------------------

pub open spec fn hex_digit(d: nat) -> char {
    if d < 10 {
        (48 + d) as u8 as char
    } else {
        (87 + d) as u8 as char
    }
}

/// How a character is written inside a JSON string.
pub open spec fn escaped_char(c: char) -> Seq<char> {
    let v = c as u32;
    if c == '"' {
        seq!['\\', '"']
    } else if c == '\\' {
        seq!['\\', '\\']
    } else if v == 8 {
        seq!['\\', 'b']
    } else if v == 9 {
        seq!['\\', 't']
    } else if v == 10 {
        seq!['\\', 'n']
    } else if v == 12 {
        seq!['\\', 'f']
    } else if v == 13 {
        seq!['\\', 'r']
    } else if v < 32 {
        seq!['\\', 'u', '0', '0', hex_digit((v / 16) as nat), hex_digit((v % 16) as nat)]
    } else {
        seq![c]
    }
}

pub open spec fn escaped(s: Seq<char>) -> Seq<char>
    decreases s.len(),
{
    if s.len() == 0 {
        Seq::empty()
    } else {
        escaped_char(s[0]) + escaped(s.drop_first())
    }
}

/// The JSON string whose content is `s`.
pub open spec fn quoted(s: Seq<char>) -> Seq<char> {
    seq!['"'] + escaped(s) + seq!['"']
}

/// `serde_json::to_string` of a string: the quotation mark, each character
/// escaped where JSON asks for it, the quotation mark.
#[verifier::external_body]
pub(crate) fn quote_json(s: &str) -> (r: String)
    ensures
        r@ == quoted(s@),
{
    serde_json::to_string(s).unwrap_or_default()
}

/// The member `key` with the value `value`, as it stands in an object.
pub open spec fn member_text(e: (Seq<char>, Seq<char>)) -> Seq<char> {
    quoted(e.0) + seq![':'] + e.1
}

/// The object with the members `entries`, in that order.
pub open spec fn object_text(entries: Seq<(Seq<char>, Seq<char>)>) -> Seq<char> {
    seq!['{'] + text::joined(
        entries.map_values(|e: (Seq<char>, Seq<char>)| member_text(e)),
        seq![','],
    ) + seq!['}']
}

/// The object with the members `entries`, in that order.
pub fn object_of(entries: &Vec<(String, String)>) -> (r: Json)
    ensures
        r@ == object_text(pair_views(entries@)),
{
    let ghost all = pair_views(entries@);
    let ghost texts = all.map_values(|e: (Seq<char>, Seq<char>)| member_text(e));
    let mut parts: Vec<String> = Vec::new();
    let mut i: usize = 0;
    while i < entries.len()
        invariant
            all == pair_views(entries@),
            texts == all.map_values(|e: (Seq<char>, Seq<char>)| member_text(e)),
            i <= entries@.len(),
            text::views(parts@) == texts.take(i as int),
        decreases entries.len() - i,
    {
        let mut part = quote_json(entries[i].0.as_str());
        part.push(':');
        part.append(entries[i].1.as_str());
        proof {
            assert(part@ =~= member_text(all[i as int]));
        }
        let ghost before = parts@;
        parts.push(part);
        assert(text::views(parts@) =~= text::views(before).push(part@));
        assert(text::views(parts@) =~= texts.take(i + 1));
        i = i + 1;
    }
    assert(texts.take(texts.len() as int) =~= texts);
    proof {
        reveal_strlit(",");
        reveal_strlit("{");
        assert(","@ =~= seq![',']);
        assert("{"@ =~= seq!['{']);
    }
    let mut text = text::cat("{", text::join(&parts, ",").as_str());
    text.push('}');
    assert(text@ =~= object_text(all));
    Json { text }
}

/// Appends a member.
pub fn put(entries: &mut Vec<(String, String)>, key: &str, value: String)
    ensures
        pair_views(final(entries)@) == pair_views(old(entries)@).push((key@, value@)),
{
    entries.push((key.to_owned(), value));
    assert(pair_views(entries@) =~= pair_views(old(entries)@).push((key@, value@)));
}

/// The object with two members.
pub open spec fn object2(
    k1: Seq<char>,
    v1: Seq<char>,
    k2: Seq<char>,
    v2: Seq<char>,
) -> Seq<char> {
    object_text(seq![(k1, v1), (k2, v2)])
}

/// The object with three members.
pub open spec fn object3(
    k1: Seq<char>,
    v1: Seq<char>,
    k2: Seq<char>,
    v2: Seq<char>,
    k3: Seq<char>,
    v3: Seq<char>,
) -> Seq<char> {
    object_text(seq![(k1, v1), (k2, v2), (k3, v3)])
}

/// The object with one member.
pub fn write1(k1: &str, v1: String) -> (r: String)
    ensures
        r@ == object_text(seq![(k1@, v1@)]),
{
    let mut entries: Vec<(String, String)> = Vec::new();
    put(&mut entries, k1, v1);
    assert(pair_views(entries@) =~= seq![(k1@, v1@)]);
    object_of(&entries).text
}

/// The object with two members.
pub fn write2(k1: &str, v1: String, k2: &str, v2: String) -> (r: String)
    ensures
        r@ == object2(k1@, v1@, k2@, v2@),
{
    let mut entries: Vec<(String, String)> = Vec::new();
    put(&mut entries, k1, v1);
    put(&mut entries, k2, v2);
    assert(pair_views(entries@) =~= seq![(k1@, v1@), (k2@, v2@)]);
    object_of(&entries).text
}

/// The object with three members.
pub fn write3(k1: &str, v1: String, k2: &str, v2: String, k3: &str, v3: String) -> (r: String)
    ensures
        r@ == object3(k1@, v1@, k2@, v2@, k3@, v3@),
{
    let mut entries: Vec<(String, String)> = Vec::new();
    put(&mut entries, k1, v1);
    put(&mut entries, k2, v2);
    put(&mut entries, k3, v3);
    assert(pair_views(entries@) =~= seq![(k1@, v1@), (k2@, v2@), (k3@, v3@)]);
    object_of(&entries).text
}

/// The items one after the other in an array.
pub open spec fn array_text(items: Seq<Seq<char>>) -> Seq<char> {
    seq!['['] + text::joined(items, seq![',']) + seq![']']
}

/// The array whose items are written as the texts `items`.
pub fn array_of(items: &Vec<String>) -> (r: Json)
    ensures
        r@ == array_text(text::views(items@)),
{
    proof {
        reveal_strlit(",");
        reveal_strlit("[");
        assert(","@ =~= seq![',']);
        assert("["@ =~= seq!['[']);
    }
    let mut text = text::cat("[", text::join(items, ",").as_str());
    text.push(']');
    assert(text@ =~= array_text(text::views(items@)));
    Json { text }
}

/// The object without members.
pub open spec fn empty_object() -> Seq<char> {
    seq!['{', '}']
}

/// The object without members, written out.
pub proof fn lemma_empty_object()
    ensures
        empty_object() == seq!['{', '}'],
{
}

/// What is looked up under a key is what stands beside its first occurrence;
/// there is nothing where the key does not occur.
pub proof fn law_lookup(entries: Seq<(Seq<char>, Seq<char>)>, key: Seq<char>)
    ensures
        forall|i: int|
            0 <= i < entries.len() && (#[trigger] entries[i]).0 == key && (forall|j: int|
                0 <= j < i ==> (#[trigger] entries[j]).0 != key) ==> lookup(entries, key) == Some(
                entries[i].1,
            ),
        (forall|i: int| 0 <= i < entries.len() ==> (#[trigger] entries[i]).0 != key)
            <==> lookup(entries, key) is None,
    decreases entries.len(),
{
    if entries.len() > 0 {
        let rest = entries.drop_first();
        law_lookup(rest, key);
        assert(forall|i: int| 0 <= i < rest.len() ==> rest[i] == entries[i + 1]);
        assert forall|i: int|
            0 <= i < entries.len() && (#[trigger] entries[i]).0 == key && (forall|j: int|
                0 <= j < i ==> (#[trigger] entries[j]).0 != key) implies lookup(entries, key)
            == Some(entries[i].1) by {
            if i > 0 {
                assert(entries[0].0 != key);
                assert(rest[i - 1] == entries[i]);
                assert forall|j: int| 0 <= j < i - 1 implies (#[trigger] rest[j]).0 != key by {
                    assert(rest[j] == entries[j + 1]);
                }
            }
        }
        if forall|i: int| 0 <= i < entries.len() ==> (#[trigger] entries[i]).0 != key {
            assert(entries[0].0 != key);
            assert forall|i: int| 0 <= i < rest.len() implies (#[trigger] rest[i]).0 != key by {
                assert(rest[i] == entries[i + 1]);
            }
        } else {
            let i = choose|i: int| 0 <= i < entries.len() && (#[trigger] entries[i]).0 == key;
            if i > 0 {
                assert(rest[i - 1].0 == key);
            }
        }
    }
}

/// The object without members.
pub fn object_without_members() -> (r: Json)
    ensures
        r@ == empty_object(),
{
    proof {
        reveal_strlit("{}");
        assert("{}"@ =~= empty_object());
    }
    Json { text: "{}".to_owned() }
}

/// The object with the one member `key`, a string.
pub open spec fn one_member(key: Seq<char>, value: Seq<char>) -> Seq<char> {
    object_text(seq![(key, quoted(value))])
}

/// The object with the one member `key`, a string.
pub fn object_with(key: &str, value: &str) -> (r: Json)
    ensures
        r@ == one_member(key@, value@),
{
    let mut entries: Vec<(String, String)> = Vec::new();
    entries.push((key.to_owned(), quote_json(value)));
    assert(pair_views(entries@) =~= seq![(key@, quoted(value@))]);
    object_of(&entries)
}

// ---------------------------------------------------------------------------
// Members in the order of their keys
// ---------------------------------------------------------------------------

/// Whether `a` comes before `b` in the order of their characters.
pub open spec fn before(a: Seq<char>, b: Seq<char>) -> bool
    decreases a.len(),
{
    if b.len() == 0 {
        false
    } else if a.len() == 0 {
        true
    } else if a[0] == b[0] {
        before(a.drop_first(), b.drop_first())
    } else {
        a[0] < b[0]
    }
}

/// The members come in the order of their keys, no key twice.
pub open spec fn in_key_order(entries: Seq<(Seq<char>, Seq<char>)>) -> bool {
    forall|i: int, j: int|
        0 <= i < j < entries.len() ==> before((#[trigger] entries[i]).0, (#[trigger] entries[j]).0)
}

proof fn lemma_before_trans(a: Seq<char>, b: Seq<char>, c: Seq<char>)
    requires
        before(a, b),
        before(b, c),
    ensures
        before(a, c),
    decreases a.len(),
{
    if a.len() > 0 && a[0] == b[0] && b[0] == c[0] {
        lemma_before_trans(a.drop_first(), b.drop_first(), c.drop_first());
    }
}

proof fn lemma_before_total(a: Seq<char>, b: Seq<char>)
    ensures
        a == b || before(a, b) || before(b, a),
    decreases a.len(),
{
    if a.len() == 0 {
        if b.len() == 0 {
            assert(a =~= b);
        }
    } else if b.len() > 0 && a[0] == b[0] {
        lemma_before_total(a.drop_first(), b.drop_first());
        if a.drop_first() == b.drop_first() {
            assert(a =~= seq![a[0]] + a.drop_first());
            assert(b =~= seq![b[0]] + b.drop_first());
        }
    }
}

proof fn lemma_with_member_keys(
    entries: Seq<(Seq<char>, Seq<char>)>,
    key: Seq<char>,
    value: Seq<char>,
    low: Seq<char>,
)
    requires
        in_key_order(entries),
        before(low, key),
        forall|i: int| 0 <= i < entries.len() ==> before(low, (#[trigger] entries[i]).0),
    ensures
        forall|i: int|
            0 <= i < with_member(entries, key, value).len() ==> before(
                low,
                (#[trigger] with_member(entries, key, value)[i]).0,
            ),
    decreases entries.len(),
{
    let r = with_member(entries, key, value);
    if entries.len() > 0 && entries[0].0 != key && !before(key, entries[0].0) {
        let rest = entries.drop_first();
        assert forall|i: int| 0 <= i < rest.len() implies before(low, (#[trigger] rest[i]).0) by {
            assert(rest[i] == entries[i + 1]);
        }
        assert forall|i: int, j: int| 0 <= i < j < rest.len() implies before(
            (#[trigger] rest[i]).0,
            (#[trigger] rest[j]).0,
        ) by {
            assert(rest[i] == entries[i + 1] && rest[j] == entries[j + 1]);
        }
        lemma_with_member_keys(rest, key, value, low);
        assert forall|i: int| 0 <= i < r.len() implies before(low, (#[trigger] r[i]).0) by {
            if i > 0 {
                assert(r[i] == with_member(rest, key, value)[i - 1]);
            } else {
                assert(r[0] == entries[0]);
            }
        }
    } else {
        assert forall|i: int| 0 <= i < r.len() implies before(low, (#[trigger] r[i]).0) by {
            if i > 0 {
                assert(r[i] == entries[i] || r[i] == entries[i - 1]);
            }
        }
    }
}

/// Setting a member keeps the members in the order of their keys.
pub proof fn law_with_member_in_order(
    entries: Seq<(Seq<char>, Seq<char>)>,
    key: Seq<char>,
    value: Seq<char>,
)
    requires
        in_key_order(entries),
    ensures
        in_key_order(with_member(entries, key, value)),
    decreases entries.len(),
{
    let r = with_member(entries, key, value);
    if entries.len() > 0 && entries[0].0 != key && !before(key, entries[0].0) {
        let rest = entries.drop_first();
        let inner = with_member(rest, key, value);
        assert forall|i: int, j: int| 0 <= i < j < rest.len() implies before(
            (#[trigger] rest[i]).0,
            (#[trigger] rest[j]).0,
        ) by {
            assert(rest[i] == entries[i + 1] && rest[j] == entries[j + 1]);
        }
        law_with_member_in_order(rest, key, value);
        lemma_before_total(key, entries[0].0);
        assert forall|i: int| 0 <= i < rest.len() implies before(
            entries[0].0,
            (#[trigger] rest[i]).0,
        ) by {
            assert(rest[i] == entries[i + 1]);
        }
        lemma_with_member_keys(rest, key, value, entries[0].0);
        assert forall|i: int, j: int| 0 <= i < j < r.len() implies before(
            (#[trigger] r[i]).0,
            (#[trigger] r[j]).0,
        ) by {
            assert(r[j] == inner[j - 1]);
            if i > 0 {
                assert(r[i] == inner[i - 1]);
            } else {
                assert(r[0] == entries[0]);
            }
        }
    } else if entries.len() > 0 && entries[0].0 != key {
        assert forall|i: int, j: int| 0 <= i < j < r.len() implies before(
            (#[trigger] r[i]).0,
            (#[trigger] r[j]).0,
        ) by {
            assert(r[j] == entries[j - 1]);
            if i > 0 {
                assert(r[i] == entries[i - 1]);
            } else if j > 1 {
                lemma_before_trans(key, entries[0].0, entries[j - 1].0);
            }
        }
    } else {
        assert forall|i: int, j: int| 0 <= i < j < r.len() implies before(
            (#[trigger] r[i]).0,
            (#[trigger] r[j]).0,
        ) by {
            assert(r[j] == entries[j]);
            if i > 0 {
                assert(r[i] == entries[i]);
            }
        }
    }
}

/// `entries` with the value of `key` set to `value`: replaced where the key is
/// there, else put before the first key that comes after it.
pub open spec fn with_member(
    entries: Seq<(Seq<char>, Seq<char>)>,
    key: Seq<char>,
    value: Seq<char>,
) -> Seq<(Seq<char>, Seq<char>)>
    decreases entries.len(),
{
    if entries.len() == 0 {
        seq![(key, value)]
    } else if entries[0].0 == key {
        seq![(key, value)] + entries.drop_first()
    } else if before(key, entries[0].0) {
        seq![(key, value)] + entries
    } else {
        seq![entries[0]] + with_member(entries.drop_first(), key, value)
    }
}

/// What has been set is what is found, and nothing else changes.
pub proof fn law_with_member_found(
    m: Seq<(Seq<char>, Seq<char>)>,
    key: Seq<char>,
    value: Seq<char>,
    other: Seq<char>,
)
    ensures
        lookup(with_member(m, key, value), key) == Some(value),
        other != key ==> lookup(with_member(m, key, value), other) == lookup(
            m,
            other,
        ),
    decreases m.len(),
{
    let after = with_member(m, key, value);
    if m.len() == 0 {
        assert(after.drop_first() =~= m);
    } else if m[0].0 == key {
        assert(after.drop_first() =~= m.drop_first());
    } else if before(key, m[0].0) {
        assert(after.drop_first() =~= m);
    } else {
        law_with_member_found(m.drop_first(), key, value, other);
        assert(after.drop_first() =~= with_member(m.drop_first(), key, value));
    }
}

fn comes_before(a: &str, b: &str) -> (r: bool)
    ensures
        r == before(a@, b@),
{
    let ac = text::chars_of(a);
    let bc = text::chars_of(b);
    let mut i: usize = 0;
    assert(a@.skip(0) =~= a@);
    assert(b@.skip(0) =~= b@);
    while i < ac.len() && i < bc.len() && ac[i] == bc[i]
        invariant
            ac@ == a@,
            bc@ == b@,
            i <= ac@.len(),
            i <= bc@.len(),
            before(a@, b@) == before(a@.skip(i as int), b@.skip(i as int)),
        decreases ac.len() - i,
    {
        assert(a@.skip(i as int).drop_first() =~= a@.skip(i + 1));
        assert(b@.skip(i as int).drop_first() =~= b@.skip(i + 1));
        i = i + 1;
    }
    if i >= bc.len() {
        false
    } else if i >= ac.len() {
        true
    } else {
        ac[i] < bc[i]
    }
}

/// Sets the value of `key` among members in the order of their keys.
pub fn set_member(entries: &mut Vec<(String, String)>, key: String, value: String)
    ensures
        pair_views(final(entries)@) == with_member(pair_views(old(entries)@), key@, value@),
{
    let ghost all = pair_views(entries@);
    let ghost start = entries@;
    let mut i: usize = 0;
    assert(all.skip(0) =~= all);
    assert(all.take(0) + with_member(all.skip(0), key@, value@) =~= with_member(all, key@, value@));
    while i < entries.len()
        invariant
            entries@ == start,
            start == old(entries)@,
            all == pair_views(start),
            i <= entries@.len(),
            all.take(i as int) + with_member(all.skip(i as int), key@, value@) == with_member(
                all,
                key@,
                value@,
            ),
        decreases entries.len() - i,
    {
        let ghost rest = all.skip(i as int);
        assert(rest[0] == (entries@[i as int].0@, entries@[i as int].1@));
        if text::same(entries[i].0.as_str(), key.as_str()) {
            entries.set(i, (key, value));
            proof {
                assert(pair_views(entries@) =~= all.take(i as int) + (seq![(key@, value@)]
                    + rest.drop_first()));
            }
            return ;
        }
        if comes_before(key.as_str(), entries[i].0.as_str()) {
            entries.insert(i, (key, value));
            proof {
                assert(pair_views(entries@) =~= all.take(i as int) + (seq![(key@, value@)] + rest));
            }
            return ;
        }
        proof {
            assert(rest.drop_first() =~= all.skip(i + 1));
            assert(all.take(i as int) + (seq![rest[0]] + with_member(
                all.skip(i + 1),
                key@,
                value@,
            )) =~= all.take(i + 1) + with_member(all.skip(i + 1), key@, value@));
        }
        i = i + 1;
    }
    entries.push((key, value));
    proof {
        assert(all.skip(i as int) =~= Seq::<(Seq<char>, Seq<char>)>::empty());
        assert(pair_views(entries@) =~= all.take(i as int) + seq![(key@, value@)]);
    }
}

/// An object is written as its members in order, each as its name, a colon and
/// its value, with commas between them, in braces; an array as its items, with
/// commas between them, in brackets.
pub proof fn law_written(
    entries: Seq<(Seq<char>, Seq<char>)>,
    e: (Seq<char>, Seq<char>),
    items: Seq<Seq<char>>,
    item: Seq<char>,
)
    ensures
        object_text(Seq::empty()) == seq!['{', '}'],
        object_text(seq![e]) == seq!['{'] + quoted(e.0) + seq![':'] + e.1 + seq!['}'],
        entries.len() > 0 ==> object_text(entries.push(e)) == object_text(entries).drop_last()
            + seq![','] + quoted(e.0) + seq![':'] + e.1 + seq!['}'],
        array_text(Seq::empty()) == seq!['[', ']'],
        array_text(seq![item]) == seq!['['] + item + seq![']'],
        items.len() > 0 ==> array_text(items.push(item)) == array_text(items).drop_last()
            + seq![','] + item + seq![']'],
{
    let f = |m: (Seq<char>, Seq<char>)| member_text(m);
    let none = Seq::<(Seq<char>, Seq<char>)>::empty();
    assert(none.map_values(f) =~= Seq::<Seq<char>>::empty());
    assert(object_text(none) =~= seq!['{', '}']);
    assert(seq![e].map_values(f) =~= seq![member_text(e)]);
    assert(object_text(seq![e]) =~= seq!['{'] + quoted(e.0) + seq![':'] + e.1 + seq!['}']);
    if entries.len() > 0 {
        let parts = entries.map_values(f);
        assert(entries.push(e).map_values(f) =~= parts.push(member_text(e)));
        assert(parts.push(member_text(e)).drop_last() =~= parts);
        assert(object_text(entries.push(e)) =~= object_text(entries).drop_last() + seq![',']
            + quoted(e.0) + seq![':'] + e.1 + seq!['}']);
    }
    assert(array_text(Seq::empty()) =~= seq!['[', ']']);
    assert(array_text(seq![item]) =~= seq!['['] + item + seq![']']);
    if items.len() > 0 {
        assert(items.push(item).drop_last() =~= items);
        assert(array_text(items.push(item)) =~= array_text(items).drop_last() + seq![','] + item
            + seq![']']);
    }
}

/// The object with one member, a string.
pub proof fn law_one_member(key: Seq<char>, value: Seq<char>)
    ensures
        one_member(key, value) == seq!['{'] + quoted(key) + seq![':'] + quoted(value) + seq!['}'],
{
    law_written(Seq::empty(), (key, quoted(value)), Seq::empty(), Seq::empty());
}

} // verus!
