//! JSON documents: the values that logic reads, parsed by `serde_json`.

use crate::json::{quote, quoted};
use crate::text::{join, joined, signed_decimal, str_eq, text_lt, texts};
use vstd::prelude::*;
use vstd::utf8::encode_utf8;

verus! {

/// A JSON value. A number is kept as its text.
#[derive(Debug)]
pub enum Json {
    Null,
    Bool(bool),
    Number(String),
    Text(String),
    Array(Vec<Json>),
    Object(Vec<(String, Json)>),
}

/// The model of a [`Json`].
#[verifier::ext_equal]
pub enum JsonView {
    Null,
    Bool(bool),
    Number(Seq<char>),
    Text(Seq<char>),
    Array(Seq<JsonView>),
    Object(Seq<(Seq<char>, JsonView)>),
}

/// The model of a value.
pub open spec fn json_view(j: Json) -> JsonView
    decreases j,
{
    match j {
        Json::Null => JsonView::Null,
        Json::Bool(b) => JsonView::Bool(b),
        Json::Number(n) => JsonView::Number(n@),
        Json::Text(s) => JsonView::Text(s@),
        Json::Array(v) => JsonView::Array(
            Seq::new(
                v@.len(),
                |i: int|
                    if 0 <= i < v@.len() {
                        json_view(v@[i])
                    } else {
                        JsonView::Null
                    },
            ),
        ),
        Json::Object(v) => JsonView::Object(
            Seq::new(
                v@.len(),
                |i: int|
                    if 0 <= i < v@.len() {
                        (v@[i].0@, json_view(v@[i].1))
                    } else {
                        (Seq::empty(), JsonView::Null)
                    },
            ),
        ),
    }
}

impl View for Json {
    type V = JsonView;

    open spec fn view(&self) -> JsonView {
        json_view(*self)
    }
}

/// The parsed value of `serde_json`.
#[verifier::external_type_specification]
#[verifier::external_body]
pub struct ExValue(serde_json::Value);

/// What a parsed value holds.
pub uninterp spec fn value_tree(v: serde_json::Value) -> JsonView;

/// The text of a value with a line for each member and item.
pub uninterp spec fn pretty_text(v: JsonView) -> Seq<char>;

/// What bytes spell as a JSON document, or why they spell none.
pub uninterp spec fn json_document(bytes: Seq<u8>) -> Result<JsonView, Seq<char>>;

/// Whether a number is a whole one that fits in 64 bits, written in decimal.
pub open spec fn whole_number(n: Seq<char>) -> bool {
    exists|k: int| i64::MIN <= k <= u64::MAX && n == #[trigger] signed_decimal(k)
}

/// Whether the names of members ascend.
pub open spec fn names_ascend(m: Seq<(Seq<char>, JsonView)>) -> bool {
    forall|i: int, j: int| 0 <= i < j < m.len() ==> text_lt((#[trigger] m[i]).0, (#[trigger] m[j]).0)
}

/// Whether a value is one that a document spells exactly: its numbers are
/// whole, the names of its members ascend, and it has at most `depth` levels.
pub open spec fn plain(j: JsonView, depth: nat) -> bool
    decreases j,
{
    match j {
        JsonView::Number(n) => whole_number(n),
        JsonView::Array(v) => depth > 0 && forall|i: int|
            0 <= i < v.len() ==> plain(#[trigger] v[i], (depth - 1) as nat),
        JsonView::Object(m) => depth > 0 && names_ascend(m) && forall|i: int|
            0 <= i < m.len() ==> plain((#[trigger] m[i]).1, (depth - 1) as nat),
        _ => true,
    }
}

/// Whether bytes that are the compact text of a plain value of at most 127
/// levels are read as that value.
pub open spec fn reads_plain(bytes: Seq<u8>, read: Option<JsonView>) -> bool {
    forall|t: JsonView|
        plain(t, 127) && bytes == encode_utf8(#[trigger] json_text(t)) ==> read == Some(t)
}

/// The contents of a value, where one was read.
pub open spec fn value_read(r: Result<serde_json::Value, String>) -> Option<JsonView> {
    match r {
        Ok(v) => Some(value_tree(v)),
        Err(_) => None,
    }
}

/// `serde_json::from_slice` into a `serde_json::Value`: the document that the
/// bytes spell, or the parser's words, are named `json_document`. The compact
/// text of a plain value of at most 127 levels spells that value. Numbers with
/// a fraction or an exponent are left out: they are read to the nearest
/// floating-point number.
#[verifier::external_body]
fn read_value(bytes: &[u8]) -> (r: Result<serde_json::Value, String>)
    ensures
        (match r {
            Ok(v) => json_document(bytes@) == Ok::<JsonView, Seq<char>>(value_tree(v)),
            Err(e) => json_document(bytes@) == Err::<JsonView, Seq<char>>(e@),
        }),
        reads_plain(bytes@, value_read(r)),
{
    serde_json::from_slice::<serde_json::Value>(bytes).map_err(|e| e.to_string())
}

/// The variants of `serde_json::Value`, one for one: a number as
/// `Number::to_string` writes it, an object's members in the order in which
/// the map hands them out.
#[verifier::external_body]
fn tree_of(v: &serde_json::Value) -> (r: Json)
    ensures
        r@ == value_tree(*v),
{
    match v {
        serde_json::Value::Null => Json::Null,
        serde_json::Value::Bool(b) => Json::Bool(*b),
        serde_json::Value::Number(n) => Json::Number(n.to_string()),
        serde_json::Value::String(s) => Json::Text(s.clone()),
        serde_json::Value::Array(a) => Json::Array(a.iter().map(tree_of).collect()),
        serde_json::Value::Object(m) => Json::Object(
            m.iter().map(|(k, x)| (k.clone(), tree_of(x))).collect(),
        ),
    }
}

/// `serde_json::to_string_pretty` of a `serde_json::Value`, which has no value
/// that it cannot write: named `pretty_text`.
#[verifier::external_body]
fn pretty_value(v: &serde_json::Value) -> (r: String)
    ensures
        r@ == pretty_text(value_tree(*v)),
{
    serde_json::to_string_pretty(v).unwrap()
}

/// Parses a JSON document. What was written from a plain value is read back.
pub fn parse_json(bytes: &[u8]) -> (r: Result<Json, String>)
    ensures
        (match r {
            Ok(j) => json_document(bytes@) == Ok::<JsonView, Seq<char>>(j@),
            Err(e) => json_document(bytes@) == Err::<JsonView, Seq<char>>(e@),
        }),
        reads_plain(
            bytes@,
            match r {
                Ok(j) => Some(j@),
                Err(_) => None,
            },
        ),
{
    match read_value(bytes) {
        Ok(v) => Ok(tree_of(&v)),
        Err(e) => Err(e),
    }
}

/// The member of an object by its name.
pub open spec fn member_from(members: Seq<(Seq<char>, JsonView)>, key: Seq<char>) -> Option<JsonView>
    decreases members.len(),
{
    if members.len() == 0 {
        None
    } else if members[0].0 == key {
        Some(members[0].1)
    } else {
        member_from(members.skip(1), key)
    }
}

impl JsonView {
    /// The member of an object by its name.
    pub open spec fn get(self, key: Seq<char>) -> Option<JsonView> {
        match self {
            JsonView::Object(m) => member_from(m, key),
            _ => None,
        }
    }

    /// The text that a value is.
    pub open spec fn text(self) -> Option<Seq<char>> {
        match self {
            JsonView::Text(s) => Some(s),
            _ => None,
        }
    }

    /// The text of a member.
    pub open spec fn text_at(self, key: Seq<char>) -> Option<Seq<char>> {
        match self.get(key) {
            Some(v) => v.text(),
            None => None,
        }
    }

    /// The items of an array that is a member.
    pub open spec fn items_at(self, key: Seq<char>) -> Option<Seq<JsonView>> {
        match self.get(key) {
            Some(JsonView::Array(v)) => Some(v),
            _ => None,
        }
    }
}

impl Json {
    /// The member of an object by its name.
    pub fn get(&self, key: &str) -> (r: Option<&Json>)
        ensures
            match r {
                Some(j) => self@.get(key@) == Some(j@),
                None => self@.get(key@) is None,
            },
    {
        match self {
            Json::Object(m) => {
                let ghost all = self@->Object_0;
                let mut i: usize = 0;
                assert(all.skip(0) =~= all);
                while i < m.len()
                    invariant
                        i <= m.len(),
                        all.len() == m@.len(),
                        all == self@->Object_0,
                        self@ is Object,
                        *self == Json::Object(*m),
                        member_from(all, key@) == member_from(all.skip(i as int), key@),
                    decreases m.len() - i,
                {
                    assert(all[i as int] == (m@[i as int].0@, m@[i as int].1@));
                    assert(all.skip(i as int)[0] == all[i as int]);
                    assert(all.skip(i as int).skip(1) =~= all.skip(i + 1));
                    if str_eq(m[i].0.as_str(), key) {
                        return Some(&m[i].1);
                    }
                    i += 1;
                }
                None
            },
            _ => None,
        }
    }

    /// The text that the value is.
    pub fn as_text(&self) -> (r: Option<&String>)
        ensures
            match r {
                Some(s) => self@.text() == Some(s@),
                None => self@.text() is None,
            },
    {
        match self {
            Json::Text(s) => Some(s),
            _ => None,
        }
    }

    /// The text of a member.
    pub fn text_at(&self, key: &str) -> (r: Option<&String>)
        ensures
            match r {
                Some(s) => self@.text_at(key@) == Some(s@),
                None => self@.text_at(key@) is None,
            },
    {
        match self.get(key) {
            Some(v) => v.as_text(),
            None => None,
        }
    }

    /// The items of an array that is a member.
    pub fn items_at(&self, key: &str) -> (r: Option<&Vec<Json>>)
        ensures
            match r {
                Some(v) => self@.items_at(key@) == Some(json_views(v@)),
                None => self@.items_at(key@) is None,
            },
    {
        match self.get(key) {
            Some(j) => match j {
                Json::Array(v) => {
                    assert(j@->Array_0 =~= json_views(v@));
                    Some(v)
                },
                _ => None,
            },
            None => None,
        }
    }
}

/// The models of a list of values.
pub open spec fn json_views(v: Seq<Json>) -> Seq<JsonView> {
    v.map_values(|j: Json| j@)
}

/// A value as compact JSON text.
pub open spec fn json_text(j: JsonView) -> Seq<char>
    decreases j,
{
    match j {
        JsonView::Null => "null"@,
        JsonView::Bool(b) => if b {
            "true"@
        } else {
            "false"@
        },
        JsonView::Number(n) => n,
        JsonView::Text(s) => quoted(s),
        JsonView::Array(v) => "["@ + joined(item_texts(v), ","@) + "]"@,
        JsonView::Object(v) => "{"@ + joined(member_texts(v), ","@) + "}"@,
    }
}

/// The texts of an array's items.
pub open spec fn item_texts(v: Seq<JsonView>) -> Seq<Seq<char>>
    decreases v,
{
    Seq::new(
        v.len(),
        |i: int|
            if 0 <= i < v.len() {
                json_text(v[i])
            } else {
                Seq::empty()
            },
    )
}

/// The texts of an object's members.
pub open spec fn member_texts(v: Seq<(Seq<char>, JsonView)>) -> Seq<Seq<char>>
    decreases v,
{
    Seq::new(
        v.len(),
        |i: int|
            if 0 <= i < v.len() {
                quoted(v[i].0) + ":"@ + json_text(v[i].1)
            } else {
                Seq::empty()
            },
    )
}

impl Json {
    /// Writes the value as JSON text with a line for each member and item; `{}`
    /// where it is no document.
    pub fn to_pretty(&self) -> (r: String)
        ensures
            r@ == match json_document(encode_utf8(json_text(self@))) {
                Ok(v) => pretty_text(v),
                Err(_) => "{}"@,
            },
            plain(self@, 127) ==> r@ == pretty_text(self@),
    {
        let text = self.to_text();
        match read_value(text.as_str().as_bytes()) {
            Ok(v) => pretty_value(&v),
            Err(_) => "{}".to_owned(),
        }
    }

    /// Writes the value as compact JSON text.
    pub fn to_text(&self) -> (r: String)
        ensures
            r@ == json_text(self@),
        decreases self,
    {
        match self {
            Json::Null => "null".to_owned(),
            Json::Bool(b) => {
                if *b {
                    "true".to_owned()
                } else {
                    "false".to_owned()
                }
            },
            Json::Number(n) => n.clone(),
            Json::Text(s) => quote(s.as_str()),
            Json::Array(v) => {
                let ghost all = self@->Array_0;
                let ghost pieces = item_texts(all);
                let mut items: Vec<String> = Vec::new();
                let mut i: usize = 0;
                assert(texts(items@) =~= pieces.take(0));
                while i < v.len()
                    invariant
                        i <= v.len(),
                        *self == Json::Array(*v),
                        all == self@->Array_0,
                        all.len() == v@.len(),
                        pieces.len() == all.len(),
                        forall|k: int| 0 <= k < all.len() ==> #[trigger] pieces[k] == json_text(all[k]),
                        texts(items@) == pieces.take(i as int),
                    decreases v.len() - i,
                {
                    let ghost before = items@;
                    assert(all[i as int] == v@[i as int]@);
                    let t = v[i].to_text();
                    let ghost x = t@;
                    items.push(t);
                    proof {
                        assert(pieces[i as int] == x);
                        assert(texts(items@) =~= texts(before).push(x));
                        assert(pieces.take(i + 1) =~= pieces.take(i as int).push(x));
                    }
                    i += 1;
                }
                assert(pieces.take(pieces.len() as int) =~= pieces);
                let mut out = "[".to_owned();
                out.append(join(&items, ",").as_str());
                out.append("]");
                out
            },
            Json::Object(v) => {
                let ghost all = self@->Object_0;
                let ghost pieces = member_texts(all);
                let mut items: Vec<String> = Vec::new();
                let mut i: usize = 0;
                assert(texts(items@) =~= pieces.take(0));
                while i < v.len()
                    invariant
                        i <= v.len(),
                        *self == Json::Object(*v),
                        all == self@->Object_0,
                        all.len() == v@.len(),
                        pieces.len() == all.len(),
                        forall|k: int|
                            0 <= k < all.len() ==> #[trigger] pieces[k] == quoted(all[k].0) + ":"@
                                + json_text(all[k].1),
                        texts(items@) == pieces.take(i as int),
                    decreases v.len() - i,
                {
                    let ghost before = items@;
                    assert(all[i as int] == (v@[i as int].0@, v@[i as int].1@));
                    let mut t = quote(v[i].0.as_str());
                    t.append(":");
                    t.append(v[i].1.to_text().as_str());
                    let ghost x = t@;
                    items.push(t);
                    proof {
                        assert(pieces[i as int] == x);
                        assert(texts(items@) =~= texts(before).push(x));
                        assert(pieces.take(i + 1) =~= pieces.take(i as int).push(x));
                    }
                    i += 1;
                }
                assert(pieces.take(pieces.len() as int) =~= pieces);
                let mut out = "{".to_owned();
                out.append(join(&items, ",").as_str());
                out.append("}");
                out
            },
        }
    }

    /// Another value with the same contents.
    pub fn copy(&self) -> (r: Json)
        ensures
            r@ == self@,
        decreases self,
    {
        match self {
            Json::Null => Json::Null,
            Json::Bool(b) => Json::Bool(*b),
            Json::Number(n) => Json::Number(n.clone()),
            Json::Text(s) => Json::Text(s.clone()),
            Json::Array(v) => {
                let mut out: Vec<Json> = Vec::new();
                let mut i: usize = 0;
                while i < v.len()
                    invariant
                        i <= v.len(),
                        *self == Json::Array(*v),
                        out@.len() == i,
                        forall|k: int| 0 <= k < i ==> (#[trigger] out@[k])@ == v@[k]@,
                    decreases v.len() - i,
                {
                    assert(decreases_to!(*self => self->Array_0));
                    assert(decreases_to!(v => v@));
                    assert(decreases_to!(v@ => v@[i as int]));
                    out.push(v[i].copy());
                    i += 1;
                }
                let r = Json::Array(out);
                assert(r@->Array_0 =~= self@->Array_0);
                r
            },
            Json::Object(v) => {
                let mut out: Vec<(String, Json)> = Vec::new();
                let mut i: usize = 0;
                while i < v.len()
                    invariant
                        i <= v.len(),
                        *self == Json::Object(*v),
                        out@.len() == i,
                        forall|k: int|
                            0 <= k < i ==> (#[trigger] out@[k]).0@ == v@[k].0@ && out@[k].1@
                                == v@[k].1@,
                    decreases v.len() - i,
                {
                    assert(decreases_to!(*self => self->Object_0));
                    assert(decreases_to!(v => v@));
                    assert(decreases_to!(v@ => v@[i as int]));
                    assert(decreases_to!(v@[i as int] => v@[i as int].1));
                    out.push((v[i].0.clone(), v[i].1.copy()));
                    i += 1;
                }
                let r = Json::Object(out);
                assert(r@->Object_0 =~= self@->Object_0);
                r
            },
        }
    }
}

/// The models of members.
pub open spec fn member_views(v: Seq<(String, Json)>) -> Seq<(Seq<char>, JsonView)> {
    Seq::new(v.len(), |i: int| (v[i].0@, v[i].1@))
}

/// An object with the given members.
pub fn object(members: Vec<(String, Json)>) -> (r: Json)
    ensures
        r@ == JsonView::Object(member_views(members@)),
{
    let r = Json::Object(members);
    assert(r@->Object_0 =~= member_views(members@));
    r
}

/// An array of the given items.
pub fn array(items: Vec<Json>) -> (r: Json)
    ensures
        r@ == JsonView::Array(json_views(items@)),
{
    let r = Json::Array(items);
    assert(r@->Array_0 =~= json_views(items@));
    r
}

/// A member is found by its name: the first that has it.
pub proof fn law_members_are_found_by_name(
    members: Seq<(Seq<char>, JsonView)>,
    key: Seq<char>,
    i: int,
)
    ensures
        0 <= i < members.len() && members[i].0 == key && (forall|j: int|
            0 <= j < i ==> (#[trigger] members[j]).0 != key) ==> member_from(members, key) == Some(
            members[i].1,
        ),
        member_from(members, key) is None <==> forall|j: int|
            0 <= j < members.len() ==> (#[trigger] members[j]).0 != key,
    decreases members.len(),
{
    if members.len() > 0 {
        let tail = members.skip(1);
        law_members_are_found_by_name(tail, key, i - 1);
        assert forall|j: int| 0 <= j < tail.len() implies #[trigger] tail[j] == members[j + 1] by {}
        if members[0].0 != key {
            if member_from(tail, key) is None {
                assert forall|j: int| 0 <= j < members.len() implies (#[trigger] members[j]).0
                    != key by {
                    if j > 0 {
                        assert(tail[j - 1].0 != key);
                    }
                }
            } else {
                assert(exists|j: int| 0 <= j < tail.len() && (#[trigger] tail[j]).0 == key);
                let j = choose|j: int| 0 <= j < tail.len() && (#[trigger] tail[j]).0 == key;
                assert(members[j + 1].0 == key);
            }
            if 0 <= i < members.len() && members[i].0 == key && (forall|j: int|
                0 <= j < i ==> (#[trigger] members[j]).0 != key) {
                assert(tail[i - 1] == members[i]);
                assert forall|j: int| 0 <= j < i - 1 implies (#[trigger] tail[j]).0 != key by {
                    assert(members[j + 1].0 != key);
                }
            }
        }
    }
}

} // verus!
