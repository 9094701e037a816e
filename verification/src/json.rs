//! Parsed JSON documents: the value type, member lookup, and the two text
//! forms of a value (compact JSON, and the text that an extracted field
//! carries).

use crate::text::{push_char, same_text};
use vstd::prelude::*;
use vstd::string::StringExecFns;

verus! {

/// A JSON document as a mathematical value.
pub enum Json {
    Null,
    Bool(bool),
    Number(Seq<char>),
    Text(Seq<char>),
    Array(Seq<Json>),
    Object(Seq<(Seq<char>, Json)>),
}

/// A parsed JSON document. A number is held as its canonical text; the
/// members of an object are held in the order in which they were given.
pub enum JsonValue {
    Null,
    Bool(bool),
    Number(String),
    Text(String),
    Array(Vec<JsonValue>),
    Object(Vec<(String, JsonValue)>),
}

/// The mathematical value of a parsed document.
pub open spec fn json_view(v: JsonValue) -> Json
    decreases v,
{
    match v {
        JsonValue::Null => Json::Null,
        JsonValue::Bool(b) => Json::Bool(b),
        JsonValue::Number(n) => Json::Number(n@),
        JsonValue::Text(s) => Json::Text(s@),
        JsonValue::Array(items) => Json::Array(
            Seq::new(
                items@.len(),
                |i: int|
                    if 0 <= i < items@.len() {
                        json_view(items@[i])
                    } else {
                        Json::Null
                    },
            ),
        ),
        JsonValue::Object(members) => Json::Object(
            Seq::new(
                members@.len(),
                |i: int|
                    if 0 <= i < members@.len() {
                        (members@[i].0@, json_view(members@[i].1))
                    } else {
                        (Seq::empty(), Json::Null)
                    },
            ),
        ),
    }
}

impl View for JsonValue {
    type V = Json;

    open spec fn view(&self) -> Json {
        json_view(*self)
    }
}

/// The value of the first member named `key`, if there is one.
pub open spec fn member_value(members: Seq<(Seq<char>, Json)>, key: Seq<char>) -> Option<Json>
    decreases members.len(),
{
    if members.len() == 0 {
        None
    } else if members[0].0 == key {
        Some(members[0].1)
    } else {
        member_value(members.drop_first(), key)
    }
}

/// A lower-case hexadecimal digit.
pub open spec fn hex_digit(d: nat) -> char
    recommends
        d < 16,
{
    if d < 10 {
        ((48 + d) as u8) as char
    } else {
        ((87 + d) as u8) as char
    }
}

/// How one character stands inside a JSON string literal.
pub open spec fn escaped_char(c: char) -> Seq<char> {
    let u = c as u32;
    if c == '"' {
        seq!['\\', '"']
    } else if c == '\\' {
        seq!['\\', '\\']
    } else if u == 0x08 {
        seq!['\\', 'b']
    } else if u == 0x09 {
        seq!['\\', 't']
    } else if u == 0x0A {
        seq!['\\', 'n']
    } else if u == 0x0C {
        seq!['\\', 'f']
    } else if u == 0x0D {
        seq!['\\', 'r']
    } else if u < 0x20 {
        seq!['\\', 'u', '0', '0', hex_digit((u / 16) as nat), hex_digit((u % 16) as nat)]
    } else {
        seq![c]
    }
}

/// The characters of `s`, each escaped.
pub open spec fn escaped(s: Seq<char>) -> Seq<char>
    decreases s.len(),
{
    if s.len() == 0 {
        Seq::empty()
    } else {
        escaped(s.drop_last()) + escaped_char(s.last())
    }
}

/// `s` as a JSON string literal.
pub open spec fn quoted(s: Seq<char>) -> Seq<char> {
    seq!['"'] + escaped(s) + seq!['"']
}

/// The first `n` elements of an array as compact JSON, with commas between.
pub open spec fn compact_elements(items: Seq<Json>, n: nat) -> Seq<char>
    decreases items, n,
{
    if n == 0 || n > items.len() {
        Seq::empty()
    } else if n == 1 {
        items[0].compact()
    } else {
        compact_elements(items, (n - 1) as nat) + seq![','] + items[n - 1].compact()
    }
}

/// One member of an object as compact JSON.
pub open spec fn compact_member(members: Seq<(Seq<char>, Json)>, i: int) -> Seq<char>
    recommends
        0 <= i < members.len(),
    decreases members, 0nat,
{
    if 0 <= i < members.len() {
        quoted(members[i].0) + seq![':'] + members[i].1.compact()
    } else {
        Seq::empty()
    }
}

/// The first `n` members of an object as compact JSON, with commas between.
pub open spec fn compact_members(members: Seq<(Seq<char>, Json)>, n: nat) -> Seq<char>
    decreases members, n + 1,
{
    if n == 0 || n > members.len() {
        Seq::empty()
    } else if n == 1 {
        compact_member(members, 0)
    } else {
        compact_members(members, (n - 1) as nat) + seq![','] + compact_member(members, n - 1)
    }
}

impl Json {
    /// The member `key` of an object; nothing for any other value.
    pub open spec fn get(self, key: Seq<char>) -> Option<Json> {
        match self {
            Json::Object(members) => member_value(members, key),
            _ => None,
        }
    }

    /// The text of a string value.
    pub open spec fn as_text(self) -> Option<Seq<char>> {
        match self {
            Json::Text(s) => Some(s),
            _ => None,
        }
    }

    /// The elements of an array value.
    pub open spec fn elements(self) -> Option<Seq<Json>> {
        match self {
            Json::Array(items) => Some(items),
            _ => None,
        }
    }

    /// Null, an array without elements, or an object without members.
    pub open spec fn is_blank(self) -> bool {
        match self {
            Json::Null => true,
            Json::Array(items) => items.len() == 0,
            Json::Object(members) => members.len() == 0,
            _ => false,
        }
    }

    /// The value as compact JSON: no whitespace, members in the order held.
    pub open spec fn compact(self) -> Seq<char>
        decreases self, 0nat,
    {
        match self {
            Json::Null => seq!['n', 'u', 'l', 'l'],
            Json::Bool(b) => if b {
                seq!['t', 'r', 'u', 'e']
            } else {
                seq!['f', 'a', 'l', 's', 'e']
            },
            Json::Number(n) => n,
            Json::Text(s) => quoted(s),
            Json::Array(items) => seq!['['] + compact_elements(items, items.len()) + seq![']'],
            Json::Object(members) => seq!['{'] + compact_members(members, members.len()) + seq![
                '}',
            ],
        }
    }

    /// The text that an extracted field carries for this value: a string
    /// verbatim, null as the empty text, anything else as compact JSON.
    pub open spec fn rendered(self) -> Seq<char> {
        match self {
            Json::Text(s) => s,
            Json::Null => Seq::empty(),
            _ => self.compact(),
        }
    }
}

/// What parsing `text` as one JSON document gives, if it is one.
pub uninterp spec fn parsed_json(text: Seq<char>) -> Option<Json>;

/// The document that a value of the parser holds.
pub uninterp spec fn outside_json(v: serde_json::Value) -> Json;

#[verifier::external_type_specification]
#[verifier::external_body]
pub struct ExOutsideValue(serde_json::Value);

/// Trusted: `serde_json::Value`, taken apart variant by variant. A number
/// becomes the text that `serde_json::Number` displays as; the members of
/// an object come in the order in which `serde_json::Map` walks them.
#[verifier::external_body]
fn from_outside(v: &serde_json::Value) -> (r: JsonValue)
    ensures
        r@ == outside_json(*v),
{
    match v {
        serde_json::Value::Null => JsonValue::Null,
        serde_json::Value::Bool(b) => JsonValue::Bool(*b),
        serde_json::Value::Number(n) => JsonValue::Number(n.to_string()),
        serde_json::Value::String(s) => JsonValue::Text(s.clone()),
        serde_json::Value::Array(a) => JsonValue::Array(a.iter().map(from_outside).collect()),
        serde_json::Value::Object(m) => JsonValue::Object(
            m.iter().map(|(k, x)| (k.clone(), from_outside(x))).collect(),
        ),
    }
}

/// Trusted: `serde_json::from_str` at `serde_json::Value`, which parses one
/// JSON document from the text and fails on anything else. The result
/// depends on the text alone.
#[verifier::external_body]
fn parse_text(text: &str) -> (r: Option<serde_json::Value>)
    ensures
        match r {
            Some(v) => parsed_json(text@) == Some(outside_json(v)),
            None => parsed_json(text@) is None,
        },
{
    serde_json::from_str::<serde_json::Value>(text).ok()
}

/// Trusted: `serde_json::to_string` at `str`, which writes the text as a
/// JSON string literal: between double quotes, with `"` and `\` behind a
/// backslash, the control characters below U+0020 as `\b`, `\t`, `\n`,
/// `\f`, `\r` or `\u00XX` in lower-case hexadecimal, and every other
/// character as it is.
#[verifier::external_body]
fn quote_text(s: &str) -> (r: String)
    ensures
        r@ == quoted(s@),
{
    serde_json::to_string(s).unwrap_or_default()
}

proof fn lemma_member_value_skip(members: Seq<(Seq<char>, Json)>, key: Seq<char>, i: int)
    requires
        0 <= i <= members.len(),
        forall|k: int| 0 <= k < i ==> (#[trigger] members[k]).0 != key,
    ensures
        member_value(members, key) == member_value(members.skip(i), key),
    decreases i,
{
    if i > 0 {
        assert(members.drop_first().skip(i - 1) =~= members.skip(i));
        lemma_member_value_skip(members.drop_first(), key, i - 1);
    } else {
        assert(members.skip(0) =~= members);
    }
}

impl JsonValue {
    /// Parses one JSON document.
    pub fn parse(text: &str) -> (r: Option<JsonValue>)
        ensures
            match r {
                Some(v) => parsed_json(text@) == Some(v@),
                None => parsed_json(text@) is None,
            },
    {
        match parse_text(text) {
            Some(v) => Some(from_outside(&v)),
            None => None,
        }
    }

    /// The member `key` of an object.
    pub fn get(&self, key: &str) -> (r: Option<&JsonValue>)
        ensures
            match r {
                Some(v) => self@.get(key@) == Some(v@),
                None => self@.get(key@) is None,
            },
    {
        match self {
            JsonValue::Object(members) => {
                let ghost spec_members = self@->Object_0;
                let n: usize = members.len();
                let mut i: usize = 0;
                while i < n
                    invariant
                        n == members.len(),
                        0 <= i <= n,
                        self@ == Json::Object(spec_members),
                        spec_members.len() == n,
                        forall|k: int|
                            0 <= k < n ==> #[trigger] spec_members[k] == (
                                members@[k].0@,
                                members@[k].1@,
                            ),
                        forall|k: int| 0 <= k < i ==> (#[trigger] spec_members[k]).0 != key@,
                    decreases n - i,
                {
                    if same_text(members[i].0.as_str(), key) {
                        proof {
                            lemma_member_value_skip(spec_members, key@, i as int);
                        }
                        return Some(&members[i].1);
                    }
                    i += 1;
                }
                proof {
                    lemma_member_value_skip(spec_members, key@, n as int);
                }
                None
            },
            _ => None,
        }
    }

    /// The text of a string value.
    pub fn as_text(&self) -> (r: Option<&String>)
        ensures
            match r {
                Some(s) => self@.as_text() == Some(s@),
                None => self@.as_text() is None,
            },
    {
        match self {
            JsonValue::Text(s) => Some(s),
            _ => None,
        }
    }

    /// The elements of an array value.
    pub fn as_array(&self) -> (r: Option<&Vec<JsonValue>>)
        ensures
            match r {
                Some(items) => *self == JsonValue::Array(*items),
                None => self@.elements() is None,
            },
    {
        match self {
            JsonValue::Array(items) => Some(items),
            _ => None,
        }
    }

    /// Whether the value is null, an empty array or an empty object.
    pub fn is_blank(&self) -> (b: bool)
        ensures
            b == self@.is_blank(),
    {
        match self {
            JsonValue::Null => true,
            JsonValue::Array(items) => items.len() == 0,
            JsonValue::Object(members) => members.len() == 0,
            _ => false,
        }
    }

    /// Appends the value as compact JSON.
    pub fn write_compact(&self, out: &mut String)
        ensures
            final(out)@ == old(out)@ + self@.compact(),
        decreases self,
    {
        match self {
            JsonValue::Null => {
                proof {
                    reveal_strlit("null");
                }
                out.append("null");
                assert("null"@ =~= seq!['n', 'u', 'l', 'l']);
            },
            JsonValue::Bool(b) => {
                proof {
                    reveal_strlit("true");
                    reveal_strlit("false");
                }
                if *b {
                    out.append("true");
                    assert("true"@ =~= seq!['t', 'r', 'u', 'e']);
                } else {
                    out.append("false");
                    assert("false"@ =~= seq!['f', 'a', 'l', 's', 'e']);
                }
            },
            JsonValue::Number(n) => {
                out.append(n.as_str());
            },
            JsonValue::Text(s) => {
                let q = quote_text(s.as_str());
                out.append(q.as_str());
            },
            JsonValue::Array(items) => {
                let ghost start = out@;
                let ghost elems = self@->Array_0;
                push_char(out, '[');
                let n: usize = items.len();
                let mut i: usize = 0;
                while i < n
                    invariant
                        n == items.len(),
                        0 <= i <= n,
                        *self == JsonValue::Array(*items),
                        self@ == Json::Array(elems),
                        elems.len() == n,
                        forall|k: int| 0 <= k < n ==> #[trigger] elems[k] == items@[k]@,
                        out@ == start + seq!['['] + compact_elements(elems, i as nat),
                    decreases n - i,
                {
                    let ghost before = out@;
                    if i > 0 {
                        push_char(out, ',');
                    }
                    proof {
                        assert(decreases_to!(*items => items@[i as int]));
                        assert(self->Array_0 == *items);
                        assert(decreases_to!(*self => *items));
                    }
                    items[i].write_compact(out);
                    proof {
                        if i == 0 {
                            assert(out@ =~= start + seq!['['] + compact_elements(elems, 1));
                        } else {
                            assert(out@ =~= before + seq![','] + elems[i as int].compact());
                            assert(out@ =~= start + seq!['['] + compact_elements(
                                elems,
                                (i + 1) as nat,
                            ));
                        }
                    }
                    i += 1;
                }
                push_char(out, ']');
                assert(out@ =~= start + self@.compact());
            },
            JsonValue::Object(members) => {
                let ghost start = out@;
                let ghost pairs = self@->Object_0;
                push_char(out, '{');
                let n: usize = members.len();
                let mut i: usize = 0;
                while i < n
                    invariant
                        n == members.len(),
                        0 <= i <= n,
                        *self == JsonValue::Object(*members),
                        self@ == Json::Object(pairs),
                        pairs.len() == n,
                        forall|k: int|
                            0 <= k < n ==> #[trigger] pairs[k] == (
                                members@[k].0@,
                                members@[k].1@,
                            ),
                        out@ == start + seq!['{'] + compact_members(pairs, i as nat),
                    decreases n - i,
                {
                    let ghost before = out@;
                    if i > 0 {
                        push_char(out, ',');
                    }
                    let q = quote_text(members[i].0.as_str());
                    out.append(q.as_str());
                    push_char(out, ':');
                    proof {
                        assert(decreases_to!(*members => members@[i as int]));
                        assert(decreases_to!(members@[i as int] => members@[i as int].1));
                        assert(self->Object_0 == *members);
                        assert(decreases_to!(*self => *members));
                    }
                    members[i].1.write_compact(out);
                    proof {
                        if i == 0 {
                            assert(out@ =~= before + compact_member(pairs, 0));
                            assert(out@ =~= start + seq!['{'] + compact_members(pairs, 1));
                        } else {
                            assert(out@ =~= before + seq![','] + compact_member(pairs, i as int));
                            assert(out@ =~= start + seq!['{'] + compact_members(
                                pairs,
                                (i + 1) as nat,
                            ));
                        }
                    }
                    i += 1;
                }
                push_char(out, '}');
                assert(out@ =~= start + self@.compact());
            },
        }
    }

    /// The value as compact JSON.
    pub fn to_compact(&self) -> (r: String)
        ensures
            r@ == self@.compact(),
    {
        let mut out = String::new();
        self.write_compact(&mut out);
        assert(out@ =~= self@.compact());
        out
    }

    /// The text that an extracted field carries for this value.
    pub fn rendered(&self) -> (r: String)
        ensures
            r@ == self@.rendered(),
    {
        match self {
            JsonValue::Text(s) => s.clone(),
            JsonValue::Null => String::new(),
            _ => self.to_compact(),
        }
    }
}

} // verus!
