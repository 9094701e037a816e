//! The admission checks that run on a parsed document before extraction:
//! required values, paths that must be absent or empty, and the allow-list
//! of categories.

use crate::json::{Json, JsonValue};
use crate::text::{find_char, position_of, same_text, split, split_on, texts, trim, trimmed};
use vstd::string::{StrSliceExecFns, StringExecFns};
use vstd::prelude::*;

verus! {

/// The views of a sequence of borrowed documents.
pub open spec fn values_view(nodes: Seq<&JsonValue>) -> Seq<Json> {
    Seq::new(nodes.len(), |i: int| nodes[i]@)
}

/// Whether one of `items` is the string `required`.
pub open spec fn any_text(items: Seq<Json>, required: Seq<char>) -> bool {
    exists|i: int| 0 <= i < items.len() && (#[trigger] items[i]).as_text() == Some(required)
}

/// Whether `required` is found below `value` along `parts[from..]`: each
/// part names a member; an array met on the way stands for each of its
/// elements; at the last part the member is `required` itself or an array
/// that holds it.
pub open spec fn value_matches(
    value: Json,
    parts: Seq<Seq<char>>,
    from: nat,
    required: Seq<char>,
) -> bool
    decreases parts.len() - from, 0nat,
{
    if from >= parts.len() {
        false
    } else {
        match value.get(parts[from as int]) {
            None => false,
            Some(member) => if from + 1 == parts.len() {
                match member {
                    Json::Array(items) => any_text(items, required),
                    _ => member.as_text() == Some(required),
                }
            } else {
                match member {
                    Json::Array(items) => any_matches(items, parts, from + 1, required),
                    _ => value_matches(member, parts, from + 1, required),
                }
            },
        }
    }
}

/// Whether `required` is found below one of `nodes`.
pub open spec fn any_matches(
    nodes: Seq<Json>,
    parts: Seq<Seq<char>>,
    from: nat,
    required: Seq<char>,
) -> bool
    decreases parts.len() - from, 1nat,
{
    from < parts.len() && exists|k: int|
        0 <= k < nodes.len() && value_matches(#[trigger] nodes[k], parts, from, required)
}

/// The value that plain descent through objects reaches along
/// `parts[from..]`.
pub open spec fn resolved(value: Json, parts: Seq<Seq<char>>, from: nat) -> Option<Json>
    decreases parts.len() - from,
{
    if from >= parts.len() {
        Some(value)
    } else {
        match value.get(parts[from as int]) {
            Some(member) => resolved(member, parts, from + 1),
            None => None,
        }
    }
}

/// Whether the path leads to a value that is not null, an empty array or
/// an empty object.
pub open spec fn path_present(value: Json, parts: Seq<Seq<char>>) -> bool {
    match resolved(value, parts, 0) {
        Some(v) => !v.is_blank(),
        None => false,
    }
}

/// The path at which the category of a document stands.
pub open spec fn category_path() -> Seq<Seq<char>> {
    seq!["types"@, "resourceTypeGeneral"@]
}

/// Whether the document names a category and `allowed` holds it.
pub open spec fn category_allowed(value: Json, allowed: Set<Seq<char>>) -> bool {
    match resolved(value, category_path(), 0) {
        Some(v) => match v.as_text() {
            Some(category) => allowed.contains(category),
            None => false,
        },
        None => false,
    }
}

proof fn lemma_any_matches_push(
    nodes: Seq<Json>,
    x: Json,
    parts: Seq<Seq<char>>,
    from: nat,
    required: Seq<char>,
)
    requires
        from < parts.len(),
    ensures
        any_matches(nodes.push(x), parts, from, required) == (any_matches(
            nodes,
            parts,
            from,
            required,
        ) || value_matches(x, parts, from, required)),
{
    let more = nodes.push(x);
    if any_matches(nodes, parts, from, required) {
        let k = choose|k: int|
            0 <= k < nodes.len() && value_matches(#[trigger] nodes[k], parts, from, required);
        assert(more[k] == nodes[k]);
    }
    if value_matches(x, parts, from, required) {
        assert(more[nodes.len() as int] == x);
    }
    if any_matches(more, parts, from, required) {
        let k = choose|k: int|
            0 <= k < more.len() && value_matches(#[trigger] more[k], parts, from, required);
        if k < nodes.len() {
            assert(more[k] == nodes[k]);
        }
    }
}

/// Whether one of `items` is the string `required`.
fn holds_text(items: &Vec<JsonValue>, required: &str) -> (b: bool)
    ensures
        b == any_text((JsonValue::Array(*items))@->Array_0, required@),
{
    let ghost views = (JsonValue::Array(*items))@->Array_0;
    let n: usize = items.len();
    let mut i: usize = 0;
    while i < n
        invariant
            n == items.len(),
            0 <= i <= n,
            views == (JsonValue::Array(*items))@->Array_0,
            forall|k: int| 0 <= k < i ==> (#[trigger] views[k]).as_text() != Some(required@),
        decreases n - i,
    {
        assert(views[i as int] == items@[i as int]@);
        match items[i].as_text() {
            Some(s) => {
                if same_text(s.as_str(), required) {
                    return true;
                }
            },
            None => {},
        }
        i += 1;
    }
    false
}

/// Whether the literal `required_value` is found at the path: the
/// candidates fan out level by level, every array on the way standing for
/// its elements, and at the last part one match is enough.
pub fn validate_field_value<'a>(
    attributes_val: &'a JsonValue,
    path_parts: &Vec<String>,
    required_value: &str,
) -> (found: bool)
    ensures
        found == value_matches(attributes_val@, texts(path_parts@), 0, required_value@),
{
    let ghost parts = texts(path_parts@);
    let ghost target = value_matches(attributes_val@, parts, 0, required_value@);
    let n: usize = path_parts.len();
    if n == 0 {
        return false;
    }
    let mut current: Vec<&'a JsonValue> = Vec::new();
    current.push(attributes_val);
    assert(values_view(current@)[0] == attributes_val@);
    let mut i: usize = 0;
    while i < n
        invariant
            n == path_parts.len(),
            n > 0,
            0 <= i < n,
            parts == texts(path_parts@),
            target == value_matches(attributes_val@, parts, 0, required_value@),
            any_matches(values_view(current@), parts, i as nat, required_value@) == target,
        decreases n - i,
    {
        if current.len() == 0 {
            return false;
        }
        let part: &String = &path_parts[i];
        assert(parts[i as int] == part@);
        let is_last: bool = i == n - 1;
        let mut next: Vec<&'a JsonValue> = Vec::new();
        let ghost nodes = values_view(current@);
        let count: usize = current.len();
        let mut c: usize = 0;
        assert(nodes.take(0) =~= Seq::<Json>::empty());
        while c < count
            invariant
                count == current.len(),
                0 <= c <= count,
                0 <= i < n,
                n == path_parts.len(),
                is_last == (i == n - 1),
                parts == texts(path_parts@),
                parts[i as int] == part@,
                nodes == values_view(current@),
                target == value_matches(attributes_val@, parts, 0, required_value@),
                any_matches(nodes, parts, i as nat, required_value@) == target,
                is_last ==> !any_matches(nodes.take(c as int), parts, i as nat, required_value@),
                !is_last ==> any_matches(values_view(next@), parts, (i + 1) as nat, required_value@)
                    == any_matches(nodes.take(c as int), parts, i as nat, required_value@),
            decreases count - c,
        {
            let node: &'a JsonValue = current[c];
            let ghost seen = nodes.take(c as int);
            proof {
                assert(nodes[c as int] == node@);
                assert(nodes.take(c + 1) =~= seen.push(node@));
                lemma_any_matches_push(seen, node@, parts, i as nat, required_value@);
            }
            match node.get(part.as_str()) {
                Some(value) => {
                    if is_last {
                        match value.as_array() {
                            Some(array) => {
                                if holds_text(array, required_value) {
                                    assert(value_matches(nodes[c as int], parts, i as nat, required_value@));
                                    return true;
                                }
                            },
                            None => {
                                match value.as_text() {
                                    Some(s) => {
                                        if same_text(s.as_str(), required_value) {
                                            assert(value_matches(
                                                nodes[c as int],
                                                parts,
                                                i as nat,
                                                required_value@,
                                            ));
                                            return true;
                                        }
                                    },
                                    None => {},
                                }
                            },
                        }
                    } else {
                        match value.as_array() {
                            Some(array) => {
                                let ghost items = value@->Array_0;
                                let ghost base = values_view(next@);
                                let m: usize = array.len();
                                let mut e: usize = 0;
                                assert(items.take(0) =~= Seq::<Json>::empty());
                                while e < m
                                    invariant
                                        m == array.len(),
                                        0 <= e <= m,
                                        i + 1 < n,
                                        n == path_parts.len(),
                                        parts == texts(path_parts@),
                                        value@ == Json::Array(items),
                                        items.len() == m,
                                        forall|x: int|
                                            0 <= x < m ==> #[trigger] items[x] == array@[x]@,
                                        any_matches(
                                            values_view(next@),
                                            parts,
                                            (i + 1) as nat,
                                            required_value@,
                                        ) == (any_matches(
                                            base,
                                            parts,
                                            (i + 1) as nat,
                                            required_value@,
                                        ) || any_matches(
                                            items.take(e as int),
                                            parts,
                                            (i + 1) as nat,
                                            required_value@,
                                        )),
                                    decreases m - e,
                                {
                                    let ghost held = values_view(next@);
                                    next.push(&array[e]);
                                    proof {
                                        assert(values_view(next@) =~= held.push(items[e as int]));
                                        assert(items.take(e + 1) =~= items.take(e as int).push(
                                            items[e as int],
                                        ));
                                        lemma_any_matches_push(
                                            held,
                                            items[e as int],
                                            parts,
                                            (i + 1) as nat,
                                            required_value@,
                                        );
                                        lemma_any_matches_push(
                                            items.take(e as int),
                                            items[e as int],
                                            parts,
                                            (i + 1) as nat,
                                            required_value@,
                                        );
                                    }
                                    e += 1;
                                }
                                assert(items.take(m as int) =~= items);
                            },
                            None => {
                                let ghost held = values_view(next@);
                                next.push(value);
                                proof {
                                    assert(values_view(next@) =~= held.push(value@));
                                    lemma_any_matches_push(
                                        held,
                                        value@,
                                        parts,
                                        (i + 1) as nat,
                                        required_value@,
                                    );
                                }
                            },
                        }
                    }
                },
                None => {},
            }
            c += 1;
        }
        assert(nodes.take(count as int) =~= nodes);
        if is_last {
            return false;
        }
        current = next;
        i += 1;
    }
    false
}

/// Whether the path, followed through objects only, leads to a value that
/// is not null, an empty array or an empty object.
pub fn path_exists(attributes_val: &JsonValue, path_parts: &Vec<String>) -> (present: bool)
    ensures
        present == path_present(attributes_val@, texts(path_parts@)),
{
    match resolve(attributes_val, path_parts) {
        Some(v) => !v.is_blank(),
        None => false,
    }
}

/// The value that plain descent through objects reaches along the path.
pub fn resolve<'a>(value: &'a JsonValue, path_parts: &Vec<String>) -> (r: Option<&'a JsonValue>)
    ensures
        match r {
            Some(v) => resolved(value@, texts(path_parts@), 0) == Some(v@),
            None => resolved(value@, texts(path_parts@), 0) is None,
        },
{
    let ghost parts = texts(path_parts@);
    let n: usize = path_parts.len();
    let mut current: &'a JsonValue = value;
    let mut i: usize = 0;
    while i < n
        invariant
            n == path_parts.len(),
            0 <= i <= n,
            parts == texts(path_parts@),
            resolved(value@, parts, 0) == resolved(current@, parts, i as nat),
        decreases n - i,
    {
        assert(parts[i as int] == path_parts@[i as int]@);
        match current.get(path_parts[i].as_str()) {
            Some(next) => {
                current = next;
            },
            None => {
                return None;
            },
        }
        i += 1;
    }
    Some(current)
}

/// A required-value filter written as `path=value`: the dotted path before
/// the first `=`, and everything behind it as the value. Text without `=`
/// is no filter.
pub open spec fn parsed_value_filter(text: Seq<char>) -> Option<(Seq<Seq<char>>, Seq<char>)> {
    match position_of(text, '=') {
        Some(i) => Some((split_on(text.take(i), '.'), text.skip(i + 1))),
        None => None,
    }
}

/// Reads a required-value filter written as `path=value`.
pub fn parse_field_value_filter(text: &str) -> (r: Option<(Vec<String>, String)>)
    ensures
        match r {
            Some(filter) => parsed_value_filter(text@) == Some((texts(filter.0@), filter.1@)),
            None => parsed_value_filter(text@) is None,
        },
{
    match find_char(text, '=') {
        Some(i) => {
            let total: usize = text.unicode_len();
            let path = split(text.substring_char(0, i), '.');
            let value = String::from_str(text.substring_char(i + 1, total));
            proof {
                assert(text@.subrange(0, i as int) =~= text@.take(i as int));
                assert(text@.subrange(i + 1, total as int) =~= text@.skip(i + 1));
            }
            Some((path, value))
        },
        None => None,
    }
}

/// Reads a dotted path: its segments, as they stand.
pub fn parse_path(text: &str) -> (path: Vec<String>)
    ensures
        texts(path@) == split_on(text@, '.'),
{
    split(text, '.')
}

/// The entries of a comma-separated list, each trimmed.
pub open spec fn parsed_list(text: Seq<char>) -> Seq<Seq<char>> {
    let items = split_on(text, ',');
    Seq::new(items.len(), |i: int| trimmed(items[i]))
}

/// Reads a comma-separated list of categories, each trimmed.
pub fn parse_resource_types(text: &str) -> (types: Vec<String>)
    ensures
        texts(types@) == parsed_list(text@),
{
    let items = split(text, ',');
    let ghost item_texts = split_on(text@, ',');
    let mut types: Vec<String> = Vec::new();
    let n: usize = items.len();
    let mut i: usize = 0;
    while i < n
        invariant
            n == items.len(),
            0 <= i <= n,
            texts(items@) == item_texts,
            types.len() == i,
            forall|k: int| 0 <= k < i ==> (#[trigger] types@[k])@ == trimmed(item_texts[k]),
        decreases n - i,
    {
        assert(item_texts[i as int] == items@[i as int]@);
        types.push(String::from_str(trim(items[i].as_str())));
        i += 1;
    }
    assert(texts(types@) =~= parsed_list(text@));
    types
}

} // verus!
