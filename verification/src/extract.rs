//! The traversal engine: one parsed document is walked against the
//! compiled plan, and every requested path that it holds yields a record.

use crate::json::{Json, JsonValue};
use crate::text::{decimal, push_char, push_decimal, same_text};
use crate::text::joined;
use crate::trie::{
    children_view, compiled, empty_plan, wildcard_key, PatternTrie, Plan, TrieNode,
};
use vstd::prelude::*;
use vstd::string::StringExecFns;

verus! {

/// An extraction record as a mathematical value.
pub ghost struct Record {
    pub doi: Seq<char>,
    pub provider_id: Seq<char>,
    pub client_id: Seq<char>,
    pub field_name: Seq<char>,
    pub subfield_path: Seq<char>,
    pub value: Seq<char>,
}

/// What identifies a document and routes its records.
pub ghost struct Identity {
    pub doi: Seq<char>,
    pub provider_id: Seq<char>,
    pub client_id: Seq<char>,
}

/// One extracted value: the document it came from, the label of the
/// requested field, the concrete path that was walked, and the value.
#[derive(Debug)]
pub struct FieldData {
    pub doi: String,
    pub provider_id: String,
    pub client_id: String,
    pub field_name: String,
    pub subfield_path: String,
    pub value: String,
}

impl View for FieldData {
    type V = Record;

    open spec fn view(&self) -> Record {
        Record {
            doi: self.doi@,
            provider_id: self.provider_id@,
            client_id: self.client_id@,
            field_name: self.field_name@,
            subfield_path: self.subfield_path@,
            value: self.value@,
        }
    }
}

/// The views of a sequence of records.
pub open spec fn records_view(records: Seq<FieldData>) -> Seq<Record> {
    Seq::new(records.len(), |i: int| records[i]@)
}

/// The concrete path of element `index` of the array at `path`.
pub open spec fn element_path(path: Seq<char>, index: nat) -> Seq<char> {
    path + seq!['['] + decimal(index) + seq![']']
}

/// The concrete path of member `key` of the object at `path`.
pub open spec fn member_path(path: Seq<char>, key: Seq<char>) -> Seq<char> {
    if path.len() == 0 {
        key
    } else {
        path + seq!['.'] + key
    }
}

/// The record for a requested path that ends at `value`.
pub open spec fn record_at(ids: Identity, label: Seq<char>, path: Seq<char>, value: Json) -> Record {
    Record {
        doi: ids.doi,
        provider_id: ids.provider_id,
        client_id: ids.client_id,
        field_name: label,
        subfield_path: path,
        value: value.rendered(),
    }
}

/// The records of walking `value`, reached by `path`, against `plan`: the
/// record of the plan's own label first, then those of its children in
/// their order.
pub open spec fn walk(plan: Plan, value: Json, path: Seq<char>, ids: Identity) -> Seq<Record>
    decreases plan, 0nat, 0nat,
{
    let own = match plan.terminal {
        Some(label) => seq![record_at(ids, label, path, value)],
        None => Seq::empty(),
    };
    own + walk_children(plan.children, plan.children.len(), value, path, ids)
}

/// The records of the first `n` children.
pub open spec fn walk_children(
    children: Seq<(Seq<char>, Plan)>,
    n: nat,
    value: Json,
    path: Seq<char>,
    ids: Identity,
) -> Seq<Record>
    decreases children, n, 0nat,
{
    if n == 0 || n > children.len() {
        Seq::empty()
    } else {
        walk_children(children, (n - 1) as nat, value, path, ids) + walk_child(
            children[n - 1].0,
            children[n - 1].1,
            value,
            path,
            ids,
        )
    }
}

/// The records of one child: under the wildcard key every element of an
/// array, under any other key that member of an object. A value of another
/// shape, or without that member, gives none.
pub open spec fn walk_child(
    key: Seq<char>,
    child: Plan,
    value: Json,
    path: Seq<char>,
    ids: Identity,
) -> Seq<Record>
    decreases child, 2nat, 0nat,
{
    if key == wildcard_key() {
        match value {
            Json::Array(items) => walk_elements(child, items, items.len(), path, ids),
            _ => Seq::empty(),
        }
    } else {
        match value.get(key) {
            Some(next) => walk(child, next, member_path(path, key), ids),
            None => Seq::empty(),
        }
    }
}

/// The records of the first `n` elements of an array.
pub open spec fn walk_elements(
    child: Plan,
    items: Seq<Json>,
    n: nat,
    path: Seq<char>,
    ids: Identity,
) -> Seq<Record>
    decreases child, 1nat, n,
{
    if n == 0 || n > items.len() {
        Seq::empty()
    } else {
        walk_elements(child, items, (n - 1) as nat, path, ids) + walk(
            child,
            items[n - 1],
            element_path(path, (n - 1) as nat),
            ids,
        )
    }
}

impl TrieNode {
    /// Walks `json_value`, reached by `current_path`, against this node and
    /// appends what it yields to `results`. Each call goes one step down
    /// the plan, so the depth of the calls is bounded by the depth of the
    /// plan, however deep the document is.
    pub fn traverse(
        &self,
        json_value: &JsonValue,
        current_path: &str,
        results: &mut Vec<FieldData>,
        doi: &String,
        provider_id: &String,
        client_id: &String,
    )
        ensures
            records_view(final(results)@) == records_view(old(results)@) + walk(
                self@,
                json_value@,
                current_path@,
                Identity { doi: doi@, provider_id: provider_id@, client_id: client_id@ },
            ),
        decreases self,
    {
        let ghost ids = Identity { doi: doi@, provider_id: provider_id@, client_id: client_id@ };
        let ghost start = records_view(results@);
        let ghost own = match self@.terminal {
            Some(label) => seq![record_at(ids, label, current_path@, json_value@)],
            None => Seq::empty(),
        };
        match &self.terminating_pattern {
            Some(field_name) => {
                let record = FieldData {
                    doi: doi.clone(),
                    provider_id: provider_id.clone(),
                    client_id: client_id.clone(),
                    field_name: field_name.clone(),
                    subfield_path: String::from_str(current_path),
                    value: json_value.rendered(),
                };
                results.push(record);
                assert(records_view(results@) =~= start + own);
            },
            None => {
                assert(records_view(results@) =~= start + own);
            },
        }
        let ghost kids = self@.children;
        let n: usize = self.children.len();
        let mut k: usize = 0;
        assert(records_view(results@) =~= start + own + walk_children(
            kids,
            0,
            json_value@,
            current_path@,
            ids,
        ));
        while k < n
            invariant
                n == self.children.len(),
                0 <= k <= n,
                kids == self@.children,
                kids == children_view(self.children@),
                ids == (Identity { doi: doi@, provider_id: provider_id@, client_id: client_id@ }),
                records_view(results@) == start + own + walk_children(
                    kids,
                    k as nat,
                    json_value@,
                    current_path@,
                    ids,
                ),
            decreases n - k,
        {
            let key: &String = &self.children[k].0;
            let child: &TrieNode = &self.children[k].1;
            let ghost before = records_view(results@);
            proof {
                assert(kids[k as int] == (key@, child@));
                assert(decreases_to!(self.children => self.children@[k as int]));
                assert(decreases_to!(self.children@[k as int] => self.children@[k as int].1));
                assert(decreases_to!(*self => self.children));
                reveal_strlit("[]");
                assert("[]"@ =~= wildcard_key());
            }
            if same_text(key.as_str(), "[]") {
                match json_value.as_array() {
                    Some(array) => {
                        let ghost items = json_value@->Array_0;
                        let m: usize = array.len();
                        let mut i: usize = 0;
                        assert(records_view(results@) =~= before + walk_elements(
                            child@,
                            items,
                            0,
                            current_path@,
                            ids,
                        ));
                        while i < m
                            invariant
                                m == array.len(),
                                0 <= i <= m,
                                json_value@ == Json::Array(items),
                                items.len() == m,
                                forall|x: int| 0 <= x < m ==> #[trigger] items[x] == array@[x]@,
                                decreases_to!(*self => *child),
                                ids == (Identity {
                                    doi: doi@,
                                    provider_id: provider_id@,
                                    client_id: client_id@,
                                }),
                                records_view(results@) == before + walk_elements(
                                    child@,
                                    items,
                                    i as nat,
                                    current_path@,
                                    ids,
                                ),
                            decreases m - i,
                        {
                            let mut new_path = String::from_str(current_path);
                            push_char(&mut new_path, '[');
                            push_decimal(&mut new_path, i);
                            push_char(&mut new_path, ']');
                            assert(new_path@ =~= element_path(current_path@, i as nat));
                            let ghost sofar = records_view(results@);
                            child.traverse(
                                &array[i],
                                new_path.as_str(),
                                results,
                                doi,
                                provider_id,
                                client_id,
                            );
                            assert(records_view(results@) =~= before + walk_elements(
                                child@,
                                items,
                                (i + 1) as nat,
                                current_path@,
                                ids,
                            ));
                            i += 1;
                        }
                    },
                    None => {},
                }
            } else {
                match json_value.get(key.as_str()) {
                    Some(next_value) => {
                        let new_path = if current_path.is_empty() {
                            key.clone()
                        } else {
                            let mut p = String::from_str(current_path);
                            push_char(&mut p, '.');
                            p.append(key.as_str());
                            p
                        };
                        assert(new_path@ =~= member_path(current_path@, key@));
                        child.traverse(
                            next_value,
                            new_path.as_str(),
                            results,
                            doi,
                            provider_id,
                            client_id,
                        );
                    },
                    None => {},
                }
            }
            assert(records_view(results@) =~= before + walk_child(
                key@,
                child@,
                json_value@,
                current_path@,
                ids,
            ));
            assert(records_view(results@) =~= start + own + walk_children(
                kids,
                (k + 1) as nat,
                json_value@,
                current_path@,
                ids,
            ));
            k += 1;
        }
        assert(records_view(results@) =~= start + walk(self@, json_value@, current_path@, ids));
    }
}

impl PatternTrie {
    /// The records that the document yields under this plan, in the order
    /// of the plan.
    pub fn extract(
        &self,
        json_attributes: &JsonValue,
        doi: String,
        provider_id: String,
        client_id: String,
    ) -> (results: Vec<FieldData>)
        ensures
            records_view(results@) == walk(
                self@,
                json_attributes@,
                Seq::empty(),
                Identity { doi: doi@, provider_id: provider_id@, client_id: client_id@ },
            ),
    {
        let mut results: Vec<FieldData> = Vec::new();
        let path = String::new();
        self.root.traverse(
            json_attributes,
            path.as_str(),
            &mut results,
            &doi,
            &provider_id,
            &client_id,
        );
        assert(records_view(results@) =~= walk(
            self@,
            json_attributes@,
            Seq::empty(),
            Identity { doi: doi@, provider_id: provider_id@, client_id: client_id@ },
        ));
        results
    }
}

/// Whether every record stands under a concrete path that begins with
/// `path`.
pub open spec fn all_below(records: Seq<Record>, path: Seq<char>) -> bool {
    forall|k: int| 0 <= k < records.len() ==> path.is_prefix_of((#[trigger] records[k]).subfield_path)
}

proof fn lemma_below_longer(records: Seq<Record>, longer: Seq<char>, path: Seq<char>)
    requires
        all_below(records, longer),
        path.is_prefix_of(longer),
    ensures
        all_below(records, path),
{
    assert forall|k: int| 0 <= k < records.len() implies path.is_prefix_of(
        (#[trigger] records[k]).subfield_path,
    ) by {
        let full = records[k].subfield_path;
        assert(longer.is_prefix_of(full));
        assert(path =~= full.subrange(0, path.len() as int)) by {
            assert(longer =~= full.subrange(0, longer.len() as int));
            assert(path =~= longer.subrange(0, path.len() as int));
        }
    }
}

proof fn lemma_below_both(first: Seq<Record>, second: Seq<Record>, path: Seq<char>)
    requires
        all_below(first, path),
        all_below(second, path),
    ensures
        all_below(first + second, path),
{
    assert forall|k: int| 0 <= k < (first + second).len() implies path.is_prefix_of(
        (#[trigger] (first + second)[k]).subfield_path,
    ) by {
        if k < first.len() {
            assert((first + second)[k] == first[k]);
        } else {
            assert((first + second)[k] == second[k - first.len()]);
        }
    }
}

/// Concrete paths grow downwards: every record of walking a value that
/// was reached by `path` stands under a concrete path that begins with
/// `path`. So the records of element `i` of an array all bear its `[i]`.
pub proof fn lemma_walk_paths(plan: Plan, value: Json, path: Seq<char>, ids: Identity)
    ensures
        all_below(walk(plan, value, path, ids), path),
    decreases plan, 0nat, 0nat,
{
    let own = match plan.terminal {
        Some(label) => seq![record_at(ids, label, path, value)],
        None => Seq::empty(),
    };
    assert(path.is_prefix_of(path)) by {
        assert(path =~= path.subrange(0, path.len() as int));
    }
    lemma_walk_children_paths(plan.children, plan.children.len(), value, path, ids);
    lemma_below_both(
        own,
        walk_children(plan.children, plan.children.len(), value, path, ids),
        path,
    );
}

proof fn lemma_walk_children_paths(
    children: Seq<(Seq<char>, Plan)>,
    n: nat,
    value: Json,
    path: Seq<char>,
    ids: Identity,
)
    ensures
        all_below(walk_children(children, n, value, path, ids), path),
    decreases children, n, 0nat,
{
    if n > 0 && n <= children.len() {
        lemma_walk_children_paths(children, (n - 1) as nat, value, path, ids);
        lemma_walk_child_paths(children[n - 1].0, children[n - 1].1, value, path, ids);
        lemma_below_both(
            walk_children(children, (n - 1) as nat, value, path, ids),
            walk_child(children[n - 1].0, children[n - 1].1, value, path, ids),
            path,
        );
    }
}

proof fn lemma_walk_child_paths(
    key: Seq<char>,
    child: Plan,
    value: Json,
    path: Seq<char>,
    ids: Identity,
)
    ensures
        all_below(walk_child(key, child, value, path, ids), path),
    decreases child, 2nat, 0nat,
{
    if key == wildcard_key() {
        match value {
            Json::Array(items) => {
                lemma_walk_elements_paths(child, items, items.len(), path, ids);
            },
            _ => {},
        }
    } else {
        match value.get(key) {
            Some(next) => {
                let longer = member_path(path, key);
                lemma_walk_paths(child, next, longer, ids);
                assert(path.is_prefix_of(longer)) by {
                    assert(path =~= longer.subrange(0, path.len() as int));
                }
                lemma_below_longer(walk(child, next, longer, ids), longer, path);
            },
            None => {},
        }
    }
}

/// The records of the elements of an array stand under the concrete
/// path of the array, each under that of its element.
pub proof fn lemma_walk_elements_paths(
    child: Plan,
    items: Seq<Json>,
    n: nat,
    path: Seq<char>,
    ids: Identity,
)
    ensures
        all_below(walk_elements(child, items, n, path, ids), path),
        forall|i: int|
            0 <= i < n && n <= items.len() ==> all_below(
                #[trigger] walk(child, items[i], element_path(path, i as nat), ids),
                element_path(path, i as nat),
            ),
    decreases child, 1nat, n,
{
    if n > 0 && n <= items.len() {
        lemma_walk_elements_paths(child, items, (n - 1) as nat, path, ids);
        let longer = element_path(path, (n - 1) as nat);
        lemma_walk_paths(child, items[n - 1], longer, ids);
        assert(path.is_prefix_of(longer)) by {
            assert(path =~= longer.subrange(0, path.len() as int));
        }
        lemma_below_longer(walk(child, items[n - 1], longer, ids), longer, path);
        lemma_below_both(
            walk_elements(child, items, (n - 1) as nat, path, ids),
            walk(child, items[n - 1], longer, ids),
            path,
        );
    }
}

/// Compiler determinism: two plans compiled from the same specifications
/// yield the same records, in the same order, from any document.
pub proof fn lemma_compile_deterministic(
    first: PatternTrie,
    second: PatternTrie,
    specs: Seq<Seq<Seq<char>>>,
    schema: Set<Seq<char>>,
    value: Json,
    ids: Identity,
)
    requires
        first@ == compiled(specs, schema),
        second@ == compiled(specs, schema),
    ensures
        walk(first@, value, Seq::empty(), ids) == walk(second@, value, Seq::empty(), ids),
{
}

/// The records of the first `n` elements of an array that stands at
/// `path`, each taken whole: one for each element.
pub open spec fn whole_element_records(
    items: Seq<Json>,
    n: nat,
    path: Seq<char>,
    label: Seq<char>,
    ids: Identity,
) -> Seq<Record>
    decreases n,
{
    if n == 0 || n > items.len() {
        Seq::empty()
    } else {
        whole_element_records(items, (n - 1) as nat, path, label, ids).push(
            record_at(ids, label, element_path(path, (n - 1) as nat), items[n - 1]),
        )
    }
}

proof fn lemma_whole_elements(
    leaf: Plan,
    items: Seq<Json>,
    n: nat,
    path: Seq<char>,
    label: Seq<char>,
    ids: Identity,
)
    requires
        n <= items.len(),
        leaf == (Plan { children: Seq::empty(), terminal: Some(label) }),
    ensures
        walk_elements(leaf, items, n, path, ids) == whole_element_records(
            items,
            n,
            path,
            label,
            ids,
        ),
        whole_element_records(items, n, path, label, ids).len() == n,
    decreases n,
{
    if n > 0 {
        lemma_whole_elements(leaf, items, (n - 1) as nat, path, label, ids);
        let here = element_path(path, (n - 1) as nat);
        let v = items[n - 1];
        assert(walk_children(leaf.children, 0, v, here, ids) == Seq::<Record>::empty());
        assert(walk(leaf, v, here, ids) =~= seq![record_at(ids, label, here, v)]);
        assert(walk_elements(leaf, items, n, path, ids) =~= whole_element_records(
            items,
            n,
            path,
            label,
            ids,
        ));
    }
}

/// Array expansion, the elements themselves: where `array` is a
/// registered array path and the document holds an array of `k` elements
/// there, the specification `array` yields exactly `k` records, one for
/// each element in order, each under the concrete path `array[i]`.
pub proof fn lemma_array_elements(
    array: Seq<char>,
    schema: Set<Seq<char>>,
    document: Json,
    items: Seq<Json>,
    ids: Identity,
)
    requires
        schema.contains(array),
        array != wildcard_key(),
        document.get(array) == Some(Json::Array(items)),
    ensures
        walk(compiled(seq![seq![array]], schema), document, Seq::empty(), ids)
            == whole_element_records(items, items.len(), array, array, ids),
        whole_element_records(items, items.len(), array, array, ids).len() == items.len(),
{
    let segments = seq![array];
    let specs = seq![segments];
    let leaf = Plan { children: Seq::empty(), terminal: Some(array) };
    let inner = Plan { children: seq![(wildcard_key(), leaf)], terminal: None };
    let root = Plan { children: seq![(array, inner)], terminal: None };
    let nothing = Seq::<Record>::empty();
    assert(compiled(specs, schema) == root) by {
        reveal_with_fuel(crate::trie::compiled_prefix, 2);
        reveal_with_fuel(Plan::with_path, 2);
        reveal_with_fuel(crate::trie::child_position, 2);
        reveal_with_fuel(joined, 2);
        assert(specs[0] == segments);
        assert(segments.take(1) =~= segments);
        assert(joined(segments.take(1), seq!['.']) == array);
        let empty = empty_plan();
        assert(empty.position(array) is None);
        assert(empty.position(wildcard_key()) is None);
        assert(empty.with_path(segments, 1, schema, array) == leaf);
        assert(empty.with_child(wildcard_key(), leaf).children =~= inner.children);
        assert(empty.with_child(array, inner).children =~= root.children);
        assert(empty.with_path(segments, 0, schema, array) == root);
    }
    let value = Json::Array(items);
    assert(walk(root, document, Seq::empty(), ids) =~= walk_elements(
        leaf,
        items,
        items.len(),
        array,
        ids,
    )) by {
        assert(walk_children(root.children, 0, document, Seq::empty(), ids) == nothing);
        assert(walk_children(root.children, 1, document, Seq::empty(), ids) =~= walk_child(
            array,
            inner,
            document,
            Seq::empty(),
            ids,
        ));
        assert(member_path(Seq::empty(), array) == array);
        assert(walk_children(inner.children, 0, value, array, ids) == nothing);
        assert(walk_children(inner.children, 1, value, array, ids) =~= walk_child(
            wildcard_key(),
            leaf,
            value,
            array,
            ids,
        ));
        assert(walk(inner, value, array, ids) =~= walk_elements(
            leaf,
            items,
            items.len(),
            array,
            ids,
        ));
    }
    lemma_whole_elements(leaf, items, items.len(), array, array, ids);
}

/// The records of the member `field` of the first `n` elements of an
/// array that stands at `path`: one for each element that has the member.
pub open spec fn element_records(
    items: Seq<Json>,
    n: nat,
    path: Seq<char>,
    field: Seq<char>,
    label: Seq<char>,
    ids: Identity,
) -> Seq<Record>
    decreases n,
{
    if n == 0 || n > items.len() {
        Seq::empty()
    } else {
        let earlier = element_records(items, (n - 1) as nat, path, field, label, ids);
        match items[n - 1].get(field) {
            Some(v) => earlier.push(
                record_at(
                    ids,
                    label,
                    element_path(path, (n - 1) as nat) + seq!['.'] + field,
                    v,
                ),
            ),
            None => earlier,
        }
    }
}

proof fn lemma_leaf_elements(
    below: Plan,
    items: Seq<Json>,
    n: nat,
    path: Seq<char>,
    field: Seq<char>,
    label: Seq<char>,
    ids: Identity,
)
    requires
        n <= items.len(),
        field != wildcard_key(),
        below.terminal is None,
        below.children == seq![(field, Plan { children: Seq::empty(), terminal: Some(label) })],
    ensures
        walk_elements(below, items, n, path, ids) == element_records(
            items,
            n,
            path,
            field,
            label,
            ids,
        ),
    decreases n,
{
    if n > 0 {
        lemma_leaf_elements(below, items, (n - 1) as nat, path, field, label, ids);
        let leaf = Plan { children: Seq::empty(), terminal: Some(label) };
        let here = element_path(path, (n - 1) as nat);
        let v = items[n - 1];
        assert(here.len() > 0);
        assert(walk_children(below.children, 0, v, here, ids) == Seq::<Record>::empty());
        assert(walk(below, v, here, ids) =~= walk_child(field, leaf, v, here, ids)) by {
            assert(walk_children(below.children, 1, v, here, ids) =~= walk_child(
                field,
                leaf,
                v,
                here,
                ids,
            ));
        }
        match v.get(field) {
            Some(x) => {
                let there = member_path(here, field);
                assert(walk_children(leaf.children, 0, x, there, ids) == Seq::<Record>::empty());
                assert(walk(leaf, x, there, ids) =~= seq![record_at(ids, label, there, x)]);
                assert(walk_elements(below, items, n, path, ids) =~= element_records(
                    items,
                    n,
                    path,
                    field,
                    label,
                    ids,
                ));
            },
            None => {
                assert(walk_elements(below, items, n, path, ids) =~= element_records(
                    items,
                    n,
                    path,
                    field,
                    label,
                    ids,
                ));
            },
        }
    }
}

/// Array expansion: where `array` is a registered array path and the
/// document holds an array of `k` elements there, the specification
/// `array.field` yields one record for each element that has the member
/// `field`, in the order of the elements, each under the concrete path
/// `array[i].field` of its element: `k` records where every element has
/// it.
pub proof fn lemma_array_expansion(
    array: Seq<char>,
    field: Seq<char>,
    schema: Set<Seq<char>>,
    document: Json,
    items: Seq<Json>,
    ids: Identity,
)
    requires
        schema.contains(array),
        !schema.contains(array + seq!['.'] + field),
        array != wildcard_key(),
        field != wildcard_key(),
        array.len() > 0,
        document.get(array) == Some(Json::Array(items)),
    ensures
        walk(compiled(seq![seq![array, field]], schema), document, Seq::empty(), ids)
            == element_records(items, items.len(), array, field, array, ids),
        element_records(items, items.len(), array, field, array, ids).len() <= items.len(),
        (forall|i: int| 0 <= i < items.len() ==> (#[trigger] items[i]).get(field) is Some)
            ==> element_records(items, items.len(), array, field, array, ids).len() == items.len(),
{
    let segments = seq![array, field];
    let specs = seq![segments];
    let leaf = Plan { children: Seq::empty(), terminal: Some(array) };
    let below = Plan { children: seq![(field, leaf)], terminal: None };
    let inner = Plan { children: seq![(wildcard_key(), below)], terminal: None };
    let root = Plan { children: seq![(array, inner)], terminal: None };
    let nothing = Seq::<Record>::empty();
    assert(compiled(specs, schema) == root) by {
        reveal_with_fuel(crate::trie::compiled_prefix, 2);
        reveal_with_fuel(Plan::with_path, 3);
        reveal_with_fuel(crate::trie::child_position, 2);
        reveal_with_fuel(joined, 3);
        assert(specs[0] == segments);
        assert(segments.take(1) =~= seq![array]);
        assert(segments.take(2) =~= segments);
        assert(segments.drop_last() =~= seq![array]);
        assert(joined(segments.take(1), seq!['.']) == array);
        assert(joined(segments.take(2), seq!['.']) == array + seq!['.'] + field);
        let empty = empty_plan();
        assert(empty.position(field) is None);
        assert(empty.position(array) is None);
        assert(empty.position(wildcard_key()) is None);
        assert(empty.with_path(segments, 2, schema, array) == leaf);
        assert(empty.with_child(field, leaf).children =~= below.children);
        assert(empty.with_path(segments, 1, schema, array) == below);
        assert(empty.with_child(wildcard_key(), below).children =~= inner.children);
        assert(empty.with_child(array, inner).children =~= root.children);
        assert(empty.with_path(segments, 0, schema, array) == root);
    }
    let value = Json::Array(items);
    assert(walk(root, document, Seq::empty(), ids) =~= walk_elements(
        below,
        items,
        items.len(),
        array,
        ids,
    )) by {
        assert(walk_children(root.children, 0, document, Seq::empty(), ids) == nothing);
        assert(walk_children(root.children, 1, document, Seq::empty(), ids) =~= walk_child(
            array,
            inner,
            document,
            Seq::empty(),
            ids,
        ));
        assert(member_path(Seq::empty(), array) == array);
        assert(walk_children(inner.children, 0, value, array, ids) == nothing);
        assert(walk_children(inner.children, 1, value, array, ids) =~= walk_child(
            wildcard_key(),
            below,
            value,
            array,
            ids,
        ));
        assert(walk(inner, value, array, ids) =~= walk_elements(
            below,
            items,
            items.len(),
            array,
            ids,
        ));
    }
    lemma_leaf_elements(below, items, items.len(), array, field, array, ids);
    lemma_element_records_count(items, items.len(), array, field, array, ids);
}

proof fn lemma_element_records_count(
    items: Seq<Json>,
    n: nat,
    path: Seq<char>,
    field: Seq<char>,
    label: Seq<char>,
    ids: Identity,
)
    requires
        n <= items.len(),
    ensures
        element_records(items, n, path, field, label, ids).len() <= n,
        (forall|i: int| 0 <= i < n ==> (#[trigger] items[i]).get(field) is Some)
            ==> element_records(items, n, path, field, label, ids).len() == n,
    decreases n,
{
    if n > 0 {
        lemma_element_records_count(items, (n - 1) as nat, path, field, label, ids);
    }
}

} // verus!
