//! The path compiler: requested field paths become one shared prefix trie,
//! with a wildcard step wherever the path walked so far is an array path.

use crate::schema::Schema;
use crate::text::{joined, nested_texts, push_char, same_text, split, split_on, texts, trim, trimmed};
use vstd::prelude::*;
use vstd::string::StringExecFns;

verus! {

/// A compiled traversal plan as a mathematical value: the children in the
/// order in which they were first requested, and the label of the field
/// that ends here, if one does.
pub ghost struct Plan {
    pub children: Seq<(Seq<char>, Plan)>,
    pub terminal: Option<Seq<char>>,
}

/// One node of the trie. A child under the key `[]` is the wildcard step
/// into the elements of an array.
pub struct TrieNode {
    pub children: Vec<(String, TrieNode)>,
    pub terminating_pattern: Option<String>,
}

/// The compiled plan for a set of field specifications.
pub struct PatternTrie {
    pub root: TrieNode,
}

/// A field specification that cannot be compiled.
#[derive(PartialEq, Eq, Structural, Debug, Clone, Copy)]
pub enum CompileError {
    /// The specification at this position has no segments.
    EmptySpec { index: usize },
}

/// The mathematical value of a node.
pub open spec fn node_view(node: TrieNode) -> Plan
    decreases node, 0nat,
{
    Plan {
        children: children_view(node.children@),
        terminal: match node.terminating_pattern {
            Some(label) => Some(label@),
            None => None,
        },
    }
}

/// The mathematical value of a list of children.
pub open spec fn children_view(children: Seq<(String, TrieNode)>) -> Seq<(Seq<char>, Plan)>
    decreases children, 1nat,
{
    Seq::new(
        children.len(),
        |i: int|
            if 0 <= i < children.len() {
                (children[i].0@, node_view(children[i].1))
            } else {
                (Seq::empty(), empty_plan())
            },
    )
}

impl View for TrieNode {
    type V = Plan;

    open spec fn view(&self) -> Plan {
        node_view(*self)
    }
}

impl View for PatternTrie {
    type V = Plan;

    open spec fn view(&self) -> Plan {
        node_view(self.root)
    }
}

/// The key of the wildcard step.
pub open spec fn wildcard_key() -> Seq<char> {
    seq!['[', ']']
}

/// A plan that requests nothing.
pub open spec fn empty_plan() -> Plan {
    Plan { children: Seq::empty(), terminal: None }
}

/// The position of the first child under `key` among the first `n`.
pub open spec fn child_position(children: Seq<(Seq<char>, Plan)>, n: nat, key: Seq<char>) -> Option<
    int,
>
    decreases n,
{
    if n == 0 || n > children.len() {
        None
    } else {
        match child_position(children, (n - 1) as nat, key) {
            Some(i) => Some(i),
            None => if children[n - 1].0 == key {
                Some(n - 1)
            } else {
                None
            },
        }
    }
}

impl Plan {
    /// The position of the child under `key`.
    pub open spec fn position(self, key: Seq<char>) -> Option<int> {
        child_position(self.children, self.children.len(), key)
    }

    /// The child under `key`, or an empty plan where there is none yet.
    pub open spec fn child_or_empty(self, key: Seq<char>) -> Plan {
        match self.position(key) {
            Some(i) => self.children[i].1,
            None => empty_plan(),
        }
    }

    /// The plan with `child` under `key`: in place of the child that was
    /// there, or behind all the others.
    pub open spec fn with_child(self, key: Seq<char>, child: Plan) -> Plan {
        match self.position(key) {
            Some(i) => Plan { children: self.children.update(i, (key, child)), terminal: self.terminal },
            None => Plan { children: self.children.push((key, child)), terminal: self.terminal },
        }
    }

    /// The plan with the path `segments[from..]` added below this node,
    /// which stands at the end of `segments[..from]`.
    pub open spec fn with_path(
        self,
        segments: Seq<Seq<char>>,
        from: nat,
        schema: Set<Seq<char>>,
        label: Seq<char>,
    ) -> Plan
        decreases segments.len() - from,
    {
        if from >= segments.len() {
            Plan { children: self.children, terminal: Some(label) }
        } else {
            let key = segments[from as int];
            let child = self.child_or_empty(key);
            let walked = joined(segments.take(from + 1 as int), seq!['.']);
            if schema.contains(walked) {
                let below = child.child_or_empty(wildcard_key()).with_path(
                    segments,
                    from + 1,
                    schema,
                    label,
                );
                self.with_child(key, child.with_child(wildcard_key(), below))
            } else {
                self.with_child(key, child.with_path(segments, from + 1, schema, label))
            }
        }
    }
}

/// The plan for the first `n` of `specs`, each labelled by its first segment.
pub open spec fn compiled_prefix(specs: Seq<Seq<Seq<char>>>, n: nat, schema: Set<Seq<char>>) -> Plan
    decreases n,
{
    if n == 0 || n > specs.len() {
        empty_plan()
    } else {
        compiled_prefix(specs, (n - 1) as nat, schema).with_path(
            specs[n - 1],
            0,
            schema,
            specs[n - 1][0],
        )
    }
}

/// The plan for `specs`.
pub open spec fn compiled(specs: Seq<Seq<Seq<char>>>, schema: Set<Seq<char>>) -> Plan {
    compiled_prefix(specs, specs.len(), schema)
}

/// The position of the first specification without segments, if any.
pub open spec fn first_empty_spec(specs: Seq<Seq<Seq<char>>>, n: nat) -> Option<int>
    decreases n,
{
    if n == 0 || n > specs.len() {
        None
    } else {
        match first_empty_spec(specs, (n - 1) as nat) {
            Some(i) => Some(i),
            None => if specs[n - 1].len() == 0 {
                Some(n - 1)
            } else {
                None
            },
        }
    }
}

/// The segments of one dotted path, each trimmed.
pub open spec fn parsed_spec(spec: Seq<char>) -> Seq<Seq<char>> {
    let parts = split_on(trimmed(spec), '.');
    Seq::new(parts.len(), |i: int| trimmed(parts[i]))
}

/// The specifications in a comma-separated list of dotted paths.
pub open spec fn parsed_specs(field_specs: Seq<char>) -> Seq<Seq<Seq<char>>> {
    let items = split_on(field_specs, ',');
    Seq::new(items.len(), |i: int| parsed_spec(items[i]))
}

proof fn lemma_position_found(children: Seq<(Seq<char>, Plan)>, n: nat, key: Seq<char>)
    requires
        n <= children.len(),
    ensures
        match child_position(children, n, key) {
            Some(i) => 0 <= i < n && children[i].0 == key && forall|k: int|
                0 <= k < i ==> (#[trigger] children[k]).0 != key,
            None => forall|k: int| 0 <= k < n ==> (#[trigger] children[k]).0 != key,
        },
    decreases n,
{
    if n > 0 {
        lemma_position_found(children, (n - 1) as nat, key);
    }
}

proof fn lemma_position_is(children: Seq<(Seq<char>, Plan)>, n: nat, key: Seq<char>, i: int)
    requires
        0 <= i < n <= children.len(),
        children[i].0 == key,
        forall|k: int| 0 <= k < i ==> (#[trigger] children[k]).0 != key,
    ensures
        child_position(children, n, key) == Some(i),
    decreases n,
{
    lemma_position_found(children, (n - 1) as nat, key);
    if n - 1 > i {
        lemma_position_is(children, (n - 1) as nat, key, i);
    }
}

/// Putting a child under a key twice leaves what was put last, at the place
/// that the first put gave it.
pub proof fn lemma_with_child_twice(plan: Plan, key: Seq<char>, first: Plan, second: Plan)
    ensures
        plan.with_child(key, first).with_child(key, second) == plan.with_child(key, second),
        plan.with_child(key, first).child_or_empty(key) == first,
        plan.with_child(key, first).position(key) == match plan.position(key) {
            Some(i) => Some(i),
            None => Some(plan.children.len() as int),
        },
{
    let n = plan.children.len();
    lemma_position_found(plan.children, n, key);
    let once = plan.with_child(key, first);
    match plan.position(key) {
        Some(i) => {
            assert forall|k: int| 0 <= k < i implies (#[trigger] once.children[k]).0 != key by {
                assert(once.children[k] == plan.children[k]);
            }
            lemma_position_is(once.children, n, key, i);
            assert(once.with_child(key, second).children =~= plan.with_child(key, second).children);
        },
        None => {
            assert forall|k: int| 0 <= k < n implies (#[trigger] once.children[k]).0 != key by {
                assert(once.children[k] == plan.children[k]);
            }
            lemma_position_is(once.children, n + 1, key, n as int);
            assert(once.with_child(key, second).children =~= plan.with_child(key, second).children);
        },
    }
}

/// Whether no two children stand under the same key, here and below.
pub open spec fn well_keyed(plan: Plan) -> bool
    decreases plan,
{
    &&& forall|i: int, j: int|
        0 <= i < plan.children.len() && 0 <= j < plan.children.len() && i != j ==> (
        #[trigger] plan.children[i]).0 != (#[trigger] plan.children[j]).0
    &&& forall|i: int| 0 <= i < plan.children.len() ==> well_keyed((#[trigger] plan.children[i]).1)
}

proof fn lemma_with_child_well_keyed(plan: Plan, key: Seq<char>, child: Plan)
    requires
        well_keyed(plan),
        well_keyed(child),
    ensures
        well_keyed(plan.with_child(key, child)),
        well_keyed(plan.child_or_empty(key)),
{
    lemma_position_found(plan.children, plan.children.len(), key);
    let next = plan.with_child(key, child);
    match plan.position(key) {
        Some(at) => {
            assert forall|i: int, j: int|
                0 <= i < next.children.len() && 0 <= j < next.children.len() && i
                    != j implies (#[trigger] next.children[i]).0 != (#[trigger] next.children[j]).0 by {
                assert(next.children[i].0 == plan.children[i].0);
                assert(next.children[j].0 == plan.children[j].0);
            }
            assert forall|i: int| 0 <= i < next.children.len() implies well_keyed(
                (#[trigger] next.children[i]).1,
            ) by {
                if i != at {
                    assert(next.children[i] == plan.children[i]);
                }
            }
        },
        None => {
            assert forall|i: int, j: int|
                0 <= i < next.children.len() && 0 <= j < next.children.len() && i
                    != j implies (#[trigger] next.children[i]).0 != (#[trigger] next.children[j]).0 by {
                if i < plan.children.len() {
                    assert(next.children[i] == plan.children[i]);
                }
                if j < plan.children.len() {
                    assert(next.children[j] == plan.children[j]);
                }
            }
            assert forall|i: int| 0 <= i < next.children.len() implies well_keyed(
                (#[trigger] next.children[i]).1,
            ) by {
                if i < plan.children.len() {
                    assert(next.children[i] == plan.children[i]);
                }
            }
        },
    }
}

proof fn lemma_with_path_well_keyed(
    plan: Plan,
    segments: Seq<Seq<char>>,
    from: nat,
    schema: Set<Seq<char>>,
    label: Seq<char>,
)
    requires
        well_keyed(plan),
    ensures
        well_keyed(plan.with_path(segments, from, schema, label)),
    decreases segments.len() - from,
{
    if from < segments.len() {
        let key = segments[from as int];
        let child = plan.child_or_empty(key);
        lemma_with_child_well_keyed(plan, key, empty_plan());
        let walked = joined(segments.take(from + 1 as int), seq!['.']);
        if schema.contains(walked) {
            let inner = child.child_or_empty(wildcard_key());
            lemma_with_child_well_keyed(child, wildcard_key(), empty_plan());
            lemma_with_path_well_keyed(inner, segments, from + 1, schema, label);
            let below = inner.with_path(segments, from + 1, schema, label);
            lemma_with_child_well_keyed(child, wildcard_key(), below);
            lemma_with_child_well_keyed(plan, key, child.with_child(wildcard_key(), below));
        } else {
            lemma_with_path_well_keyed(child, segments, from + 1, schema, label);
            lemma_with_child_well_keyed(
                plan,
                key,
                child.with_path(segments, from + 1, schema, label),
            );
        }
    }
}

proof fn lemma_compiled_prefix_well_keyed(
    specs: Seq<Seq<Seq<char>>>,
    n: nat,
    schema: Set<Seq<char>>,
)
    ensures
        well_keyed(compiled_prefix(specs, n, schema)),
    decreases n,
{
    if n > 0 && n <= specs.len() {
        lemma_compiled_prefix_well_keyed(specs, (n - 1) as nat, schema);
        lemma_with_path_well_keyed(
            compiled_prefix(specs, (n - 1) as nat, schema),
            specs[n - 1],
            0,
            schema,
            specs[n - 1][0],
        );
    }
}

/// Shared prefixes share nodes: in a compiled plan no node has two
/// children under the same key, however the specifications overlap.
pub proof fn lemma_compiled_plan_shares_prefixes(
    specs: Seq<Seq<Seq<char>>>,
    schema: Set<Seq<char>>,
)
    ensures
        well_keyed(compiled(specs, schema)),
{
    lemma_compiled_prefix_well_keyed(specs, specs.len(), schema);
}

impl TrieNode {
    /// A node without children or label.
    pub fn new() -> (node: TrieNode)
        ensures
            node@ == empty_plan(),
    {
        let node = TrieNode { children: Vec::new(), terminating_pattern: None };
        assert(node@.children =~= Seq::empty());
        node
    }

    /// The position of the child under `key`.
    pub fn position(&self, key: &str) -> (r: Option<usize>)
        ensures
            match r {
                Some(i) => self@.position(key@) == Some(i as int) && i < self.children.len(),
                None => self@.position(key@) is None,
            },
    {
        let n: usize = self.children.len();
        let mut i: usize = 0;
        while i < n
            invariant
                n == self.children.len(),
                0 <= i <= n,
                forall|k: int| 0 <= k < i ==> (#[trigger] self@.children[k]).0 != key@,
            decreases n - i,
        {
            if same_text(self.children[i].0.as_str(), key) {
                proof {
                    lemma_position_is(self@.children, n as nat, key@, i as int);
                }
                return Some(i);
            }
            i += 1;
        }
        proof {
            lemma_position_found(self@.children, n as nat, key@);
        }
        None
    }

    /// Makes sure there is a child under `key`, and says where it stands.
    fn slot(&mut self, key: &str) -> (i: usize)
        ensures
            final(self)@ == old(self)@.with_child(key@, old(self)@.child_or_empty(key@)),
            final(self)@.position(key@) == Some(i as int),
            i < final(self).children.len(),
            final(self).children@[i as int].0@ == key@,
            final(self).children@[i as int].1@ == old(self)@.child_or_empty(key@),
    {
        let ghost before = self@;
        proof {
            lemma_with_child_twice(before, key@, before.child_or_empty(key@), empty_plan());
        }
        match self.position(key) {
            Some(i) => {
                proof {
                    lemma_position_found(before.children, before.children.len(), key@);
                    assert(before.with_child(key@, before.child_or_empty(key@)).children
                        =~= before.children);
                }
                i
            },
            None => {
                let i: usize = self.children.len();
                let child = TrieNode::new();
                self.children.push((String::from_str(key), child));
                proof {
                    assert(self@.children =~= before.children.push((key@, empty_plan())));
                }
                i
            },
        }
    }

    /// Adds the path `spec[from..]` below this node, which stands at the
    /// end of `spec[..from]`; `walked` is that part of the path, dotted.
    fn add_path(
        &mut self,
        spec: &Vec<String>,
        from: usize,
        walked: &String,
        schema: &Schema,
        label: &String,
    )
        requires
            from <= spec.len(),
            walked@ == joined(texts(spec@).take(from as int), seq!['.']),
        ensures
            final(self)@ == old(self)@.with_path(texts(spec@), from as nat, schema@, label@),
        decreases spec.len() - from,
    {
        let ghost before = self@;
        let ghost segments = texts(spec@);
        if from >= spec.len() {
            self.terminating_pattern = Some(label.clone());
            return ;
        }
        let key: &String = &spec[from];
        let mut next: String = walked.clone();
        if from > 0 {
            push_char(&mut next, '.');
        }
        next.append(key.as_str());
        proof {
            let upto = segments.take(from + 1);
            assert(upto.drop_last() =~= segments.take(from as int));
            assert(upto.last() == key@);
            assert(segments.take(0) =~= Seq::<Seq<char>>::empty());
            assert(next@ =~= joined(upto, seq!['.']));
        }
        let i: usize = self.slot(key.as_str());
        let ghost child = before.child_or_empty(key@);
        let ghost slotted = self@;
        if schema.is_array_path(next.as_str()) {
            let j: usize = self.children[i].1.slot("[]");
            proof {
                reveal_strlit("[]");
                assert("[]"@ =~= wildcard_key());
            }
            let ghost inner = self.children@[i as int].1@;
            self.children[i].1.children[j].1.add_path(spec, from + 1, &next, schema, label);
            proof {
                let below = child.child_or_empty(wildcard_key()).with_path(
                    segments,
                    (from + 1) as nat,
                    schema@,
                    label@,
                );
                let new_inner = self.children@[i as int].1@;
                assert(new_inner.children =~= inner.children.update(
                    j as int,
                    (wildcard_key(), below),
                ));
                assert(new_inner == inner.with_child(wildcard_key(), below));
                lemma_with_child_twice(
                    child,
                    wildcard_key(),
                    child.child_or_empty(wildcard_key()),
                    below,
                );
                assert(new_inner == child.with_child(wildcard_key(), below));
                assert(self@.children =~= slotted.children.update(i as int, (key@, new_inner)));
                assert(self@ == slotted.with_child(key@, new_inner));
                lemma_with_child_twice(before, key@, child, new_inner);
            }
        } else {
            self.children[i].1.add_path(spec, from + 1, &next, schema, label);
            proof {
                let new_child = child.with_path(segments, (from + 1) as nat, schema@, label@);
                assert(self@.children =~= slotted.children.update(i as int, (key@, new_child)));
                assert(self@ == slotted.with_child(key@, new_child));
                lemma_with_child_twice(before, key@, child, new_child);
            }
        }
    }
}

impl PatternTrie {
    /// Compiles the field specifications into one plan. Each specification
    /// is a path of segments and is labelled by its first segment; one
    /// without segments is rejected.
    pub fn new(field_specs: &Vec<Vec<String>>, schema: &Schema) -> (r: Result<
        PatternTrie,
        CompileError,
    >)
        ensures
            match r {
                Ok(trie) => first_empty_spec(
                    nested_texts(field_specs@),
                    field_specs@.len(),
                ) is None && trie@ == compiled(nested_texts(field_specs@), schema@),
                Err(CompileError::EmptySpec { index }) => first_empty_spec(
                    nested_texts(field_specs@),
                    field_specs@.len(),
                ) == Some(index as int),
            },
    {
        let ghost specs = nested_texts(field_specs@);
        let mut root = TrieNode::new();
        let n: usize = field_specs.len();
        let mut i: usize = 0;
        while i < n
            invariant
                n == field_specs.len(),
                0 <= i <= n,
                specs == nested_texts(field_specs@),
                first_empty_spec(specs, i as nat) is None,
                root@ == compiled_prefix(specs, i as nat, schema@),
            decreases n - i,
        {
            let spec: &Vec<String> = &field_specs[i];
            assert(specs[i as int] == texts(spec@));
            if spec.len() == 0 {
                proof {
                    lemma_first_empty_spec_stays(specs, (i + 1) as nat, n as nat);
                }
                return Err(CompileError::EmptySpec { index: i });
            }
            let walked = String::new();
            proof {
                assert(texts(spec@).take(0) =~= Seq::<Seq<char>>::empty());
            }
            root.add_path(spec, 0, &walked, schema, &spec[0]);
            i += 1;
        }
        Ok(PatternTrie { root })
    }
}

proof fn lemma_first_empty_spec_stays(specs: Seq<Seq<Seq<char>>>, m: nat, n: nat)
    requires
        m <= n <= specs.len(),
        first_empty_spec(specs, m) is Some,
    ensures
        first_empty_spec(specs, n) == first_empty_spec(specs, m),
    decreases n,
{
    if n > m {
        lemma_first_empty_spec_stays(specs, m, (n - 1) as nat);
    }
}

/// Reads a comma-separated list of dotted paths: each path and each of its
/// segments is trimmed.
pub fn parse_field_specifications(field_specs: &str) -> (specs: Vec<Vec<String>>)
    ensures
        nested_texts(specs@) == parsed_specs(field_specs@),
{
    let items = split(field_specs, ',');
    let ghost item_texts = split_on(field_specs@, ',');
    let mut specs: Vec<Vec<String>> = Vec::new();
    let n: usize = items.len();
    let mut i: usize = 0;
    while i < n
        invariant
            n == items.len(),
            0 <= i <= n,
            texts(items@) == item_texts,
            specs.len() == i,
            forall|k: int| 0 <= k < i ==> texts(#[trigger] specs@[k]@) == parsed_spec(item_texts[k]),
        decreases n - i,
    {
        let item = trim(items[i].as_str());
        let parts = split(item, '.');
        let ghost part_texts = split_on(item@, '.');
        assert(item_texts[i as int] == items@[i as int]@);
        let mut segments: Vec<String> = Vec::new();
        let m: usize = parts.len();
        let mut j: usize = 0;
        while j < m
            invariant
                m == parts.len(),
                0 <= j <= m,
                texts(parts@) == part_texts,
                segments.len() == j,
                forall|k: int| 0 <= k < j ==> (#[trigger] segments@[k])@ == trimmed(part_texts[k]),
            decreases m - j,
        {
            assert(part_texts[j as int] == parts@[j as int]@);
            segments.push(String::from_str(trim(parts[j].as_str())));
            j += 1;
        }
        assert(texts(segments@) =~= parsed_spec(item_texts[i as int]));
        specs.push(segments);
        i += 1;
    }
    assert(nested_texts(specs@) =~= parsed_specs(field_specs@));
    specs
}

} // verus!
