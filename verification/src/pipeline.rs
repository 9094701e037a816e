//! What a worker decides for each input line: which documents are
//! admitted, what they yield, and how the records are cut into batches.

use crate::extract::{records_view, walk, FieldData, Identity, Record};
use crate::filter::{
    category_allowed, path_exists, path_present, resolve, resolved, validate_field_value,
    value_matches,
};
use crate::json::{parsed_json, Json, JsonValue};
use crate::text::{is_blank, same_text, texts, trimmed};
use crate::trie::PatternTrie;
use vstd::prelude::*;
use vstd::string::StringExecFns;

verus! {

/// The text found at the path, if a string stands there.
pub open spec fn text_at(record: Json, path: Seq<Seq<char>>) -> Option<Seq<char>> {
    match resolved(record, path, 0) {
        Some(v) => v.as_text(),
        None => None,
    }
}

/// Where the identifier of the owning provider stands.
pub open spec fn provider_path() -> Seq<Seq<char>> {
    seq!["relationships"@, "provider"@, "data"@, "id"@]
}

/// Where the identifier of the owning client stands.
pub open spec fn client_path() -> Seq<Seq<char>> {
    seq!["relationships"@, "client"@, "data"@, "id"@]
}

/// Where the identifier of a document stands when it has no `id` member.
pub open spec fn doi_path() -> Seq<Seq<char>> {
    seq!["attributes"@, "doi"@]
}

/// The identifier of a document: its `id`, or else its `attributes.doi`.
pub open spec fn doi_of(record: Json) -> Option<Seq<char>> {
    match text_at(record, seq!["id"@]) {
        Some(id) => Some(id),
        None => text_at(record, doi_path()),
    }
}

/// The identity of a document, where it names its provider, its client and
/// itself, and the provider and client filters let it pass.
pub open spec fn routed_identity(
    record: Json,
    filter_provider: Option<String>,
    filter_client: Option<String>,
) -> Option<Identity> {
    match (text_at(record, provider_path()), text_at(record, client_path()), doi_of(record)) {
        (Some(provider_id), Some(client_id), Some(doi)) => {
            if (filter_provider matches Some(p) && p@ != provider_id) || (filter_client matches Some(
                c,
            ) && c@ != client_id) {
                None
            } else {
                Some(Identity { doi, provider_id, client_id })
            }
        },
        _ => None,
    }
}

/// The attributes of a document; null where it has none.
pub open spec fn attributes_of(record: Json) -> Json {
    match record.get("attributes"@) {
        Some(attributes) => attributes,
        None => Json::Null,
    }
}

/// Whether every required value is found in the document.
pub open spec fn required_values_hold(
    attributes: Json,
    filters: Seq<(Vec<String>, String)>,
) -> bool {
    forall|i: int|
        0 <= i < filters.len() ==> value_matches(
            attributes,
            texts((#[trigger] filters[i]).0@),
            0,
            filters[i].1@,
        )
}

/// Whether every excluded path is absent from the document, or empty.
pub open spec fn exclusions_hold(attributes: Json, paths: Seq<Vec<String>>) -> bool {
    forall|i: int| 0 <= i < paths.len() ==> !path_present(attributes, texts((#[trigger] paths[i])@))
}

/// The labels of the records, in their order.
pub open spec fn labels_of(records: Seq<Record>) -> Seq<Seq<char>> {
    Seq::new(records.len(), |i: int| records[i].field_name)
}

/// The completeness gate: a result is kept if it is not empty and shows at
/// least as many distinct labels as were requested. The labels are
/// counted, not compared.
pub open spec fn complete(records: Seq<Record>, required: Seq<Seq<char>>) -> bool {
    records.len() > 0 && labels_of(records).to_set().len() >= required.to_set().len()
}

/// What one input line turned out to be.
pub enum LineOutcome {
    /// Nothing but whitespace: passed over.
    Blank,
    /// No JSON document: skipped.
    Malformed,
    /// A document, with the records that it yields.
    Records(Vec<FieldData>),
}

/// What runs on each document: the compiled plan, the filters, and the
/// size of a batch.
pub struct JsonlProcessor {
    pub trie: PatternTrie,
    pub filter_provider: Option<String>,
    pub filter_client: Option<String>,
    pub filter_resource_types: Option<Vec<String>>,
    pub required_fields: Option<Vec<String>>,
    pub field_value_filters: Vec<(Vec<String>, String)>,
    pub exclusion_filters: Vec<Vec<String>>,
    pub batch_size: usize,
}

impl JsonlProcessor {
    /// Whether the category allow-list, if there is one, admits the document.
    pub open spec fn category_admits(&self, attributes: Json) -> bool {
        match self.filter_resource_types {
            Some(allowed) => category_allowed(attributes, texts(allowed@).to_set()),
            None => true,
        }
    }

    /// Whether the filters on the attributes admit the document.
    pub open spec fn admits(&self, attributes: Json) -> bool {
        &&& !(attributes is Null)
        &&& self.category_admits(attributes)
        &&& required_values_hold(attributes, self.field_value_filters@)
        &&& exclusions_hold(attributes, self.exclusion_filters@)
    }

    /// The identity of the document, where it has one and the provider and
    /// client filters let it pass.
    pub open spec fn routed(&self, record: Json) -> Option<Identity> {
        routed_identity(record, self.filter_provider, self.filter_client)
    }

    /// The records that the plan yields, emptied where the completeness
    /// gate is set and not met.
    pub open spec fn gated(&self, extracted: Seq<Record>) -> Seq<Record> {
        match self.required_fields {
            Some(required) => if complete(extracted, texts(required@)) {
                extracted
            } else {
                Seq::empty()
            },
            None => extracted,
        }
    }

    /// The records of one parsed document.
    pub open spec fn document_records(&self, record: Json) -> Seq<Record> {
        let attributes = attributes_of(record);
        if !self.admits(attributes) {
            Seq::empty()
        } else {
            match self.routed(record) {
                Some(ids) => self.gated(walk(self.trie@, attributes, Seq::empty(), ids)),
                None => Seq::empty(),
            }
        }
    }

    /// The records of one input line: none for a blank line or one that is
    /// no JSON document.
    pub open spec fn line_records(&self, line: Seq<char>) -> Seq<Record> {
        if trimmed(line).len() == 0 {
            Seq::empty()
        } else {
            match parsed_json(line) {
                Some(record) => self.document_records(record),
                None => Seq::empty(),
            }
        }
    }
}

fn path_of_two(a: &str, b: &str) -> (path: Vec<String>)
    ensures
        texts(path@) == seq![a@, b@],
{
    let mut path: Vec<String> = Vec::new();
    path.push(String::from_str(a));
    path.push(String::from_str(b));
    assert(texts(path@) =~= seq![a@, b@]);
    path
}

fn path_of_four(a: &str, b: &str, c: &str, d: &str) -> (path: Vec<String>)
    ensures
        texts(path@) == seq![a@, b@, c@, d@],
{
    let mut path: Vec<String> = Vec::new();
    path.push(String::from_str(a));
    path.push(String::from_str(b));
    path.push(String::from_str(c));
    path.push(String::from_str(d));
    assert(texts(path@) =~= seq![a@, b@, c@, d@]);
    path
}

fn text_of(record: &JsonValue, path: &Vec<String>) -> (r: Option<String>)
    ensures
        match r {
            Some(t) => text_at(record@, texts(path@)) == Some(t@),
            None => text_at(record@, texts(path@)) is None,
        },
{
    match resolve(record, path) {
        Some(v) => match v.as_text() {
            Some(t) => Some(t.clone()),
            None => None,
        },
        None => None,
    }
}

/// The identifier of a document: its `id`, or else its `attributes.doi`.
pub fn extract_doi(record: &JsonValue) -> (r: Option<String>)
    ensures
        match r {
            Some(doi) => doi_of(record@) == Some(doi@),
            None => doi_of(record@) is None,
        },
{
    let mut id_path: Vec<String> = Vec::new();
    id_path.push(String::from_str("id"));
    assert(texts(id_path@) =~= seq!["id"@]);
    match text_of(record, &id_path) {
        Some(id) => Some(id),
        None => text_of(record, &path_of_two("attributes", "doi")),
    }
}

/// The identifier of the provider that owns the document.
pub fn extract_provider_id(record: &JsonValue) -> (r: Option<String>)
    ensures
        match r {
            Some(id) => text_at(record@, provider_path()) == Some(id@),
            None => text_at(record@, provider_path()) is None,
        },
{
    text_of(record, &path_of_four("relationships", "provider", "data", "id"))
}

/// The identifier of the client that owns the document.
pub fn extract_client_id(record: &JsonValue) -> (r: Option<String>)
    ensures
        match r {
            Some(id) => text_at(record@, client_path()) == Some(id@),
            None => text_at(record@, client_path()) is None,
        },
{
    text_of(record, &path_of_four("relationships", "client", "data", "id"))
}

/// The identity of a document: its identifier, provider and client, where
/// it names all three and the provider and client filters let it pass.
pub fn route_record(
    record: &JsonValue,
    filter_provider: &Option<String>,
    filter_client: &Option<String>,
) -> (r: Option<(String, String, String)>)
    ensures
        match r {
            Some(ids) => routed_identity(record@, *filter_provider, *filter_client) == Some(
                Identity { doi: ids.0@, provider_id: ids.1@, client_id: ids.2@ },
            ),
            None => routed_identity(record@, *filter_provider, *filter_client) is None,
        },
{
    let provider_id = match extract_provider_id(record) {
        Some(id) => id,
        None => {
            return None;
        },
    };
    let client_id = match extract_client_id(record) {
        Some(id) => id,
        None => {
            return None;
        },
    };
    match filter_provider {
        Some(p) => {
            if !same_text(p.as_str(), provider_id.as_str()) {
                return None;
            }
        },
        None => {},
    }
    match filter_client {
        Some(c) => {
            if !same_text(c.as_str(), client_id.as_str()) {
                return None;
            }
        },
        None => {},
    }
    match extract_doi(record) {
        Some(doi) => Some((doi, provider_id, client_id)),
        None => None,
    }
}

/// Whether `items` holds `wanted`.
pub fn holds(items: &Vec<String>, wanted: &str) -> (b: bool)
    ensures
        b == texts(items@).to_set().contains(wanted@),
{
    let n: usize = items.len();
    let mut i: usize = 0;
    while i < n
        invariant
            n == items.len(),
            0 <= i <= n,
            forall|k: int| 0 <= k < i ==> #[trigger] texts(items@)[k] != wanted@,
        decreases n - i,
    {
        if same_text(items[i].as_str(), wanted) {
            assert(texts(items@)[i as int] == wanted@);
            return true;
        }
        i += 1;
    }
    false
}

/// The number of distinct texts among `items`.
pub fn distinct_count(items: &Vec<&String>) -> (count: usize)
    ensures
        count == Seq::new(items@.len(), |i: int| items@[i]@).to_set().len(),
{
    let ghost all = Seq::new(items@.len(), |i: int| items@[i]@);
    let mut seen: Vec<&String> = Vec::new();
    let n: usize = items.len();
    let mut i: usize = 0;
    assert(all.take(0) =~= Seq::<Seq<char>>::empty());
    assert(Seq::new(seen@.len(), |k: int| seen@[k]@) =~= Seq::<Seq<char>>::empty());
    assert(Seq::<Seq<char>>::empty().to_set() =~= Set::<Seq<char>>::empty());
    while i < n
        invariant
            n == items.len(),
            0 <= i <= n,
            all == Seq::new(items@.len(), |i: int| items@[i]@),
            seen.len() <= i,
            Seq::new(seen@.len(), |k: int| seen@[k]@).no_duplicates(),
            Seq::new(seen@.len(), |k: int| seen@[k]@).to_set() == all.take(i as int).to_set(),
        decreases n - i,
    {
        let ghost seen_texts = Seq::new(seen@.len(), |k: int| seen@[k]@);
        let item: &String = items[i];
        assert(all[i as int] == item@);
        let m: usize = seen.len();
        let mut j: usize = 0;
        let mut known: bool = false;
        while j < m && !known
            invariant
                m == seen.len(),
                0 <= j <= m,
                seen_texts == Seq::new(seen@.len(), |k: int| seen@[k]@),
                !known ==> forall|k: int| 0 <= k < j ==> #[trigger] seen_texts[k] != item@,
                known ==> seen_texts.contains(item@),
            decreases m - j + (if known { 0int } else { 1int }),
        {
            if same_text(seen[j].as_str(), item.as_str()) {
                assert(seen_texts[j as int] == item@);
                known = true;
            } else {
                j += 1;
            }
        }
        proof {
            assert(all.take(i + 1) =~= all.take(i as int).push(item@));
            all.take(i as int).lemma_push_to_set_commute(item@);
        }
        if !known {
            seen.push(item);
            proof {
                let grown = Seq::new(seen@.len(), |k: int| seen@[k]@);
                assert(grown =~= seen_texts.push(item@));
                seen_texts.lemma_push_to_set_commute(item@);
            }
        } else {
            proof {
                assert(seen_texts.to_set().contains(item@));
                assert(seen_texts.to_set().insert(item@) =~= seen_texts.to_set());
            }
        }
        i += 1;
    }
    proof {
        assert(all.take(n as int) =~= all);
        Seq::new(seen@.len(), |k: int| seen@[k]@).unique_seq_to_set();
    }
    seen.len()
}

fn label_refs(records: &Vec<FieldData>) -> (labels: Vec<&String>)
    ensures
        Seq::new(labels@.len(), |i: int| labels@[i]@) == labels_of(records_view(records@)),
{
    let mut labels: Vec<&String> = Vec::new();
    let n: usize = records.len();
    let mut i: usize = 0;
    while i < n
        invariant
            n == records.len(),
            0 <= i <= n,
            labels.len() == i,
            forall|k: int| 0 <= k < i ==> (#[trigger] labels@[k])@ == records@[k].field_name@,
        decreases n - i,
    {
        labels.push(&records[i].field_name);
        i += 1;
    }
    assert(Seq::new(labels@.len(), |i: int| labels@[i]@) =~= labels_of(records_view(records@)));
    labels
}

fn text_refs(items: &Vec<String>) -> (refs: Vec<&String>)
    ensures
        Seq::new(refs@.len(), |i: int| refs@[i]@) == texts(items@),
{
    let mut refs: Vec<&String> = Vec::new();
    let n: usize = items.len();
    let mut i: usize = 0;
    while i < n
        invariant
            n == items.len(),
            0 <= i <= n,
            refs.len() == i,
            forall|k: int| 0 <= k < i ==> (#[trigger] refs@[k])@ == items@[k]@,
        decreases n - i,
    {
        refs.push(&items[i]);
        i += 1;
    }
    assert(Seq::new(refs@.len(), |i: int| refs@[i]@) =~= texts(items@));
    refs
}

/// Whether a result passes the completeness gate for the requested labels.
pub fn is_complete(records: &Vec<FieldData>, required: &Vec<String>) -> (b: bool)
    ensures
        b == complete(records_view(records@), texts(required@)),
{
    if records.len() == 0 {
        return false;
    }
    let found: usize = distinct_count(&label_refs(records));
    let wanted: usize = distinct_count(&text_refs(required));
    found >= wanted
}

impl JsonlProcessor {
    fn category_met(&self, attributes: &JsonValue) -> (b: bool)
        ensures
            b == self.category_admits(attributes@),
    {
        match &self.filter_resource_types {
            Some(allowed) => {
                let path = path_of_two("types", "resourceTypeGeneral");
                match resolve(attributes, &path) {
                    Some(v) => match v.as_text() {
                        Some(category) => holds(allowed, category.as_str()),
                        None => false,
                    },
                    None => false,
                }
            },
            None => true,
        }
    }

    fn required_values_met(&self, attributes: &JsonValue) -> (b: bool)
        ensures
            b == required_values_hold(attributes@, self.field_value_filters@),
    {
        let n: usize = self.field_value_filters.len();
        let mut i: usize = 0;
        while i < n
            invariant
                n == self.field_value_filters.len(),
                0 <= i <= n,
                forall|k: int|
                    0 <= k < i ==> value_matches(
                        attributes@,
                        texts((#[trigger] self.field_value_filters@[k]).0@),
                        0,
                        self.field_value_filters@[k].1@,
                    ),
            decreases n - i,
        {
            let filter: &(Vec<String>, String) = &self.field_value_filters[i];
            if !validate_field_value(attributes, &filter.0, filter.1.as_str()) {
                return false;
            }
            i += 1;
        }
        true
    }

    fn exclusions_met(&self, attributes: &JsonValue) -> (b: bool)
        ensures
            b == exclusions_hold(attributes@, self.exclusion_filters@),
    {
        let n: usize = self.exclusion_filters.len();
        let mut i: usize = 0;
        while i < n
            invariant
                n == self.exclusion_filters.len(),
                0 <= i <= n,
                forall|k: int|
                    0 <= k < i ==> !path_present(
                        attributes@,
                        texts((#[trigger] self.exclusion_filters@[k])@),
                    ),
            decreases n - i,
        {
            if path_exists(attributes, &self.exclusion_filters[i]) {
                return false;
            }
            i += 1;
        }
        true
    }

    /// Whether the filters on the attributes admit the document.
    pub fn is_admitted(&self, attributes: &JsonValue) -> (b: bool)
        ensures
            b == self.admits(attributes@),
    {
        match attributes {
            JsonValue::Null => false,
            _ => self.category_met(attributes) && self.required_values_met(attributes)
                && self.exclusions_met(attributes),
        }
    }

    /// The identity of the document, where it has one and the provider and
    /// client filters let it pass: its identifier, provider and client.
    pub fn route(&self, record: &JsonValue) -> (r: Option<(String, String, String)>)
        ensures
            match r {
                Some(ids) => self.routed(record@) == Some(
                    Identity { doi: ids.0@, provider_id: ids.1@, client_id: ids.2@ },
                ),
                None => self.routed(record@) is None,
            },
    {
        route_record(record, &self.filter_provider, &self.filter_client)
    }

    /// The records of one parsed document.
    pub fn process_record(&self, record: &JsonValue) -> (out: Vec<FieldData>)
        ensures
            records_view(out@) == self.document_records(record@),
    {
        let null = JsonValue::Null;
        let attributes: &JsonValue = match record.get("attributes") {
            Some(a) => a,
            None => &null,
        };
        if !self.is_admitted(attributes) {
            let out: Vec<FieldData> = Vec::new();
            assert(records_view(out@) =~= Seq::empty());
            return out;
        }
        match self.route(record) {
            Some(ids) => {
                let extracted = self.trie.extract(attributes, ids.0, ids.1, ids.2);
                match &self.required_fields {
                    Some(required) => {
                        if is_complete(&extracted, required) {
                            extracted
                        } else {
                            let out: Vec<FieldData> = Vec::new();
                            assert(records_view(out@) =~= Seq::empty());
                            out
                        }
                    },
                    None => extracted,
                }
            },
            None => {
                let out: Vec<FieldData> = Vec::new();
                assert(records_view(out@) =~= Seq::empty());
                out
            },
        }
    }

    /// Reads one input line: blank, malformed, or a document with its
    /// records.
    pub fn read_line(&self, line: &str) -> (outcome: LineOutcome)
        ensures
            match outcome {
                LineOutcome::Blank => trimmed(line@).len() == 0,
                LineOutcome::Malformed => trimmed(line@).len() > 0 && parsed_json(line@) is None,
                LineOutcome::Records(out) => trimmed(line@).len() > 0 && match parsed_json(line@) {
                    Some(record) => records_view(out@) == self.document_records(record),
                    None => false,
                },
            },
    {
        if is_blank(line) {
            return LineOutcome::Blank;
        }
        match JsonValue::parse(line) {
            Some(record) => LineOutcome::Records(self.process_record(&record)),
            None => LineOutcome::Malformed,
        }
    }

    /// The records of one input line.
    pub fn process_line(&self, line: &str) -> (out: Vec<FieldData>)
        ensures
            records_view(out@) == self.line_records(line@),
    {
        match self.read_line(line) {
            LineOutcome::Records(out) => out,
            _ => {
                let out: Vec<FieldData> = Vec::new();
                assert(records_view(out@) =~= Seq::empty());
                out
            },
        }
    }
}

/// The largest number of records in one batch: the configured size, or one
/// where that is zero.
pub open spec fn batch_limit(batch_size: usize) -> nat {
    if batch_size == 0 {
        1
    } else {
        batch_size as nat
    }
}

/// The records of a run of batches, in order.
pub open spec fn flattened(batches: Seq<Vec<FieldData>>) -> Seq<Record>
    decreases batches.len(),
{
    if batches.len() == 0 {
        Seq::empty()
    } else {
        flattened(batches.drop_last()) + records_view(batches.last()@)
    }
}

/// The batch that a worker is filling. It never holds a full batch: what
/// is added leaves as full batches at once, and only the rest stays.
pub struct Batcher {
    pub pending: Vec<FieldData>,
    pub limit: usize,
}

impl Batcher {
    /// The batch is short of full.
    pub open spec fn wf(&self) -> bool {
        self.limit >= 1 && self.pending.len() < self.limit
    }

    /// An empty batch for the configured size.
    pub fn new(batch_size: usize) -> (batcher: Batcher)
        ensures
            batcher.wf(),
            batcher.limit == batch_limit(batch_size),
            batcher.pending@.len() == 0,
    {
        let limit: usize = if batch_size == 0 {
            1
        } else {
            batch_size
        };
        Batcher { pending: Vec::new(), limit }
    }

    /// Adds the records of one document and hands out every batch that
    /// this fills, each of exactly `limit` records, oldest first.
    pub fn add(&mut self, records: Vec<FieldData>) -> (full: Vec<Vec<FieldData>>)
        requires
            old(self).wf(),
        ensures
            final(self).wf(),
            final(self).limit == old(self).limit,
            flattened(full@) + records_view(final(self).pending@) == records_view(
                old(self).pending@,
            ) + records_view(records@),
            forall|k: int| 0 <= k < full@.len() ==> (#[trigger] full@[k]).len() == old(self).limit,
    {
        let ghost all = records_view(self.pending@) + records_view(records@);
        let mut records = records;
        let ghost first = self.pending@;
        let ghost second = records@;
        self.pending.append(&mut records);
        assert(records_view(first + second) =~= all);
        let mut full: Vec<Vec<FieldData>> = Vec::new();
        assert(flattened(full@) + records_view(self.pending@) =~= all);
        while self.pending.len() >= self.limit
            invariant
                self.limit >= 1,
                self.limit == old(self).limit,
                flattened(full@) + records_view(self.pending@) == all,
                forall|k: int|
                    0 <= k < full@.len() ==> (#[trigger] full@[k]).len() == self.limit,
            decreases self.pending.len(),
        {
            let ghost held = self.pending@;
            let ghost done = full@;
            let mut batch = self.pending.split_off(self.limit);
            core::mem::swap(&mut self.pending, &mut batch);
            proof {
                assert(held =~= batch@ + self.pending@);
                assert(records_view(held) =~= records_view(batch@) + records_view(self.pending@));
            }
            full.push(batch);
            proof {
                assert(full@.drop_last() =~= done);
                assert(flattened(full@) + records_view(self.pending@) =~= flattened(done)
                    + records_view(held));
            }
        }
        full
    }

    /// Hands out what is left, if anything, and leaves the batch empty.
    pub fn finish(&mut self) -> (last: Option<Vec<FieldData>>)
        requires
            old(self).wf(),
        ensures
            final(self).wf(),
            final(self).limit == old(self).limit,
            final(self).pending@.len() == 0,
            match last {
                Some(batch) => batch@ == old(self).pending@ && batch@.len() > 0,
                None => old(self).pending@.len() == 0,
            },
    {
        if self.pending.len() == 0 {
            None
        } else {
            let mut batch: Vec<FieldData> = Vec::new();
            core::mem::swap(&mut self.pending, &mut batch);
            Some(batch)
        }
    }
}

/// The number of records in a run of batches.
pub open spec fn total_records(batches: Seq<Seq<Record>>) -> nat
    decreases batches.len(),
{
    if batches.len() == 0 {
        0
    } else {
        total_records(batches.drop_last()) + batches.last().len()
    }
}

proof fn lemma_total_records_bound(batches: Seq<Seq<Record>>, limit: nat)
    requires
        forall|i: int| 0 <= i < batches.len() ==> (#[trigger] batches[i]).len() <= limit,
    ensures
        total_records(batches) <= batches.len() * limit,
    decreases batches.len(),
{
    if batches.len() > 0 {
        let rest = batches.drop_last();
        assert forall|i: int| 0 <= i < rest.len() implies (#[trigger] rest[i]).len() <= limit by {
            assert(rest[i] == batches[i]);
        }
        lemma_total_records_bound(rest, limit);
        assert(rest.len() * limit + limit == batches.len() * limit) by (nonlinear_arith)
            requires
                rest.len() + 1 == batches.len(),
        ;
    }
}

/// Backpressure: while the channel holds at most `channel_capacity`
/// batches and every batch, in the channel or in a worker's hands, holds at
/// most `batch_size` records, the records in flight number at most
/// `channel_capacity * batch_size + worker_count * batch_size`.
pub proof fn lemma_in_flight_bound(
    channel: Seq<Seq<Record>>,
    in_hand: Seq<Seq<Record>>,
    channel_capacity: nat,
    worker_count: nat,
    batch_size: nat,
)
    requires
        channel.len() <= channel_capacity,
        in_hand.len() <= worker_count,
        forall|i: int| 0 <= i < channel.len() ==> (#[trigger] channel[i]).len() <= batch_size,
        forall|w: int| 0 <= w < in_hand.len() ==> (#[trigger] in_hand[w]).len() <= batch_size,
    ensures
        total_records(channel) + total_records(in_hand) <= channel_capacity * batch_size
            + worker_count * batch_size,
{
    lemma_total_records_bound(channel, batch_size);
    lemma_total_records_bound(in_hand, batch_size);
    assert(channel.len() * batch_size <= channel_capacity * batch_size) by (nonlinear_arith)
        requires
            channel.len() <= channel_capacity,
    ;
    assert(in_hand.len() * batch_size <= worker_count * batch_size) by (nonlinear_arith)
        requires
            in_hand.len() <= worker_count,
    ;
}

/// Filter conjunction, the one half: a document in which one required
/// value is not found yields no record.
pub proof fn lemma_missing_value_yields_nothing(processor: JsonlProcessor, record: Json, i: int)
    requires
        0 <= i < processor.field_value_filters@.len(),
        !value_matches(
            attributes_of(record),
            texts(processor.field_value_filters@[i].0@),
            0,
            processor.field_value_filters@[i].1@,
        ),
    ensures
        processor.document_records(record) == Seq::<Record>::empty(),
{
}

/// Filter conjunction, the one half: a document in which one excluded path
/// leads to a value that is not empty yields no record.
pub proof fn lemma_excluded_path_yields_nothing(processor: JsonlProcessor, record: Json, i: int)
    requires
        0 <= i < processor.exclusion_filters@.len(),
        path_present(attributes_of(record), texts(processor.exclusion_filters@[i]@)),
    ensures
        processor.document_records(record) == Seq::<Record>::empty(),
{
}

/// Filter conjunction, the other half: a document that has attributes and
/// an identity, in which every required value is found and every excluded
/// path is absent or empty, yields what the plan extracts from its
/// attributes, where no other filter is configured.
pub proof fn lemma_admitted_document_is_extracted(processor: JsonlProcessor, record: Json)
    requires
        !(attributes_of(record) is Null),
        required_values_hold(attributes_of(record), processor.field_value_filters@),
        exclusions_hold(attributes_of(record), processor.exclusion_filters@),
        processor.filter_resource_types is None,
        processor.filter_provider is None,
        processor.filter_client is None,
        processor.required_fields is None,
        text_at(record, provider_path()) is Some,
        text_at(record, client_path()) is Some,
        doi_of(record) is Some,
    ensures
        processor.document_records(record) == walk(
            processor.trie@,
            attributes_of(record),
            Seq::empty(),
            Identity {
                doi: doi_of(record)->0,
                provider_id: text_at(record, provider_path())->0,
                client_id: text_at(record, client_path())->0,
            },
        ),
{
}

/// The labels of the first `n` specifications: the first segment of each
/// that has one.
pub open spec fn spec_labels(specs: Seq<Seq<Seq<char>>>, n: nat) -> Seq<Seq<char>>
    decreases n,
{
    if n == 0 || n > specs.len() {
        Seq::empty()
    } else if specs[n - 1].len() > 0 {
        spec_labels(specs, (n - 1) as nat).push(specs[n - 1][0])
    } else {
        spec_labels(specs, (n - 1) as nat)
    }
}

/// The labels that the completeness gate asks for: the first segment of
/// each specification; no gate where there is no label.
pub fn required_labels(field_specs: &Vec<Vec<String>>) -> (r: Option<Vec<String>>)
    ensures
        match r {
            Some(labels) => labels@.len() > 0 && texts(labels@) == spec_labels(
                crate::text::nested_texts(field_specs@),
                field_specs@.len(),
            ),
            None => spec_labels(
                crate::text::nested_texts(field_specs@),
                field_specs@.len(),
            ).len() == 0,
        },
{
    let ghost specs = crate::text::nested_texts(field_specs@);
    let n: usize = field_specs.len();
    let mut labels: Vec<String> = Vec::new();
    let mut i: usize = 0;
    assert(texts(labels@) =~= spec_labels(specs, 0));
    while i < n
        invariant
            n == field_specs.len(),
            0 <= i <= n,
            specs == crate::text::nested_texts(field_specs@),
            texts(labels@) == spec_labels(specs, i as nat),
        decreases n - i,
    {
        assert(specs[i as int] == texts(field_specs@[i as int]@));
        if field_specs[i].len() > 0 {
            let ghost before = texts(labels@);
            labels.push(field_specs[i][0].clone());
            assert(texts(labels@) =~= before.push(field_specs@[i as int]@[0]@));
        }
        i += 1;
    }
    if labels.len() == 0 {
        None
    } else {
        Some(labels)
    }
}

/// The number of workers: the configured number, or the parallelism of
/// the host where none is configured.
pub fn worker_count(configured: usize, host: usize) -> (n: usize)
    ensures
        n == if configured > 0 {
            configured
        } else {
            host
        },
{
    if configured > 0 {
        configured
    } else {
        host
    }
}

/// The capacity of the channel between the workers and the writer: four
/// batches for each worker, as far as the machine can count.
pub fn channel_capacity(worker_count: usize) -> (n: usize)
    ensures
        n == if worker_count * 4 <= usize::MAX {
            worker_count * 4
        } else {
            usize::MAX as int
        },
{
    if worker_count <= usize::MAX / 4 {
        worker_count * 4
    } else {
        usize::MAX
    }
}

/// The number of batches between two flushes of the open handles.
pub const FLUSH_INTERVAL: u32 = 100;

/// Counts the batches that the writer has written, to flush every
/// `FLUSH_INTERVAL` of them.
pub struct FlushSchedule {
    pub since_flush: u32,
}

impl FlushSchedule {
    /// Fewer batches than the interval were written since the last flush.
    pub open spec fn wf(&self) -> bool {
        self.since_flush < FLUSH_INTERVAL
    }

    /// A schedule that starts with a flush just done.
    pub fn new() -> (schedule: FlushSchedule)
        ensures
            schedule.wf(),
            schedule.since_flush == 0,
    {
        FlushSchedule { since_flush: 0 }
    }

    /// Counts one written batch and says whether to flush now.
    pub fn batch_written(&mut self) -> (flush: bool)
        requires
            old(self).wf(),
        ensures
            final(self).wf(),
            flush == (old(self).since_flush + 1 == FLUSH_INTERVAL),
            final(self).since_flush == if flush {
                0
            } else {
                old(self).since_flush + 1
            },
    {
        if self.since_flush + 1 == FLUSH_INTERVAL {
            self.since_flush = 0;
            true
        } else {
            self.since_flush = self.since_flush + 1;
            false
        }
    }
}

} // verus!
