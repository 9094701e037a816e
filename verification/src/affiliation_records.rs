//! The affiliations of the creators and contributors of a document, one
//! row for each affiliation of each person, and the running statistics of
//! a run.

use crate::counter::{bumped, Counter};
use crate::extract::Identity;
use crate::filter::{resolve, resolved};
use crate::json::{parsed_json, Json, JsonValue};
use crate::pipeline::{route_record, routed_identity};
use crate::text::{is_blank, same_text, texts, trimmed};
use crate::text_set::TextSet;
use vstd::prelude::*;
use vstd::string::StringExecFns;

verus! {

/// One affiliation of one person as a mathematical value.
pub ghost struct AffiliationRow {
    pub doi: Seq<char>,
    pub name: Seq<char>,
    pub category: Seq<char>,
    pub role: Seq<char>,
    pub affiliation_name: Seq<char>,
    pub affiliation_id: Seq<char>,
    pub affiliation_scheme: Seq<char>,
    pub provider_id: Seq<char>,
    pub client_id: Seq<char>,
}

/// One affiliation of one creator or contributor of a document.
#[derive(Debug)]
pub struct AffiliationData {
    pub doi: String,
    pub name: String,
    pub category: String,
    pub role: String,
    pub affiliation_name: String,
    pub affiliation_id: String,
    pub affiliation_scheme: String,
    pub provider_id: String,
    pub client_id: String,
}

impl View for AffiliationData {
    type V = AffiliationRow;

    open spec fn view(&self) -> AffiliationRow {
        AffiliationRow {
            doi: self.doi@,
            name: self.name@,
            category: self.category@,
            role: self.role@,
            affiliation_name: self.affiliation_name@,
            affiliation_id: self.affiliation_id@,
            affiliation_scheme: self.affiliation_scheme@,
            provider_id: self.provider_id@,
            client_id: self.client_id@,
        }
    }
}

/// The views of a sequence of rows.
pub open spec fn rows_view(rows: Seq<AffiliationData>) -> Seq<AffiliationRow> {
    Seq::new(rows.len(), |i: int| rows[i]@)
}

/// The text of the member `key`; empty where there is none or it is no
/// string.
pub open spec fn text_member(value: Json, key: Seq<char>) -> Seq<char> {
    match value.get(key) {
        Some(v) => match v.as_text() {
            Some(t) => t,
            None => Seq::empty(),
        },
        None => Seq::empty(),
    }
}

/// The role of a person: the contributor type of a contributor, and
/// `Author` for anyone else.
pub open spec fn role_of(person: Json, category: Seq<char>) -> Seq<char> {
    if category == "contributor"@ {
        text_member(person, "contributorType"@)
    } else {
        "Author"@
    }
}

/// The row of one affiliation of a person.
pub open spec fn affiliation_row(
    person: Json,
    affiliation: Json,
    ids: Identity,
    category: Seq<char>,
) -> AffiliationRow {
    AffiliationRow {
        doi: ids.doi,
        name: text_member(person, "name"@),
        category,
        role: role_of(person, category),
        affiliation_name: text_member(affiliation, "name"@),
        affiliation_id: text_member(affiliation, "affiliationIdentifier"@),
        affiliation_scheme: text_member(affiliation, "affiliationIdentifierScheme"@),
        provider_id: ids.provider_id,
        client_id: ids.client_id,
    }
}

/// The rows of a person: one for each element of its `affiliation` array.
pub open spec fn person_rows(person: Json, ids: Identity, category: Seq<char>) -> Seq<
    AffiliationRow,
> {
    match person.get("affiliation"@) {
        Some(Json::Array(items)) => Seq::new(
            items.len(),
            |i: int| affiliation_row(person, items[i], ids, category),
        ),
        _ => Seq::empty(),
    }
}

/// The rows of the first `n` of `people`.
pub open spec fn people_rows(people: Seq<Json>, n: nat, ids: Identity, category: Seq<char>) -> Seq<
    AffiliationRow,
>
    decreases n,
{
    if n == 0 || n > people.len() {
        Seq::empty()
    } else {
        people_rows(people, (n - 1) as nat, ids, category) + person_rows(
            people[n - 1],
            ids,
            category,
        )
    }
}

/// The rows of the people listed under `attributes.<list>`.
pub open spec fn listed_rows(record: Json, list: Seq<char>, ids: Identity, category: Seq<char>) -> Seq<
    AffiliationRow,
> {
    match resolved(record, seq!["attributes"@, list], 0) {
        Some(Json::Array(people)) => people_rows(people, people.len(), ids, category),
        _ => Seq::empty(),
    }
}

/// The rows of one document: those of its creators, then those of its
/// contributors; none where it lacks an identity or a filter holds it back.
pub open spec fn record_rows(
    record: Json,
    filter_provider: Option<String>,
    filter_client: Option<String>,
) -> Seq<AffiliationRow> {
    match routed_identity(record, filter_provider, filter_client) {
        Some(ids) => listed_rows(record, "creators"@, ids, "creator"@) + listed_rows(
            record,
            "contributors"@,
            ids,
            "contributor"@,
        ),
        None => Seq::empty(),
    }
}

/// The rows of one input line: none for a blank line or one that is no
/// JSON document.
pub open spec fn line_rows(
    line: Seq<char>,
    filter_provider: Option<String>,
    filter_client: Option<String>,
) -> Seq<AffiliationRow> {
    if trimmed(line).len() == 0 {
        Seq::empty()
    } else {
        match parsed_json(line) {
            Some(record) => record_rows(record, filter_provider, filter_client),
            None => Seq::empty(),
        }
    }
}

fn member_text(value: &JsonValue, key: &str) -> (r: String)
    ensures
        r@ == text_member(value@, key@),
{
    match value.get(key) {
        Some(v) => match v.as_text() {
            Some(t) => t.clone(),
            None => String::new(),
        },
        None => String::new(),
    }
}

/// Appends the rows of a person to `affiliation_data`.
pub fn extract_affiliations(
    person: &JsonValue,
    doi: &str,
    category: &str,
    provider_id: &str,
    client_id: &str,
    affiliation_data: &mut Vec<AffiliationData>,
)
    ensures
        rows_view(final(affiliation_data)@) == rows_view(old(affiliation_data)@) + person_rows(
            person@,
            Identity { doi: doi@, provider_id: provider_id@, client_id: client_id@ },
            category@,
        ),
{
    let ghost ids = Identity { doi: doi@, provider_id: provider_id@, client_id: client_id@ };
    let ghost start = rows_view(affiliation_data@);
    let name = member_text(person, "name");
    let role = if same_text(category, "contributor") {
        member_text(person, "contributorType")
    } else {
        String::from_str("Author")
    };
    match person.get("affiliation") {
        Some(affiliations) => {
            match affiliations.as_array() {
                Some(array) => {
                    let ghost items = affiliations@->Array_0;
                    let ghost rows = person_rows(person@, ids, category@);
                    let n: usize = array.len();
                    let mut i: usize = 0;
                    assert(rows.take(0) =~= Seq::<AffiliationRow>::empty());
                    assert(rows_view(affiliation_data@) =~= start + rows.take(0));
                    while i < n
                        invariant
                            n == array.len(),
                            0 <= i <= n,
                            affiliations@ == Json::Array(items),
                            person@.get("affiliation"@) == Some(affiliations@),
                            items.len() == n,
                            forall|x: int| 0 <= x < n ==> #[trigger] items[x] == array@[x]@,
                            rows == person_rows(person@, ids, category@),
                            ids == (Identity {
                                doi: doi@,
                                provider_id: provider_id@,
                                client_id: client_id@,
                            }),
                            name@ == text_member(person@, "name"@),
                            role@ == role_of(person@, category@),
                            rows_view(affiliation_data@) == start + rows.take(i as int),
                        decreases n - i,
                    {
                        let affiliation: &JsonValue = &array[i];
                        let row = AffiliationData {
                            doi: String::from_str(doi),
                            name: name.clone(),
                            category: String::from_str(category),
                            role: role.clone(),
                            affiliation_name: member_text(affiliation, "name"),
                            affiliation_id: member_text(affiliation, "affiliationIdentifier"),
                            affiliation_scheme: member_text(
                                affiliation,
                                "affiliationIdentifierScheme",
                            ),
                            provider_id: String::from_str(provider_id),
                            client_id: String::from_str(client_id),
                        };
                        assert(row@ == rows[i as int]);
                        let ghost before = rows_view(affiliation_data@);
                        affiliation_data.push(row);
                        proof {
                            assert(rows_view(affiliation_data@) =~= before.push(rows[i as int]));
                            assert(rows.take(i + 1) =~= rows.take(i as int).push(rows[i as int]));
                            assert(rows_view(affiliation_data@) =~= start + rows.take(i + 1));
                        }
                        i += 1;
                    }
                    assert(rows.take(n as int) =~= rows);
                },
                None => {
                    assert(rows_view(affiliation_data@) =~= start + Seq::<AffiliationRow>::empty());
                },
            }
        },
        None => {
            assert(rows_view(affiliation_data@) =~= start + Seq::<AffiliationRow>::empty());
        },
    }
}

fn list_path(list: &str) -> (path: Vec<String>)
    ensures
        texts(path@) == seq!["attributes"@, list@],
{
    let mut path: Vec<String> = Vec::new();
    path.push(String::from_str("attributes"));
    path.push(String::from_str(list));
    assert(texts(path@) =~= seq!["attributes"@, list@]);
    path
}

fn extract_listed(
    record: &JsonValue,
    list: &str,
    category: &str,
    doi: &str,
    provider_id: &str,
    client_id: &str,
    out: &mut Vec<AffiliationData>,
)
    ensures
        rows_view(final(out)@) == rows_view(old(out)@) + listed_rows(
            record@,
            list@,
            Identity { doi: doi@, provider_id: provider_id@, client_id: client_id@ },
            category@,
        ),
{
    let ghost ids = Identity { doi: doi@, provider_id: provider_id@, client_id: client_id@ };
    let ghost start = rows_view(out@);
    let path = list_path(list);
    match resolve(record, &path) {
        Some(listed) => {
            match listed.as_array() {
                Some(array) => {
                    let ghost people = listed@->Array_0;
                    let n: usize = array.len();
                    let mut i: usize = 0;
                    assert(rows_view(out@) =~= start + people_rows(people, 0, ids, category@));
                    while i < n
                        invariant
                            n == array.len(),
                            0 <= i <= n,
                            listed@ == Json::Array(people),
                            people.len() == n,
                            forall|x: int| 0 <= x < n ==> #[trigger] people[x] == array@[x]@,
                            ids == (Identity {
                                doi: doi@,
                                provider_id: provider_id@,
                                client_id: client_id@,
                            }),
                            rows_view(out@) == start + people_rows(
                                people,
                                i as nat,
                                ids,
                                category@,
                            ),
                        decreases n - i,
                    {
                        extract_affiliations(&array[i], doi, category, provider_id, client_id, out);
                        assert(rows_view(out@) =~= start + people_rows(
                            people,
                            (i + 1) as nat,
                            ids,
                            category@,
                        ));
                        i += 1;
                    }
                },
                None => {
                    assert(rows_view(out@) =~= start + Seq::<AffiliationRow>::empty());
                },
            }
        },
        None => {
            assert(rows_view(out@) =~= start + Seq::<AffiliationRow>::empty());
        },
    }
}

/// The rows of one parsed document.
pub fn record_affiliations(
    record: &JsonValue,
    filter_provider: &Option<String>,
    filter_client: &Option<String>,
) -> (rows: Vec<AffiliationData>)
    ensures
        rows_view(rows@) == record_rows(record@, *filter_provider, *filter_client),
{
    let mut rows: Vec<AffiliationData> = Vec::new();
    assert(rows_view(rows@) =~= Seq::<AffiliationRow>::empty());
    match route_record(record, filter_provider, filter_client) {
        Some(ids) => {
            extract_listed(
                record,
                "creators",
                "creator",
                ids.0.as_str(),
                ids.1.as_str(),
                ids.2.as_str(),
                &mut rows,
            );
            extract_listed(
                record,
                "contributors",
                "contributor",
                ids.0.as_str(),
                ids.1.as_str(),
                ids.2.as_str(),
                &mut rows,
            );
            assert(rows_view(rows@) =~= record_rows(record@, *filter_provider, *filter_client));
        },
        None => {},
    }
    rows
}

/// The rows of one input line.
pub fn line_affiliations(
    line: &str,
    filter_provider: &Option<String>,
    filter_client: &Option<String>,
) -> (rows: Vec<AffiliationData>)
    ensures
        rows_view(rows@) == line_rows(line@, *filter_provider, *filter_client),
{
    if is_blank(line) {
        let rows: Vec<AffiliationData> = Vec::new();
        assert(rows_view(rows@) =~= Seq::<AffiliationRow>::empty());
        return rows;
    }
    match JsonValue::parse(line) {
        Some(record) => record_affiliations(&record, filter_provider, filter_client),
        None => {
            let rows: Vec<AffiliationData> = Vec::new();
            assert(rows_view(rows@) =~= Seq::<AffiliationRow>::empty());
            rows
        },
    }
}

/// The statistics of a run as a mathematical value.
pub ghost struct Statistics {
    pub records: Set<Seq<char>>,
    pub persons: Set<Seq<char>>,
    pub affiliations: Set<Seq<char>>,
    pub total_rows: usize,
    pub files: usize,
    pub providers: Seq<(Seq<char>, u64)>,
    pub clients: Seq<(Seq<char>, u64)>,
}

/// `a + b`, as far as the machine can count.
pub open spec fn capped_sum(a: usize, b: usize) -> usize {
    if a + b <= usize::MAX {
        (a + b) as usize
    } else {
        usize::MAX
    }
}

impl Statistics {
    /// The statistics with one more row taken in.
    pub open spec fn with_row(self, row: AffiliationRow) -> Statistics {
        Statistics {
            records: self.records.insert(row.doi),
            persons: self.persons.insert(row.name),
            affiliations: self.affiliations.insert(row.affiliation_name),
            total_rows: self.total_rows,
            files: self.files,
            providers: bumped(self.providers, row.provider_id),
            clients: bumped(self.clients, row.client_id),
        }
    }

    /// The statistics with the first `n` of `rows` taken in.
    pub open spec fn with_rows(self, rows: Seq<AffiliationRow>, n: nat) -> Statistics
        decreases n,
    {
        if n == 0 || n > rows.len() {
            self
        } else {
            self.with_rows(rows, (n - 1) as nat).with_row(rows[n - 1])
        }
    }

    /// The statistics after one more file, which gave `rows`.
    pub open spec fn with_file(self, rows: Seq<AffiliationRow>) -> Statistics {
        let taken = self.with_rows(rows, rows.len());
        Statistics {
            records: taken.records,
            persons: taken.persons,
            affiliations: taken.affiliations,
            total_rows: capped_sum(self.total_rows, rows.len() as usize),
            files: capped_sum(self.files, 1),
            providers: taken.providers,
            clients: taken.clients,
        }
    }
}

/// The statistics of a run, kept up file by file.
pub struct IncrementalStats {
    pub unique_records: TextSet,
    pub unique_persons: TextSet,
    pub unique_affiliations: TextSet,
    pub total_affiliation_records: usize,
    pub processed_files: usize,
    pub providers: Counter,
    pub clients: Counter,
}

impl View for IncrementalStats {
    type V = Statistics;

    open spec fn view(&self) -> Statistics {
        Statistics {
            records: self.unique_records@,
            persons: self.unique_persons@,
            affiliations: self.unique_affiliations@,
            total_rows: self.total_affiliation_records,
            files: self.processed_files,
            providers: self.providers@,
            clients: self.clients@,
        }
    }
}

fn capped_add(a: usize, b: usize) -> (sum: usize)
    ensures
        sum == capped_sum(a, b),
{
    if a <= usize::MAX - b {
        a + b
    } else {
        usize::MAX
    }
}

impl IncrementalStats {
    /// The counters hold each key once.
    pub open spec fn wf(&self) -> bool {
        self.providers.wf() && self.clients.wf()
    }

    /// The statistics before the first file.
    pub fn new() -> (stats: IncrementalStats)
        ensures
            stats.wf(),
            stats@.records == Set::<Seq<char>>::empty(),
            stats@.persons == Set::<Seq<char>>::empty(),
            stats@.affiliations == Set::<Seq<char>>::empty(),
            stats@.total_rows == 0,
            stats@.files == 0,
            stats@.providers.len() == 0,
            stats@.clients.len() == 0,
    {
        IncrementalStats {
            unique_records: TextSet::new(),
            unique_persons: TextSet::new(),
            unique_affiliations: TextSet::new(),
            total_affiliation_records: 0,
            processed_files: 0,
            providers: Counter::new(),
            clients: Counter::new(),
        }
    }

    /// Takes in the rows of one more file.
    pub fn update(&mut self, affiliations: &Vec<AffiliationData>)
        requires
            old(self).wf(),
        ensures
            final(self).wf(),
            final(self)@ == old(self)@.with_file(rows_view(affiliations@)),
    {
        let ghost before = self@;
        let ghost rows = rows_view(affiliations@);
        self.total_affiliation_records = capped_add(
            self.total_affiliation_records,
            affiliations.len(),
        );
        self.processed_files = capped_add(self.processed_files, 1);
        let n: usize = affiliations.len();
        let mut i: usize = 0;
        while i < n
            invariant
                n == affiliations.len(),
                0 <= i <= n,
                self.wf(),
                rows == rows_view(affiliations@),
                self.total_affiliation_records == capped_sum(before.total_rows, n),
                self.processed_files == capped_sum(before.files, 1),
                self@.records == before.with_rows(rows, i as nat).records,
                self@.persons == before.with_rows(rows, i as nat).persons,
                self@.affiliations == before.with_rows(rows, i as nat).affiliations,
                self@.providers == before.with_rows(rows, i as nat).providers,
                self@.clients == before.with_rows(rows, i as nat).clients,
            decreases n - i,
        {
            let affiliation: &AffiliationData = &affiliations[i];
            assert(rows[i as int] == affiliation@);
            self.unique_records.insert(affiliation.doi.clone());
            self.unique_persons.insert(affiliation.name.clone());
            self.unique_affiliations.insert(affiliation.affiliation_name.clone());
            self.providers.add(affiliation.provider_id.as_str());
            self.clients.add(affiliation.client_id.as_str());
            i += 1;
        }
    }
}

} // verus!
