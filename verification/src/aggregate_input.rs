//! Reading the flattened export row by row: which column is which, how
//! the rows of one affiliation come together, and when the affiliations of
//! a document are counted.

use crate::affiliation::{
    normalize_ror_identifier, normalize_text, normalized_ror, normalized_text, nonblank,
    sanitize_affiliation_value,
};
use crate::aggregate::{opt_view, Aggregator, Tallies};
use crate::counter::{increment, one_more};
use crate::text::{
    contains_text, find_text, first_position, last_position_of, occurs_in, rsplit_once,
    same_text, texts, trim, trimmed,
};
use vstd::prelude::*;
use vstd::string::StringExecFns;

verus! {

/// Where each column of the export stands.
#[derive(Debug, Clone, Copy)]
pub struct ColumnIndices {
    pub doi: usize,
    pub provider_id: usize,
    pub client_id: usize,
    pub field_name: usize,
    pub subfield_path: usize,
    pub value: usize,
}

/// The names of the columns, in the order in which they are looked for.
pub open spec fn column_names() -> Seq<Seq<char>> {
    seq!["doi"@, "provider_id"@, "client_id"@, "field_name"@, "subfield_path"@, "value"@]
}

/// The first of the first `n` column names that no header bears.
pub open spec fn missing_column(headers: Seq<Seq<char>>, n: nat) -> Option<Seq<char>>
    decreases n,
{
    if n == 0 || n > column_names().len() {
        None
    } else {
        match missing_column(headers, (n - 1) as nat) {
            Some(name) => Some(name),
            None => if first_position(headers, headers.len(), column_names()[n - 1]) is None {
                Some(column_names()[n - 1])
            } else {
                None
            },
        }
    }
}

/// Whether every index is the place of the first header of its name.
pub open spec fn columns_found(headers: Seq<Seq<char>>, idx: ColumnIndices) -> bool {
    &&& first_position(headers, headers.len(), "doi"@) == Some(idx.doi as int)
    &&& first_position(headers, headers.len(), "provider_id"@) == Some(idx.provider_id as int)
    &&& first_position(headers, headers.len(), "client_id"@) == Some(idx.client_id as int)
    &&& first_position(headers, headers.len(), "field_name"@) == Some(idx.field_name as int)
    &&& first_position(headers, headers.len(), "subfield_path"@) == Some(
        idx.subfield_path as int,
    )
    &&& first_position(headers, headers.len(), "value"@) == Some(idx.value as int)
}

/// What is said of a column that no header bears.
pub open spec fn missing_message(name: Seq<char>) -> Seq<char> {
    "Missing '"@ + name + "' column"@
}

fn missing(name: &str) -> (message: String)
    ensures
        message@ == missing_message(name@),
{
    let mut message = String::from_str("Missing '");
    message.append(name);
    message.append("' column");
    message
}

impl ColumnIndices {
    /// Finds the six columns among the headers. The first one that is
    /// missing, in their order, is named in the error.
    pub fn from_headers(headers: &Vec<String>) -> (r: Result<ColumnIndices, String>)
        ensures
            match r {
                Ok(idx) => missing_column(texts(headers@), 6) is None && columns_found(
                    texts(headers@),
                    idx,
                ),
                Err(message) => match missing_column(texts(headers@), 6) {
                    Some(name) => message@ == missing_message(name),
                    None => false,
                },
            },
    {
        reveal_with_fuel(missing_column, 7);
        let doi: usize = match find_text(headers, "doi") {
            Some(i) => i,
            None => {
                return Err(missing("doi"));
            },
        };
        let provider_id: usize = match find_text(headers, "provider_id") {
            Some(i) => i,
            None => {
                return Err(missing("provider_id"));
            },
        };
        let client_id: usize = match find_text(headers, "client_id") {
            Some(i) => i,
            None => {
                return Err(missing("client_id"));
            },
        };
        let field_name: usize = match find_text(headers, "field_name") {
            Some(i) => i,
            None => {
                return Err(missing("field_name"));
            },
        };
        let subfield_path: usize = match find_text(headers, "subfield_path") {
            Some(i) => i,
            None => {
                return Err(missing("subfield_path"));
            },
        };
        let value: usize = match find_text(headers, "value") {
            Some(i) => i,
            None => {
                return Err(missing("value"));
            },
        };
        Ok(ColumnIndices { doi, provider_id, client_id, field_name, subfield_path, value })
    }
}

/// What has been read of one affiliation, as a mathematical value.
pub ghost struct Pending {
    pub field_name: Seq<char>,
    pub base: Seq<char>,
    pub name: Option<Seq<char>>,
    pub identifier: Option<Seq<char>>,
    pub scheme: Option<Seq<char>>,
}

/// What has been read of one affiliation.
#[derive(Debug)]
pub struct PendingAffiliation {
    pub name: Option<String>,
    pub identifier: Option<String>,
    pub scheme: Option<String>,
}

/// An affiliation in the making: the field and the path that its rows
/// share, and what they have told of it.
#[derive(Debug)]
pub struct PendingEntry {
    pub field_name: String,
    pub base: String,
    pub affiliation: PendingAffiliation,
}

/// The text of an optional string.
pub open spec fn text_of(o: Option<String>) -> Option<Seq<char>> {
    match o {
        Some(s) => Some(s@),
        None => None,
    }
}

impl View for PendingEntry {
    type V = Pending;

    open spec fn view(&self) -> Pending {
        Pending {
            field_name: self.field_name@,
            base: self.base@,
            name: text_of(self.affiliation.name),
            identifier: text_of(self.affiliation.identifier),
            scheme: text_of(self.affiliation.scheme),
        }
    }
}

/// The views of the affiliations in the making.
pub open spec fn pending_view(pending: Seq<PendingEntry>) -> Seq<Pending> {
    Seq::new(pending.len(), |i: int| pending[i]@)
}

/// The field of a row at a column; empty where the row is too short.
pub open spec fn field_at(record: Seq<Seq<char>>, column: usize) -> Seq<char> {
    if column < record.len() {
        record[column as int]
    } else {
        Seq::empty()
    }
}

/// The place of the affiliation of that field and path among the first `n`.
pub open spec fn pending_position(
    pending: Seq<Pending>,
    n: nat,
    field_name: Seq<char>,
    base: Seq<char>,
) -> Option<int>
    decreases n,
{
    if n == 0 || n > pending.len() {
        None
    } else {
        match pending_position(pending, (n - 1) as nat, field_name, base) {
            Some(i) => Some(i),
            None => if pending[n - 1].field_name == field_name && pending[n - 1].base == base {
                Some(n - 1)
            } else {
                None
            },
        }
    }
}

/// The affiliation with one attribute told: its name, identifier or
/// scheme; any other attribute tells nothing.
pub open spec fn with_attribute(p: Pending, attribute: Seq<char>, value: Seq<char>) -> Pending {
    if attribute == "name"@ {
        Pending { name: Some(value), ..p }
    } else if attribute == "affiliationIdentifier"@ {
        Pending { identifier: Some(value), ..p }
    } else if attribute == "affiliationIdentifierScheme"@ {
        Pending { scheme: Some(value), ..p }
    } else {
        p
    }
}

/// The affiliations in the making after one more row. A row counts where
/// its path ends in an attribute of something whose path names an
/// affiliation.
pub open spec fn after_record(pending: Seq<Pending>, record: Seq<Seq<char>>, idx: ColumnIndices) -> Seq<
    Pending,
> {
    let subfield = field_at(record, idx.subfield_path);
    match last_position_of(subfield, '.') {
        Some(i) => {
            let base = subfield.take(i);
            let attribute = subfield.skip(i + 1);
            if occurs_in("affiliation"@, subfield) && occurs_in("affiliation"@, base) {
                let field_name = field_at(record, idx.field_name);
                let value = field_at(record, idx.value);
                match pending_position(pending, pending.len(), field_name, base) {
                    Some(j) => pending.update(j, with_attribute(pending[j], attribute, value)),
                    None => pending.push(
                        with_attribute(
                            Pending {
                                field_name,
                                base,
                                name: None,
                                identifier: None,
                                scheme: None,
                            },
                            attribute,
                            value,
                        ),
                    ),
                }
            } else {
                pending
            }
        },
        None => pending,
    }
}

fn field<'a>(record: &'a Vec<String>, column: usize) -> (r: &'a str)
    ensures
        r@ == field_at(texts(record@), column),
{
    if column < record.len() {
        assert(texts(record@)[column as int] == record@[column as int]@);
        record[column].as_str()
    } else {
        proof {
            reveal_strlit("");
            assert(""@ =~= Seq::<char>::empty());
        }
        ""
    }
}

proof fn lemma_pending_position_stays(
    pending: Seq<Pending>,
    m: nat,
    n: nat,
    field_name: Seq<char>,
    base: Seq<char>,
)
    requires
        m <= n <= pending.len(),
        pending_position(pending, m, field_name, base) is Some,
    ensures
        pending_position(pending, n, field_name, base) == pending_position(
            pending,
            m,
            field_name,
            base,
        ),
    decreases n,
{
    if n > m {
        lemma_pending_position_stays(pending, m, (n - 1) as nat, field_name, base);
    }
}

fn find_pending(pending: &Vec<PendingEntry>, field_name: &str, base: &str) -> (r: Option<usize>)
    ensures
        match r {
            Some(i) => pending_position(
                pending_view(pending@),
                pending@.len(),
                field_name@,
                base@,
            ) == Some(i as int) && i < pending@.len(),
            None => pending_position(pending_view(pending@), pending@.len(), field_name@, base@)
                is None,
        },
{
    let n: usize = pending.len();
    let mut i: usize = 0;
    while i < n
        invariant
            n == pending.len(),
            0 <= i <= n,
            pending_position(pending_view(pending@), i as nat, field_name@, base@) is None,
        decreases n - i,
    {
        assert(pending_view(pending@)[i as int] == pending@[i as int]@);
        if same_text(pending[i].field_name.as_str(), field_name) && same_text(
            pending[i].base.as_str(),
            base,
        ) {
            proof {
                lemma_pending_position_stays(
                    pending_view(pending@),
                    (i + 1) as nat,
                    n as nat,
                    field_name@,
                    base@,
                );
            }
            return Some(i);
        }
        i += 1;
    }
    None
}

fn tell(affiliation: &mut PendingAffiliation, attribute: &str, value: &str)
    ensures
        text_of(final(affiliation).name) == if attribute@ == "name"@ {
            Some(value@)
        } else {
            text_of(old(affiliation).name)
        },
        text_of(final(affiliation).identifier) == if attribute@ != "name"@ && attribute@
            == "affiliationIdentifier"@ {
            Some(value@)
        } else {
            text_of(old(affiliation).identifier)
        },
        text_of(final(affiliation).scheme) == if attribute@ != "name"@ && attribute@
            != "affiliationIdentifier"@ && attribute@ == "affiliationIdentifierScheme"@ {
            Some(value@)
        } else {
            text_of(old(affiliation).scheme)
        },
{
    if same_text(attribute, "name") {
        affiliation.name = Some(String::from_str(value));
    } else if same_text(attribute, "affiliationIdentifier") {
        affiliation.identifier = Some(String::from_str(value));
    } else if same_text(attribute, "affiliationIdentifierScheme") {
        affiliation.scheme = Some(String::from_str(value));
    }
}

/// Takes one row into the affiliations in the making.
pub fn handle_record(record: &Vec<String>, idx: &ColumnIndices, pending: &mut Vec<PendingEntry>)
    ensures
        pending_view(final(pending)@) == after_record(
            pending_view(old(pending)@),
            texts(record@),
            *idx,
        ),
{
    let ghost before = pending_view(pending@);
    let subfield = field(record, idx.subfield_path);
    if !contains_text(subfield, "affiliation") {
        return ;
    }
    let (base, attribute) = match rsplit_once(subfield, '.') {
        Some(parts) => parts,
        None => {
            return ;
        },
    };
    if !contains_text(base, "affiliation") {
        return ;
    }
    let field_name = field(record, idx.field_name);
    let value = field(record, idx.value);
    match find_pending(pending, field_name, base) {
        Some(j) => {
            let ghost held = pending@;
            tell(&mut pending[j].affiliation, attribute, value);
            proof {
                assert(pending@[j as int].field_name == held[j as int].field_name);
                assert(pending@[j as int].base == held[j as int].base);
                assert(before[j as int] == held[j as int]@);
                assert(pending_view(pending@) =~= before.update(
                    j as int,
                    with_attribute(before[j as int], attribute@, value@),
                ));
            }
        },
        None => {
            let mut affiliation = PendingAffiliation { name: None, identifier: None, scheme: None };
            tell(&mut affiliation, attribute, value);
            pending.push(
                PendingEntry {
                    field_name: String::from_str(field_name),
                    base: String::from_str(base),
                    affiliation,
                },
            );
            proof {
                assert(pending_view(pending@) =~= before.push(
                    with_attribute(
                        Pending {
                            field_name: field_name@,
                            base: base@,
                            name: None,
                            identifier: None,
                            scheme: None,
                        },
                        attribute@,
                        value@,
                    ),
                ));
            }
        },
    }
}

/// The counts with one affiliation in the making taken in: one that has
/// a name that is not blank, under that name trimmed, its normalized form
/// and its identifier in canonical form.
pub open spec fn with_pending(
    tallies: Tallies,
    p: Pending,
    doi: Seq<char>,
    provider: Option<Seq<char>>,
    client: Option<Seq<char>>,
) -> Tallies {
    match p.name {
        Some(raw) => match nonblank(raw) {
            Some(name) => tallies.with_entry(
                doi,
                name,
                normalized_text(name),
                normalized_ror(p.identifier, p.scheme),
                provider,
                client,
            ),
            None => tallies,
        },
        None => tallies,
    }
}

/// The counts with the first `n` affiliations in the making taken in.
pub open spec fn flushed(
    tallies: Tallies,
    pending: Seq<Pending>,
    n: nat,
    doi: Seq<char>,
    provider: Option<Seq<char>>,
    client: Option<Seq<char>>,
) -> Tallies
    decreases n,
{
    if n == 0 || n > pending.len() {
        tallies
    } else {
        with_pending(
            flushed(tallies, pending, (n - 1) as nat, doi, provider, client),
            pending[n - 1],
            doi,
            provider,
            client,
        )
    }
}

fn as_text(o: &Option<String>) -> (r: Option<&str>)
    ensures
        opt_view(r) == text_of(*o),
{
    match o {
        Some(s) => Some(s.as_str()),
        None => None,
    }
}

/// Counts the affiliations in the making for their document and starts
/// afresh.
pub fn flush_pending(
    doi: &str,
    provider_id: Option<&str>,
    client_id: Option<&str>,
    pending: &mut Vec<PendingEntry>,
    aggregator: &mut Aggregator,
)
    requires
        old(aggregator).wf(),
    ensures
        final(aggregator).wf(),
        final(aggregator)@ == flushed(
            old(aggregator)@,
            pending_view(old(pending)@),
            old(pending)@.len(),
            doi@,
            opt_view(provider_id),
            opt_view(client_id),
        ),
        final(pending)@.len() == 0,
{
    let ghost start = aggregator@;
    let ghost all = pending_view(pending@);
    let n: usize = pending.len();
    let mut i: usize = 0;
    while i < n
        invariant
            n == pending@.len(),
            all == pending_view(pending@),
            0 <= i <= n,
            aggregator.wf(),
            aggregator@ == flushed(
                start,
                all,
                i as nat,
                doi@,
                opt_view(provider_id),
                opt_view(client_id),
            ),
        decreases n - i,
    {
        let entry: &PendingEntry = &pending[i];
        assert(all[i as int] == entry@);
        match &entry.affiliation.name {
            Some(raw) => {
                match sanitize_affiliation_value(raw.as_str()) {
                    Some(name) => {
                        let normalized = normalize_text(name);
                        let ror = normalize_ror_identifier(
                            as_text(&entry.affiliation.identifier),
                            as_text(&entry.affiliation.scheme),
                        );
                        aggregator.add_entry(
                            doi,
                            name,
                            as_text(&normalized),
                            as_text(&ror),
                            provider_id,
                            client_id,
                        );
                    },
                    None => {},
                }
            },
            None => {},
        }
        i += 1;
    }
    pending.clear();
}

/// The state of reading the export, as a mathematical value: the counts
/// so far, the affiliations of the current document in the making, the
/// current document with its provider and client, and the rows read.
pub ghost struct Grouping {
    pub tallies: Tallies,
    pub pending: Seq<Pending>,
    pub doi: Option<Seq<char>>,
    pub provider: Option<Seq<char>>,
    pub client: Option<Seq<char>>,
    pub rows: u64,
}

impl Grouping {
    /// The counts with the current document taken in.
    pub open spec fn finished(self) -> Tallies {
        match self.doi {
            Some(doi) => flushed(
                self.tallies,
                self.pending,
                self.pending.len(),
                doi,
                self.provider,
                self.client,
            ),
            None => self.tallies,
        }
    }

    /// The state after one more row. A row without DOI is only counted. A
    /// row of another document than the current one first has the current
    /// one taken in. A row that names a provider or client sets it for its
    /// document.
    pub open spec fn after_row(self, record: Seq<Seq<char>>, idx: ColumnIndices) -> Grouping {
        let doi = trimmed(field_at(record, idx.doi));
        let provider_value = trimmed(field_at(record, idx.provider_id));
        let client_value = trimmed(field_at(record, idx.client_id));
        if doi.len() == 0 {
            Grouping { rows: one_more(self.rows), ..self }
        } else {
            let changed = self.doi != Some(doi);
            let started = Grouping {
                tallies: if changed {
                    self.finished()
                } else {
                    self.tallies
                },
                pending: if changed && self.doi is Some {
                    Seq::empty()
                } else {
                    self.pending
                },
                doi: Some(doi),
                provider: if changed {
                    None
                } else {
                    self.provider
                },
                client: if changed {
                    None
                } else {
                    self.client
                },
                rows: one_more(self.rows),
            };
            Grouping {
                pending: after_record(started.pending, record, idx),
                provider: if provider_value.len() > 0 {
                    Some(provider_value)
                } else {
                    started.provider
                },
                client: if client_value.len() > 0 {
                    Some(client_value)
                } else {
                    started.client
                },
                ..started
            }
        }
    }
}

/// Whether progress is to be reported after `rows` rows, every
/// `log_every` rows.
pub open spec fn progress_due(rows: u64, log_every: u64) -> bool {
    log_every > 0 && rows % log_every == 0
}

/// Reads the export row by row. The rows of one document stand together;
/// its affiliations are counted when the next document begins, and at the
/// end.
pub struct RowGrouper {
    pub aggregator: Aggregator,
    pub pending: Vec<PendingEntry>,
    pub current_doi: Option<String>,
    pub current_provider: Option<String>,
    pub current_client: Option<String>,
    pub processed_rows: u64,
}

impl View for RowGrouper {
    type V = Grouping;

    open spec fn view(&self) -> Grouping {
        Grouping {
            tallies: self.aggregator@,
            pending: pending_view(self.pending@),
            doi: text_of(self.current_doi),
            provider: text_of(self.current_provider),
            client: text_of(self.current_client),
            rows: self.processed_rows,
        }
    }
}

impl RowGrouper {
    /// The counts hold each key once.
    pub open spec fn wf(&self) -> bool {
        self.aggregator.wf()
    }

    /// The state before the first row.
    pub fn new() -> (grouper: RowGrouper)
        ensures
            grouper.wf(),
            grouper@.pending.len() == 0,
            grouper@.doi is None,
            grouper@.provider is None,
            grouper@.client is None,
            grouper@.rows == 0,
            grouper@.tallies.affiliations.len() == 0,
            grouper@.tallies.normalized.len() == 0,
            grouper@.tallies.identifiers.len() == 0,
    {
        RowGrouper {
            aggregator: Aggregator::new(),
            pending: Vec::new(),
            current_doi: None,
            current_provider: None,
            current_client: None,
            processed_rows: 0,
        }
    }

    /// Takes in one row and says whether progress is to be reported.
    pub fn take_row(&mut self, record: &Vec<String>, idx: &ColumnIndices, log_every: u64) -> (report:
        bool)
        requires
            old(self).wf(),
        ensures
            final(self).wf(),
            final(self)@ == old(self)@.after_row(texts(record@), *idx),
            report == progress_due(final(self).processed_rows, log_every),
    {
        let ghost before = self@;
        self.processed_rows = increment(self.processed_rows);
        let report: bool = log_every > 0 && self.processed_rows % log_every == 0;
        let doi = trim(field(record, idx.doi));
        if doi.is_empty() {
            return report;
        }
        let provider_value = trim(field(record, idx.provider_id));
        let client_value = trim(field(record, idx.client_id));
        let same_document: bool = match &self.current_doi {
            Some(current) => same_text(current.as_str(), doi),
            None => false,
        };
        if !same_document {
            match &self.current_doi {
                Some(prev) => {
                    flush_pending(
                        prev.as_str(),
                        as_text(&self.current_provider),
                        as_text(&self.current_client),
                        &mut self.pending,
                        &mut self.aggregator,
                    );
                    assert(pending_view(self.pending@) =~= Seq::<Pending>::empty());
                },
                None => {},
            }
            self.current_doi = Some(String::from_str(doi));
            self.current_provider = None;
            self.current_client = None;
        }
        if !provider_value.is_empty() {
            self.current_provider = Some(String::from_str(provider_value));
        }
        if !client_value.is_empty() {
            self.current_client = Some(String::from_str(client_value));
        }
        handle_record(record, idx, &mut self.pending);
        report
    }

    /// Takes in the last document and hands out the counts.
    pub fn finish(self) -> (aggregator: Aggregator)
        requires
            self.wf(),
        ensures
            aggregator.wf(),
            aggregator@ == self@.finished(),
    {
        let mut grouper = self;
        match &grouper.current_doi {
            Some(last) => {
                flush_pending(
                    last.as_str(),
                    as_text(&grouper.current_provider),
                    as_text(&grouper.current_client),
                    &mut grouper.pending,
                    &mut grouper.aggregator,
                );
            },
            None => {},
        }
        grouper.aggregator
    }
}

} // verus!
