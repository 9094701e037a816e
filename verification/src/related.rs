//! Finding the documents that relate to a given set of DOIs: the DOIs in
//! canonical form, the set of input DOIs, and the matches of one document.

use crate::text_set::TextSet;
use crate::text::{is_blank, 
    ascii_lower, lowercased, same_text, strip_prefix, to_ascii_lowercase, to_lowercase, trim,
    trimmed, texts, without_prefix,
};
use vstd::prelude::*;

verus! {

/// A DOI without its resolver or scheme prefix.
pub open spec fn bare_doi(doi: Seq<char>) -> Seq<char> {
    let t = trimmed(doi);
    match without_prefix(t, "https://doi.org/"@) {
        Some(rest) => rest,
        None => match without_prefix(t, "http://doi.org/"@) {
            Some(rest) => rest,
            None => match without_prefix(t, "doi:"@) {
                Some(rest) => rest,
                None => t,
            },
        },
    }
}

/// A DOI in canonical form: trimmed, without prefix, in lower case.
pub open spec fn normalized_doi(doi: Seq<char>) -> Seq<char> {
    lowercased(bare_doi(doi))
}

/// A DOI trimmed and without its resolver or scheme prefix.
pub fn strip_doi_prefix(doi_str: &str) -> (r: &str)
    ensures
        r@ == bare_doi(doi_str@),
{
    let trimmed = trim(doi_str);
    match strip_prefix(trimmed, "https://doi.org/") {
        Some(rest) => rest,
        None => match strip_prefix(trimmed, "http://doi.org/") {
            Some(rest) => rest,
            None => match strip_prefix(trimmed, "doi:") {
                Some(rest) => rest,
                None => trimmed,
            },
        },
    }
}

/// The canonical form of a DOI.
pub fn normalize_doi(doi_str: &str) -> (r: String)
    ensures
        r@ == normalized_doi(doi_str@),
{
    to_lowercase(strip_doi_prefix(doi_str))
}

/// Whether a column header names the DOI column.
pub open spec fn is_doi_header(header: Seq<char>) -> bool {
    ascii_lower(trimmed(header)) == ascii_lower("doi"@)
}

/// The position of the first header that names the DOI column among the
/// first `n`.
pub open spec fn doi_header_position(headers: Seq<Seq<char>>, n: nat) -> Option<int>
    decreases n,
{
    if n == 0 || n > headers.len() {
        None
    } else {
        match doi_header_position(headers, (n - 1) as nat) {
            Some(i) => Some(i),
            None => if is_doi_header(headers[n - 1]) {
                Some(n - 1)
            } else {
                None
            },
        }
    }
}

proof fn lemma_doi_header_stays(headers: Seq<Seq<char>>, m: nat, n: nat)
    requires
        m <= n <= headers.len(),
        doi_header_position(headers, m) is Some,
    ensures
        doi_header_position(headers, n) == doi_header_position(headers, m),
    decreases n,
{
    if n > m {
        lemma_doi_header_stays(headers, m, (n - 1) as nat);
    }
}

/// The position of the DOI column: the first header that reads `doi`,
/// trimmed and without regard to ASCII case.
pub fn doi_column(headers: &Vec<String>) -> (r: Option<usize>)
    ensures
        match r {
            Some(i) => doi_header_position(texts(headers@), headers@.len()) == Some(i as int),
            None => doi_header_position(texts(headers@), headers@.len()) is None,
        },
{
    let wanted = to_ascii_lowercase("doi");
    let n: usize = headers.len();
    let mut i: usize = 0;
    while i < n
        invariant
            n == headers.len(),
            0 <= i <= n,
            wanted@ == ascii_lower("doi"@),
            doi_header_position(texts(headers@), i as nat) is None,
        decreases n - i,
    {
        assert(texts(headers@)[i as int] == headers@[i as int]@);
        let given = to_ascii_lowercase(trim(headers[i].as_str()));
        if same_text(given.as_str(), wanted.as_str()) {
            proof {
                lemma_doi_header_stays(texts(headers@), (i + 1) as nat, n as nat);
            }
            return Some(i);
        }
        i += 1;
    }
    None
}

/// Why the input DOIs cannot be used.
#[derive(PartialEq, Eq, Structural, Debug, Clone, Copy)]
pub enum InputError {
    /// The mapping has no column named `doi`.
    MissingDoiColumn,
    /// No value of the DOI column gave a DOI.
    NoInputDois,
}

/// What became of one value of the DOI column.
#[derive(PartialEq, Eq, Structural, Debug, Clone, Copy)]
pub enum DoiEntry {
    /// The value is blank.
    Blank,
    /// Nothing is left of the value in canonical form.
    EmptyAfterNormalizing,
    /// The DOI was taken in for the first time.
    Added,
    /// The DOI was there already.
    Known,
}

/// The set with the DOI of `value` taken in, if it gives one.
pub open spec fn with_input_doi(dois: Set<Seq<char>>, value: Seq<char>) -> Set<Seq<char>> {
    if trimmed(value).len() == 0 || normalized_doi(value).len() == 0 {
        dois
    } else {
        dois.insert(normalized_doi(value))
    }
}

/// The set with the DOIs of the first `n` of `values` taken in.
pub open spec fn with_input_dois(dois: Set<Seq<char>>, values: Seq<Seq<char>>, n: nat) -> Set<
    Seq<char>,
>
    decreases n,
{
    if n == 0 || n > values.len() {
        dois
    } else {
        with_input_doi(with_input_dois(dois, values, (n - 1) as nat), values[n - 1])
    }
}

/// Takes a DOI in canonical form into the set of input DOIs, unless it is
/// empty.
pub fn add_normalized_doi(dois: &mut TextSet, normalized: String) -> (entry: DoiEntry)
    ensures
        final(dois)@ == if normalized@.len() == 0 {
            old(dois)@
        } else {
            old(dois)@.insert(normalized@)
        },
        entry == if normalized@.len() == 0 {
            DoiEntry::EmptyAfterNormalizing
        } else if old(dois)@.contains(normalized@) {
            DoiEntry::Known
        } else {
            DoiEntry::Added
        },
{
    if normalized.as_str().is_empty() {
        return DoiEntry::EmptyAfterNormalizing;
    }
    if dois.insert(normalized) {
        DoiEntry::Added
    } else {
        DoiEntry::Known
    }
}

/// Takes one value of the DOI column into the set of input DOIs.
pub fn add_input_doi(dois: &mut TextSet, value: &str) -> (entry: DoiEntry)
    ensures
        final(dois)@ == with_input_doi(old(dois)@, value@),
        entry == if trimmed(value@).len() == 0 {
            DoiEntry::Blank
        } else if normalized_doi(value@).len() == 0 {
            DoiEntry::EmptyAfterNormalizing
        } else if old(dois)@.contains(normalized_doi(value@)) {
            DoiEntry::Known
        } else {
            DoiEntry::Added
        },
{
    if is_blank(value) {
        return DoiEntry::Blank;
    }
    add_normalized_doi(dois, normalize_doi(value))
}

/// The set of input DOIs from the values of the DOI column. A column that
/// gives no DOI is an error.
pub fn collect_input_dois(values: &Vec<String>) -> (r: Result<TextSet, InputError>)
    ensures
        match r {
            Ok(dois) => dois@ == with_input_dois(Set::empty(), texts(values@), values@.len())
                && !dois@.is_empty(),
            Err(e) => e == InputError::NoInputDois && with_input_dois(
                Set::empty(),
                texts(values@),
                values@.len(),
            ).is_empty(),
        },
{
    let mut dois = TextSet::new();
    let n: usize = values.len();
    let mut i: usize = 0;
    while i < n
        invariant
            n == values.len(),
            0 <= i <= n,
            dois@ == with_input_dois(Set::empty(), texts(values@), i as nat),
        decreases n - i,
    {
        assert(texts(values@)[i as int] == values@[i as int]@);
        add_input_doi(&mut dois, values[i].as_str());
        i += 1;
    }
    if dois.is_empty() {
        Err(InputError::NoInputDois)
    } else {
        Ok(dois)
    }
}

/// One related identifier of a document.
#[derive(Debug)]
pub struct RelatedIdentifier {
    pub related_identifier: Option<String>,
    pub relation_type: Option<String>,
    pub related_identifier_type: Option<String>,
    pub resource_type_general: Option<String>,
    pub resource_type: Option<String>,
}

/// The resource type of a document.
#[derive(Debug)]
pub struct Types {
    pub resource_type: Option<String>,
    pub resource_type_general: Option<String>,
}

/// The attributes of a document that matching reads.
#[derive(Debug)]
pub struct Attributes {
    pub doi: Option<String>,
    pub state: Option<String>,
    pub related_identifiers: Vec<RelatedIdentifier>,
    pub types: Option<Types>,
}

/// A document as matching reads it.
#[derive(Debug)]
pub struct DataCiteRecord {
    pub attributes: Attributes,
}

/// One match: an input DOI that a document relates to.
#[derive(Debug)]
pub struct MatchResult {
    pub input_doi: String,
    pub matched_relation_type: Option<String>,
    pub datacite_record_doi: Option<String>,
    pub datacite_record_resource_type: Option<String>,
    pub datacite_record_resource_type_general: Option<String>,
}

/// A match as a mathematical value.
pub ghost struct Match {
    pub input_doi: Seq<char>,
    pub matched_relation_type: Option<Seq<char>>,
    pub datacite_record_doi: Option<Seq<char>>,
    pub datacite_record_resource_type: Option<Seq<char>>,
    pub datacite_record_resource_type_general: Option<Seq<char>>,
}

/// The text of an optional string.
pub open spec fn opt_text(o: Option<String>) -> Option<Seq<char>> {
    match o {
        Some(s) => Some(s@),
        None => None,
    }
}

impl View for MatchResult {
    type V = Match;

    open spec fn view(&self) -> Match {
        Match {
            input_doi: self.input_doi@,
            matched_relation_type: opt_text(self.matched_relation_type),
            datacite_record_doi: opt_text(self.datacite_record_doi),
            datacite_record_resource_type: opt_text(self.datacite_record_resource_type),
            datacite_record_resource_type_general: opt_text(
                self.datacite_record_resource_type_general,
            ),
        }
    }
}

/// The views of a sequence of matches.
pub open spec fn matches_view(found: Seq<MatchResult>) -> Seq<Match> {
    Seq::new(found.len(), |i: int| found[i]@)
}

/// Whether the relation type passes the filter: any type where there is no
/// filter, else one that the filter holds.
pub open spec fn relation_passes(relation_type: Option<String>, filter: Option<Set<Seq<char>>>) -> bool {
    match filter {
        Some(allowed) => match relation_type {
            Some(t) => allowed.contains(t@),
            None => false,
        },
        None => true,
    }
}

/// The resource type of the document.
pub open spec fn record_resource_type(record: DataCiteRecord) -> Option<Seq<char>> {
    match record.attributes.types {
        Some(t) => opt_text(t.resource_type),
        None => None,
    }
}

/// The general resource type of the document.
pub open spec fn record_resource_type_general(record: DataCiteRecord) -> Option<Seq<char>> {
    match record.attributes.types {
        Some(t) => opt_text(t.resource_type_general),
        None => None,
    }
}

/// The match that one related identifier gives, given its DOI and the
/// document's own in canonical form: it is not blank, it names an input
/// DOI other than the document's own, and its relation type passes the
/// filter.
pub open spec fn match_for(
    record: DataCiteRecord,
    related: RelatedIdentifier,
    normalized: Seq<char>,
    own: Option<Seq<char>>,
    input_dois: Set<Seq<char>>,
    filter: Option<Set<Seq<char>>>,
) -> Option<Match> {
    match related.related_identifier {
        Some(id) => {
            if trimmed(id@).len() > 0 && normalized.len() > 0 && input_dois.contains(normalized)
                && own != Some(normalized) && relation_passes(related.relation_type, filter) {
                Some(
                    Match {
                        input_doi: normalized,
                        matched_relation_type: opt_text(related.relation_type),
                        datacite_record_doi: opt_text(record.attributes.doi),
                        datacite_record_resource_type: record_resource_type(record),
                        datacite_record_resource_type_general: record_resource_type_general(
                            record,
                        ),
                    },
                )
            } else {
                None
            }
        },
        None => None,
    }
}

/// The match that one related identifier gives.
pub open spec fn match_of(
    record: DataCiteRecord,
    related: RelatedIdentifier,
    input_dois: Set<Seq<char>>,
    filter: Option<Set<Seq<char>>>,
) -> Option<Match> {
    match related.related_identifier {
        Some(id) => match_for(
            record,
            related,
            normalized_doi(id@),
            match record.attributes.doi {
                Some(doi) => Some(normalized_doi(doi@)),
                None => None,
            },
            input_dois,
            filter,
        ),
        None => None,
    }
}

/// The matches of the first `n` related identifiers of the document.
pub open spec fn matches_among(
    record: DataCiteRecord,
    n: nat,
    input_dois: Set<Seq<char>>,
    filter: Option<Set<Seq<char>>>,
) -> Seq<Match>
    decreases n,
{
    if n == 0 || n > record.attributes.related_identifiers@.len() {
        Seq::empty()
    } else {
        let earlier = matches_among(record, (n - 1) as nat, input_dois, filter);
        match match_of(record, record.attributes.related_identifiers@[n - 1], input_dois, filter) {
            Some(m) => earlier.push(m),
            None => earlier,
        }
    }
}

/// The matches of the document: none unless it is findable.
pub open spec fn record_matches(
    record: DataCiteRecord,
    input_dois: Set<Seq<char>>,
    filter: Option<Set<Seq<char>>>,
) -> Seq<Match> {
    if opt_text(record.attributes.state) == Some("findable"@) {
        matches_among(record, record.attributes.related_identifiers@.len(), input_dois, filter)
    } else {
        Seq::empty()
    }
}

/// The view of an optional filter.
pub open spec fn filter_view(filter: Option<TextSet>) -> Option<Set<Seq<char>>> {
    match filter {
        Some(allowed) => Some(allowed@),
        None => None,
    }
}

fn copy_of(o: &Option<String>) -> (r: Option<String>)
    ensures
        r == *o,
{
    match o {
        Some(s) => Some(s.clone()),
        None => None,
    }
}

/// The match that one related identifier of a document gives, given its
/// DOI and the document's own in canonical form.
pub fn related_match(
    record: &DataCiteRecord,
    related: &RelatedIdentifier,
    normalized: String,
    own: &Option<String>,
    input_dois: &TextSet,
    relation_type_filter: &Option<TextSet>,
) -> (r: Option<MatchResult>)
    ensures
        match r {
            Some(m) => match_for(
                *record,
                *related,
                normalized@,
                opt_text(*own),
                input_dois@,
                filter_view(*relation_type_filter),
            ) == Some(m@),
            None => match_for(
                *record,
                *related,
                normalized@,
                opt_text(*own),
                input_dois@,
                filter_view(*relation_type_filter),
            ) is None,
        },
{
    match &related.related_identifier {
        Some(id) => {
            if is_blank(id.as_str()) {
                return None;
            }
            let is_own: bool = match own {
                Some(doi) => same_text(doi.as_str(), normalized.as_str()),
                None => false,
            };
            let passes: bool = match relation_type_filter {
                Some(allowed) => match &related.relation_type {
                    Some(t) => allowed.contains(t.as_str()),
                    None => false,
                },
                None => true,
            };
            if normalized.as_str().is_empty() || !input_dois.contains(normalized.as_str())
                || is_own || !passes {
                return None;
            }
            let (resource_type, resource_type_general) = match &record.attributes.types {
                Some(t) => (copy_of(&t.resource_type), copy_of(&t.resource_type_general)),
                None => (None, None),
            };
            Some(
                MatchResult {
                    input_doi: normalized,
                    matched_relation_type: copy_of(&related.relation_type),
                    datacite_record_doi: copy_of(&record.attributes.doi),
                    datacite_record_resource_type: resource_type,
                    datacite_record_resource_type_general: resource_type_general,
                },
            )
        },
        None => None,
    }
}

/// The matches of one document against the input DOIs.
pub fn find_matches(
    record: &DataCiteRecord,
    input_dois: &TextSet,
    relation_type_filter: &Option<TextSet>,
) -> (found: Vec<MatchResult>)
    ensures
        matches_view(found@) == record_matches(
            *record,
            input_dois@,
            filter_view(*relation_type_filter),
        ),
{
    let mut found: Vec<MatchResult> = Vec::new();
    let ghost filter = filter_view(*relation_type_filter);
    assert(matches_view(found@) =~= Seq::<Match>::empty());
    let findable: bool = match &record.attributes.state {
        Some(state) => same_text(state.as_str(), "findable"),
        None => false,
    };
    if !findable {
        return found;
    }
    let own: Option<String> = match &record.attributes.doi {
        Some(doi) => Some(normalize_doi(doi.as_str())),
        None => None,
    };
    let n: usize = record.attributes.related_identifiers.len();
    let mut i: usize = 0;
    while i < n
        invariant
            n == record.attributes.related_identifiers.len(),
            0 <= i <= n,
            filter == filter_view(*relation_type_filter),
            opt_text(own) == match record.attributes.doi {
                Some(doi) => Some(normalized_doi(doi@)),
                None => None,
            },
            matches_view(found@) == matches_among(*record, i as nat, input_dois@, filter),
        decreases n - i,
    {
        let related: &RelatedIdentifier = &record.attributes.related_identifiers[i];
        let ghost before = matches_view(found@);
        let hit: Option<MatchResult> = match &related.related_identifier {
            Some(id) => related_match(
                record,
                related,
                normalize_doi(id.as_str()),
                &own,
                input_dois,
                relation_type_filter,
            ),
            None => None,
        };
        match hit {
            Some(result) => {
                assert(Some(result@) == match_of(*record, *related, input_dois@, filter));
                found.push(result);
                assert(matches_view(found@) =~= before.push(
                    match_of(*record, *related, input_dois@, filter)->0,
                ));
            },
            None => {
                assert(match_of(*record, *related, input_dois@, filter) is None);
            },
        }
        i += 1;
    }
    found
}

} // verus!
