//! Affiliation statistics: how often each affiliation name, each
//! normalized name and each identifier was seen, with or without an
//! identifier, and for which providers, clients and DOIs.

use crate::affiliation::{non_empty_str, nonblank};
use crate::counter::{bumped, bumped_by, increment, one_more, Counter};
use crate::ordered_map::{key_position, lemma_key_position_found, OrderedMap};
use vstd::prelude::*;

verus! {

/// The counts of one affiliation name as a mathematical value.
pub ghost struct AffiliationTally {
    pub with_ror: u64,
    pub without_ror: u64,
    pub rors: Seq<(Seq<char>, u64)>,
    pub providers: Seq<(Seq<char>, u64)>,
    pub clients: Seq<(Seq<char>, u64)>,
}

/// The counts of one normalized name as a mathematical value.
pub ghost struct NormalizedTally {
    pub total: u64,
    pub affiliations: Seq<(Seq<char>, u64)>,
    pub dois: Seq<(Seq<char>, u64)>,
    pub providers: Seq<(Seq<char>, u64)>,
    pub clients: Seq<(Seq<char>, u64)>,
}

/// The counts of one identifier as a mathematical value.
pub ghost struct IdentifierTally {
    pub total: u64,
    pub dois: Seq<(Seq<char>, u64)>,
    pub providers: Seq<(Seq<char>, u64)>,
    pub clients: Seq<(Seq<char>, u64)>,
}

/// All counts as a mathematical value, each list in the order in which
/// its keys were first seen.
pub ghost struct Tallies {
    pub affiliations: Seq<(Seq<char>, AffiliationTally)>,
    pub normalized: Seq<(Seq<char>, NormalizedTally)>,
    pub identifiers: Seq<(Seq<char>, IdentifierTally)>,
}

/// The text of an optional string slice.
pub open spec fn opt_view(o: Option<&str>) -> Option<Seq<char>> {
    match o {
        Some(s) => Some(s@),
        None => None,
    }
}

/// The trimmed text of an optional value; nothing for a blank one.
pub open spec fn nonblank_of(o: Option<Seq<char>>) -> Option<Seq<char>> {
    match o {
        Some(s) => nonblank(s),
        None => None,
    }
}

impl AffiliationTally {
    /// The counts before anything was seen.
    pub open spec fn fresh() -> AffiliationTally {
        AffiliationTally {
            with_ror: 0,
            without_ror: 0,
            rors: Seq::empty(),
            providers: Seq::empty(),
            clients: Seq::empty(),
        }
    }

    /// The counts with one more occurrence taken in.
    pub open spec fn with_entry(
        self,
        ror: Option<Seq<char>>,
        provider: Option<Seq<char>>,
        client: Option<Seq<char>>,
    ) -> AffiliationTally {
        AffiliationTally {
            with_ror: if ror is Some {
                one_more(self.with_ror)
            } else {
                self.with_ror
            },
            without_ror: if ror is Some {
                self.without_ror
            } else {
                one_more(self.without_ror)
            },
            rors: bumped_by(self.rors, ror),
            providers: bumped_by(self.providers, provider),
            clients: bumped_by(self.clients, client),
        }
    }
}

impl NormalizedTally {
    /// The counts before anything was seen.
    pub open spec fn fresh() -> NormalizedTally {
        NormalizedTally {
            total: 0,
            affiliations: Seq::empty(),
            dois: Seq::empty(),
            providers: Seq::empty(),
            clients: Seq::empty(),
        }
    }

    /// The counts with one more occurrence taken in.
    pub open spec fn with_entry(
        self,
        affiliation: Seq<char>,
        doi: Seq<char>,
        provider: Option<Seq<char>>,
        client: Option<Seq<char>>,
    ) -> NormalizedTally {
        NormalizedTally {
            total: one_more(self.total),
            affiliations: bumped(self.affiliations, affiliation),
            dois: bumped(self.dois, doi),
            providers: bumped_by(self.providers, provider),
            clients: bumped_by(self.clients, client),
        }
    }
}

impl IdentifierTally {
    /// The counts before anything was seen.
    pub open spec fn fresh() -> IdentifierTally {
        IdentifierTally {
            total: 0,
            dois: Seq::empty(),
            providers: Seq::empty(),
            clients: Seq::empty(),
        }
    }

    /// The counts with one more occurrence taken in.
    pub open spec fn with_entry(
        self,
        doi: Seq<char>,
        provider: Option<Seq<char>>,
        client: Option<Seq<char>>,
    ) -> IdentifierTally {
        IdentifierTally {
            total: one_more(self.total),
            dois: bumped(self.dois, doi),
            providers: bumped_by(self.providers, provider),
            clients: bumped_by(self.clients, client),
        }
    }
}

/// The entries with `value` under `key`: in place of what was there, or
/// behind the others.
pub open spec fn put<T>(entries: Seq<(Seq<char>, T)>, key: Seq<char>, value: T) -> Seq<
    (Seq<char>, T),
> {
    match key_position(entries, entries.len(), key) {
        Some(i) => entries.update(i, (key, value)),
        None => entries.push((key, value)),
    }
}

/// The tally of an affiliation name; a fresh one where it was never seen.
pub open spec fn affiliation_tally(
    entries: Seq<(Seq<char>, AffiliationTally)>,
    key: Seq<char>,
) -> AffiliationTally {
    match key_position(entries, entries.len(), key) {
        Some(i) => entries[i].1,
        None => AffiliationTally::fresh(),
    }
}

/// The tally of a normalized name; a fresh one where it was never seen.
pub open spec fn normalized_tally(
    entries: Seq<(Seq<char>, NormalizedTally)>,
    key: Seq<char>,
) -> NormalizedTally {
    match key_position(entries, entries.len(), key) {
        Some(i) => entries[i].1,
        None => NormalizedTally::fresh(),
    }
}

/// The tally of an identifier; a fresh one where it was never seen.
pub open spec fn identifier_tally(
    entries: Seq<(Seq<char>, IdentifierTally)>,
    key: Seq<char>,
) -> IdentifierTally {
    match key_position(entries, entries.len(), key) {
        Some(i) => entries[i].1,
        None => IdentifierTally::fresh(),
    }
}

impl Tallies {
    /// The counts with one more affiliation of a document taken in. Blank
    /// provider and client identifiers are not counted.
    pub open spec fn with_entry(
        self,
        doi: Seq<char>,
        affiliation: Seq<char>,
        normalized: Option<Seq<char>>,
        ror: Option<Seq<char>>,
        provider: Option<Seq<char>>,
        client: Option<Seq<char>>,
    ) -> Tallies {
        let p = nonblank_of(provider);
        let c = nonblank_of(client);
        Tallies {
            affiliations: put(
                self.affiliations,
                affiliation,
                affiliation_tally(self.affiliations, affiliation).with_entry(ror, p, c),
            ),
            normalized: match normalized {
                Some(n) => put(
                    self.normalized,
                    n,
                    normalized_tally(self.normalized, n).with_entry(affiliation, doi, p, c),
                ),
                None => self.normalized,
            },
            identifiers: match ror {
                Some(r) => put(
                    self.identifiers,
                    r,
                    identifier_tally(self.identifiers, r).with_entry(doi, p, c),
                ),
                None => self.identifiers,
            },
        }
    }
}

/// The counts of one affiliation name.
pub struct AffiliationCounts {
    pub with_ror: u64,
    pub without_ror: u64,
    pub ror_counts: Counter,
    pub provider_counts: Counter,
    pub client_counts: Counter,
}

/// The counts of one normalized name.
pub struct NormalizedCounts {
    pub total: u64,
    pub affiliations: Counter,
    pub dois: Counter,
    pub provider_counts: Counter,
    pub client_counts: Counter,
}

/// The counts of one identifier.
pub struct IdentifierCounts {
    pub total: u64,
    pub dois: Counter,
    pub provider_counts: Counter,
    pub client_counts: Counter,
}

impl View for AffiliationCounts {
    type V = AffiliationTally;

    open spec fn view(&self) -> AffiliationTally {
        AffiliationTally {
            with_ror: self.with_ror,
            without_ror: self.without_ror,
            rors: self.ror_counts@,
            providers: self.provider_counts@,
            clients: self.client_counts@,
        }
    }
}

impl View for NormalizedCounts {
    type V = NormalizedTally;

    open spec fn view(&self) -> NormalizedTally {
        NormalizedTally {
            total: self.total,
            affiliations: self.affiliations@,
            dois: self.dois@,
            providers: self.provider_counts@,
            clients: self.client_counts@,
        }
    }
}

impl View for IdentifierCounts {
    type V = IdentifierTally;

    open spec fn view(&self) -> IdentifierTally {
        IdentifierTally {
            total: self.total,
            dois: self.dois@,
            providers: self.provider_counts@,
            clients: self.client_counts@,
        }
    }
}

fn add_to(counter: &mut Counter, key: Option<&str>)
    requires
        old(counter).wf(),
    ensures
        final(counter).wf(),
        final(counter)@ == bumped_by(old(counter)@, opt_view(key)),
{
    match key {
        Some(k) => {
            counter.add(k);
        },
        None => {},
    }
}

impl AffiliationCounts {
    /// The counters hold each key once.
    pub open spec fn wf(&self) -> bool {
        self.ror_counts.wf() && self.provider_counts.wf() && self.client_counts.wf()
    }

    /// The counts before anything was seen.
    pub fn new() -> (counts: AffiliationCounts)
        ensures
            counts.wf(),
            counts@ == AffiliationTally::fresh(),
    {
        AffiliationCounts {
            with_ror: 0,
            without_ror: 0,
            ror_counts: Counter::new(),
            provider_counts: Counter::new(),
            client_counts: Counter::new(),
        }
    }

    /// Takes in one more occurrence.
    pub fn add(&mut self, ror: Option<&str>, provider: Option<&str>, client: Option<&str>)
        requires
            old(self).wf(),
        ensures
            final(self).wf(),
            final(self)@ == old(self)@.with_entry(
                opt_view(ror),
                opt_view(provider),
                opt_view(client),
            ),
    {
        match ror {
            Some(_) => {
                self.with_ror = increment(self.with_ror);
            },
            None => {
                self.without_ror = increment(self.without_ror);
            },
        }
        add_to(&mut self.ror_counts, ror);
        add_to(&mut self.provider_counts, provider);
        add_to(&mut self.client_counts, client);
    }
}

impl NormalizedCounts {
    /// The counters hold each key once.
    pub open spec fn wf(&self) -> bool {
        self.affiliations.wf() && self.dois.wf() && self.provider_counts.wf()
            && self.client_counts.wf()
    }

    /// The counts before anything was seen.
    pub fn new() -> (counts: NormalizedCounts)
        ensures
            counts.wf(),
            counts@ == NormalizedTally::fresh(),
    {
        NormalizedCounts {
            total: 0,
            affiliations: Counter::new(),
            dois: Counter::new(),
            provider_counts: Counter::new(),
            client_counts: Counter::new(),
        }
    }

    /// Takes in one more occurrence.
    pub fn add(
        &mut self,
        affiliation: &str,
        doi: &str,
        provider: Option<&str>,
        client: Option<&str>,
    )
        requires
            old(self).wf(),
        ensures
            final(self).wf(),
            final(self)@ == old(self)@.with_entry(
                affiliation@,
                doi@,
                opt_view(provider),
                opt_view(client),
            ),
    {
        self.total = increment(self.total);
        self.affiliations.add(affiliation);
        self.dois.add(doi);
        add_to(&mut self.provider_counts, provider);
        add_to(&mut self.client_counts, client);
    }
}

impl IdentifierCounts {
    /// The counters hold each key once.
    pub open spec fn wf(&self) -> bool {
        self.dois.wf() && self.provider_counts.wf() && self.client_counts.wf()
    }

    /// The counts before anything was seen.
    pub fn new() -> (counts: IdentifierCounts)
        ensures
            counts.wf(),
            counts@ == IdentifierTally::fresh(),
    {
        IdentifierCounts {
            total: 0,
            dois: Counter::new(),
            provider_counts: Counter::new(),
            client_counts: Counter::new(),
        }
    }

    /// Takes in one more occurrence.
    pub fn add(&mut self, doi: &str, provider: Option<&str>, client: Option<&str>)
        requires
            old(self).wf(),
        ensures
            final(self).wf(),
            final(self)@ == old(self)@.with_entry(doi@, opt_view(provider), opt_view(client)),
    {
        self.total = increment(self.total);
        self.dois.add(doi);
        add_to(&mut self.provider_counts, provider);
        add_to(&mut self.client_counts, client);
    }
}

/// The tallies of a list of affiliation counts.
pub open spec fn affiliation_tallies(entries: Seq<(Seq<char>, AffiliationCounts)>) -> Seq<
    (Seq<char>, AffiliationTally),
> {
    Seq::new(entries.len(), |i: int| (entries[i].0, entries[i].1@))
}

/// The tallies of a list of normalized counts.
pub open spec fn normalized_tallies(entries: Seq<(Seq<char>, NormalizedCounts)>) -> Seq<
    (Seq<char>, NormalizedTally),
> {
    Seq::new(entries.len(), |i: int| (entries[i].0, entries[i].1@))
}

/// The tallies of a list of identifier counts.
pub open spec fn identifier_tallies(entries: Seq<(Seq<char>, IdentifierCounts)>) -> Seq<
    (Seq<char>, IdentifierTally),
> {
    Seq::new(entries.len(), |i: int| (entries[i].0, entries[i].1@))
}

/// The place of a key depends on the keys alone.
pub proof fn lemma_same_keys_same_position<A, B>(
    a: Seq<(Seq<char>, A)>,
    b: Seq<(Seq<char>, B)>,
    n: nat,
    key: Seq<char>,
)
    requires
        a.len() == b.len(),
        forall|i: int| 0 <= i < a.len() ==> (#[trigger] a[i]).0 == b[i].0,
    ensures
        key_position(a, n, key) == key_position(b, n, key),
    decreases n,
{
    if n > 0 && n <= a.len() {
        lemma_same_keys_same_position(a, b, (n - 1) as nat, key);
        assert(a[n - 1].0 == b[n - 1].0);
    }
}

/// All counts of a run.
pub struct Aggregator {
    pub affiliations: OrderedMap<AffiliationCounts>,
    pub normalized: OrderedMap<NormalizedCounts>,
    pub identifiers: OrderedMap<IdentifierCounts>,
}

impl View for Aggregator {
    type V = Tallies;

    open spec fn view(&self) -> Tallies {
        Tallies {
            affiliations: affiliation_tallies(self.affiliations@),
            normalized: normalized_tallies(self.normalized@),
            identifiers: identifier_tallies(self.identifiers@),
        }
    }
}

fn trimmed_or_none(value: Option<&str>) -> (r: Option<&str>)
    ensures
        opt_view(r) == nonblank_of(opt_view(value)),
{
    match value {
        Some(v) => non_empty_str(v),
        None => None,
    }
}

impl Aggregator {
    /// Every map and every counter holds each key once.
    pub open spec fn wf(&self) -> bool {
        &&& self.affiliations.wf()
        &&& self.normalized.wf()
        &&& self.identifiers.wf()
        &&& forall|i: int|
            0 <= i < self.affiliations@.len() ==> (#[trigger] self.affiliations@[i]).1.wf()
        &&& forall|i: int|
            0 <= i < self.normalized@.len() ==> (#[trigger] self.normalized@[i]).1.wf()
        &&& forall|i: int|
            0 <= i < self.identifiers@.len() ==> (#[trigger] self.identifiers@[i]).1.wf()
    }

    /// The counts before anything was seen.
    pub fn new() -> (aggregator: Aggregator)
        ensures
            aggregator.wf(),
            aggregator@.affiliations.len() == 0,
            aggregator@.normalized.len() == 0,
            aggregator@.identifiers.len() == 0,
    {
        Aggregator {
            affiliations: OrderedMap::new(),
            normalized: OrderedMap::new(),
            identifiers: OrderedMap::new(),
        }
    }

    fn add_affiliation(
        &mut self,
        affiliation: &str,
        ror: Option<&str>,
        provider: Option<&str>,
        client: Option<&str>,
    )
        requires
            old(self).wf(),
        ensures
            final(self).wf(),
            final(self).normalized == old(self).normalized,
            final(self).identifiers == old(self).identifiers,
            final(self)@.affiliations == put(
                old(self)@.affiliations,
                affiliation@,
                affiliation_tally(old(self)@.affiliations, affiliation@).with_entry(
                    opt_view(ror),
                    opt_view(provider),
                    opt_view(client),
                ),
            ),
    {
        let ghost held = self.affiliations@;
        let ghost before = self@.affiliations;
        proof {
            lemma_same_keys_same_position(held, before, held.len(), affiliation@);
            lemma_key_position_found(held, held.len(), affiliation@);
        }
        let i: usize = match self.affiliations.position(affiliation) {
            Some(i) => i,
            None => self.affiliations.push(affiliation, AffiliationCounts::new()),
        };
        let mut counts = self.affiliations.replace(i, AffiliationCounts::new());
        counts.add(ror, provider, client);
        self.affiliations.replace(i, counts);
        proof {
            let after = self.affiliations@;
            assert(self@.affiliations =~= put(
                before,
                affiliation@,
                affiliation_tally(before, affiliation@).with_entry(
                    opt_view(ror),
                    opt_view(provider),
                    opt_view(client),
                ),
            ));
            assert forall|k: int| 0 <= k < after.len() implies (#[trigger] after[k]).1.wf() by {
                if k != i {
                    assert(after[k] == held[k]);
                }
            }
        }
    }

    fn add_normalized(
        &mut self,
        normalized: &str,
        affiliation: &str,
        doi: &str,
        provider: Option<&str>,
        client: Option<&str>,
    )
        requires
            old(self).wf(),
        ensures
            final(self).wf(),
            final(self).affiliations == old(self).affiliations,
            final(self).identifiers == old(self).identifiers,
            final(self)@.normalized == put(
                old(self)@.normalized,
                normalized@,
                normalized_tally(old(self)@.normalized, normalized@).with_entry(
                    affiliation@,
                    doi@,
                    opt_view(provider),
                    opt_view(client),
                ),
            ),
    {
        let ghost held = self.normalized@;
        let ghost before = self@.normalized;
        proof {
            lemma_same_keys_same_position(held, before, held.len(), normalized@);
            lemma_key_position_found(held, held.len(), normalized@);
        }
        let i: usize = match self.normalized.position(normalized) {
            Some(i) => i,
            None => self.normalized.push(normalized, NormalizedCounts::new()),
        };
        let mut counts = self.normalized.replace(i, NormalizedCounts::new());
        counts.add(affiliation, doi, provider, client);
        self.normalized.replace(i, counts);
        proof {
            let after = self.normalized@;
            assert(self@.normalized =~= put(
                before,
                normalized@,
                normalized_tally(before, normalized@).with_entry(
                    affiliation@,
                    doi@,
                    opt_view(provider),
                    opt_view(client),
                ),
            ));
            assert forall|k: int| 0 <= k < after.len() implies (#[trigger] after[k]).1.wf() by {
                if k != i {
                    assert(after[k] == held[k]);
                }
            }
        }
    }

    fn add_identifier(
        &mut self,
        identifier: &str,
        doi: &str,
        provider: Option<&str>,
        client: Option<&str>,
    )
        requires
            old(self).wf(),
        ensures
            final(self).wf(),
            final(self).affiliations == old(self).affiliations,
            final(self).normalized == old(self).normalized,
            final(self)@.identifiers == put(
                old(self)@.identifiers,
                identifier@,
                identifier_tally(old(self)@.identifiers, identifier@).with_entry(
                    doi@,
                    opt_view(provider),
                    opt_view(client),
                ),
            ),
    {
        let ghost held = self.identifiers@;
        let ghost before = self@.identifiers;
        proof {
            lemma_same_keys_same_position(held, before, held.len(), identifier@);
            lemma_key_position_found(held, held.len(), identifier@);
        }
        let i: usize = match self.identifiers.position(identifier) {
            Some(i) => i,
            None => self.identifiers.push(identifier, IdentifierCounts::new()),
        };
        let mut counts = self.identifiers.replace(i, IdentifierCounts::new());
        counts.add(doi, provider, client);
        self.identifiers.replace(i, counts);
        proof {
            let after = self.identifiers@;
            assert(self@.identifiers =~= put(
                before,
                identifier@,
                identifier_tally(before, identifier@).with_entry(
                    doi@,
                    opt_view(provider),
                    opt_view(client),
                ),
            ));
            assert forall|k: int| 0 <= k < after.len() implies (#[trigger] after[k]).1.wf() by {
                if k != i {
                    assert(after[k] == held[k]);
                }
            }
        }
    }

    /// Takes in one affiliation of a document: its name, its normalized
    /// name and identifier where it has them, and the provider and client
    /// of the document where they are not blank.
    pub fn add_entry(
        &mut self,
        doi: &str,
        affiliation: &str,
        normalized: Option<&str>,
        ror_id: Option<&str>,
        provider_id: Option<&str>,
        client_id: Option<&str>,
    )
        requires
            old(self).wf(),
        ensures
            final(self).wf(),
            final(self)@ == old(self)@.with_entry(
                doi@,
                affiliation@,
                opt_view(normalized),
                opt_view(ror_id),
                opt_view(provider_id),
                opt_view(client_id),
            ),
    {
        let provider = trimmed_or_none(provider_id);
        let client = trimmed_or_none(client_id);
        self.add_affiliation(affiliation, ror_id, provider, client);
        match ror_id {
            Some(ror) => {
                self.add_identifier(ror, doi, provider, client);
            },
            None => {},
        }
        match normalized {
            Some(norm) => {
                self.add_normalized(norm, affiliation, doi, provider, client);
            },
            None => {},
        }
    }
}

} // verus!
