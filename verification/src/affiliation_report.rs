//! The reports of the affiliation statistics: each a list of records in
//! rank, by falling number of occurrences and then by name, with the
//! counts inside each record in the order of their keys.

use crate::aggregate::{
    affiliation_tallies, identifier_tallies, normalized_tallies, AffiliationTally, Aggregator,
    IdentifierTally, NormalizedTally,
};
use crate::counter::{listed, pairs_view, Counter};
use crate::ordered_map::entry_names;
use crate::ordering::arranged_by;
use crate::text::texts;
use vstd::prelude::*;

verus! {

/// The keys of a set of counts and how many there are, as a mathematical
/// value.
pub ghost struct Breakdown {
    pub unique_total: u64,
    pub counts: Seq<(Seq<char>, u64)>,
}

/// How many distinct keys were counted, and the count of each, by key.
pub struct EntityBreakdown {
    pub unique_total: u64,
    pub counts: Vec<(String, u64)>,
}

impl View for EntityBreakdown {
    type V = Breakdown;

    open spec fn view(&self) -> Breakdown {
        Breakdown { unique_total: self.unique_total, counts: pairs_view(self.counts@) }
    }
}

/// The breakdown of a set of counts.
pub open spec fn breakdown_of(entries: Seq<(Seq<char>, u64)>) -> Breakdown {
    Breakdown { unique_total: entries.len() as u64, counts: listed(entries, false) }
}

/// The keys of a set of counts, in their order.
pub open spec fn names_of(entries: Seq<(Seq<char>, u64)>) -> Seq<Seq<char>> {
    Seq::new(entries.len(), |k: int| listed(entries, false)[k].0)
}

/// The sum of two counts, as far as the machine can count.
pub open spec fn capped_total(a: u64, b: u64) -> u64 {
    if a + b <= u64::MAX {
        (a + b) as u64
    } else {
        u64::MAX
    }
}

/// The breakdown of a set of counts.
pub fn entity_breakdown(counter: &Counter) -> (b: EntityBreakdown)
    requires
        counter.wf(),
    ensures
        b@ == breakdown_of(counter@),
{
    EntityBreakdown { unique_total: counter.len() as u64, counts: counter.listing(false) }
}

/// The keys of a set of counts, in their order.
pub fn sorted_names(counter: &Counter) -> (names: Vec<String>)
    requires
        counter.wf(),
    ensures
        texts(names@) == names_of(counter@),
{
    let list = counter.listing(false);
    let ghost pairs = pairs_view(list@);
    let mut names: Vec<String> = Vec::new();
    let n: usize = list.len();
    let mut i: usize = 0;
    while i < n
        invariant
            n == list@.len(),
            0 <= i <= n,
            pairs == pairs_view(list@),
            names@.len() == i,
            forall|k: int| 0 <= k < i ==> (#[trigger] names@[k])@ == pairs[k].0,
        decreases n - i,
    {
        assert(pairs[i as int].0 == list@[i as int].0@);
        names.push(list[i].0.clone());
        i += 1;
    }
    proof {
        assert(pairs == listed(counter@, false));
        assert(listed(counter@, false).len() == counter@.len());
        assert(pairs.len() == n);
        assert(names_of(counter@).len() == n);
        assert forall|k: int| 0 <= k < n implies #[trigger] texts(names@)[k] == names_of(
            counter@,
        )[k] by {
            assert(names@[k]@ == pairs[k].0);
            assert(names_of(counter@)[k] == listed(counter@, false)[k].0);
        }
        assert(texts(names@) =~= names_of(counter@));
    }
    names
}

/// An affiliation that was seen with an identifier, as a mathematical value.
pub ghost struct WithRorRow {
    pub affiliation: Seq<char>,
    pub occurrences: u64,
    pub providers: Breakdown,
    pub clients: Breakdown,
    pub ror_assignments: Seq<(Seq<char>, u64)>,
}

/// An affiliation that was seen with an identifier.
pub struct AffiliationWithRorRecord {
    pub affiliation: String,
    pub occurrences: u64,
    pub providers: EntityBreakdown,
    pub clients: EntityBreakdown,
    pub ror_assignments: Vec<(String, u64)>,
}

impl View for AffiliationWithRorRecord {
    type V = WithRorRow;

    open spec fn view(&self) -> WithRorRow {
        WithRorRow {
            affiliation: self.affiliation@,
            occurrences: self.occurrences,
            providers: self.providers@,
            clients: self.clients@,
            ror_assignments: pairs_view(self.ror_assignments@),
        }
    }
}

/// An affiliation that was never seen with an identifier, as a
/// mathematical value.
pub ghost struct WithoutRorRow {
    pub affiliation: Seq<char>,
    pub occurrences: u64,
    pub providers: Breakdown,
    pub clients: Breakdown,
}

/// An affiliation that was never seen with an identifier.
pub struct AffiliationWithoutRorRecord {
    pub affiliation: String,
    pub occurrences: u64,
    pub providers: EntityBreakdown,
    pub clients: EntityBreakdown,
}

impl View for AffiliationWithoutRorRecord {
    type V = WithoutRorRow;

    open spec fn view(&self) -> WithoutRorRow {
        WithoutRorRow {
            affiliation: self.affiliation@,
            occurrences: self.occurrences,
            providers: self.providers@,
            clients: self.clients@,
        }
    }
}

/// An affiliation that was seen both with and without an identifier, as
/// a mathematical value.
pub ghost struct OverlapRow {
    pub affiliation: Seq<char>,
    pub unassigned_occurrences: u64,
    pub assigned_occurrences: u64,
    pub identifier_occurrences: Seq<(Seq<char>, u64)>,
    pub providers: Breakdown,
    pub clients: Breakdown,
}

/// An affiliation that was seen both with and without an identifier.
pub struct AffiliationOverlapRecord {
    pub affiliation: String,
    pub unassigned_occurrences: u64,
    pub assigned_occurrences: u64,
    pub identifier_occurrences: Vec<(String, u64)>,
    pub providers: EntityBreakdown,
    pub clients: EntityBreakdown,
}

impl View for AffiliationOverlapRecord {
    type V = OverlapRow;

    open spec fn view(&self) -> OverlapRow {
        OverlapRow {
            affiliation: self.affiliation@,
            unassigned_occurrences: self.unassigned_occurrences,
            assigned_occurrences: self.assigned_occurrences,
            identifier_occurrences: pairs_view(self.identifier_occurrences@),
            providers: self.providers@,
            clients: self.clients@,
        }
    }
}

/// How often an affiliation name was seen.
pub struct AffiliationCount {
    pub affiliation: String,
    pub occurrences: u64,
}

/// The names and counts of a list of affiliation counts.
pub open spec fn affiliation_counts_view(list: Seq<AffiliationCount>) -> Seq<(Seq<char>, u64)> {
    Seq::new(list.len(), |i: int| (list[i].affiliation@, list[i].occurrences))
}

/// A normalized name and the names that it stands for, as a
/// mathematical value.
pub ghost struct DistributionRow {
    pub normalized: Seq<char>,
    pub total_count: u64,
    pub affiliations: Seq<(Seq<char>, u64)>,
    pub providers: Breakdown,
    pub clients: Breakdown,
}

/// A normalized name and the names that it stands for.
pub struct NormalizedDistributionRecord {
    pub normalized: String,
    pub total_count: u64,
    pub affiliations: Vec<AffiliationCount>,
    pub providers: EntityBreakdown,
    pub clients: EntityBreakdown,
}

impl View for NormalizedDistributionRecord {
    type V = DistributionRow;

    open spec fn view(&self) -> DistributionRow {
        DistributionRow {
            normalized: self.normalized@,
            total_count: self.total_count,
            affiliations: affiliation_counts_view(self.affiliations@),
            providers: self.providers@,
            clients: self.clients@,
        }
    }
}

/// A name or identifier and the DOIs that it was seen in, as a
/// mathematical value.
pub ghost struct DoisRow {
    pub name: Seq<char>,
    pub occurrences: u64,
    pub dois: Seq<Seq<char>>,
    pub providers: Breakdown,
    pub clients: Breakdown,
}

/// A normalized name and the DOIs that it was seen in.
pub struct NormalizedAffiliationDoisRecord {
    pub normalized: String,
    pub occurrences: u64,
    pub dois: Vec<String>,
    pub providers: EntityBreakdown,
    pub clients: EntityBreakdown,
}

impl View for NormalizedAffiliationDoisRecord {
    type V = DoisRow;

    open spec fn view(&self) -> DoisRow {
        DoisRow {
            name: self.normalized@,
            occurrences: self.occurrences,
            dois: texts(self.dois@),
            providers: self.providers@,
            clients: self.clients@,
        }
    }
}

/// An identifier and the DOIs that it was seen in.
pub struct IdentifierDoisRecord {
    pub identifier: String,
    pub occurrences: u64,
    pub dois: Vec<String>,
    pub providers: EntityBreakdown,
    pub clients: EntityBreakdown,
}

impl View for IdentifierDoisRecord {
    type V = DoisRow;

    open spec fn view(&self) -> DoisRow {
        DoisRow {
            name: self.identifier@,
            occurrences: self.occurrences,
            dois: texts(self.dois@),
            providers: self.providers@,
            clients: self.clients@,
        }
    }
}

/// The record of an affiliation that was seen with an identifier.
pub open spec fn with_ror_row(name: Seq<char>, tally: AffiliationTally) -> WithRorRow {
    WithRorRow {
        affiliation: name,
        occurrences: tally.with_ror,
        providers: breakdown_of(tally.providers),
        clients: breakdown_of(tally.clients),
        ror_assignments: listed(tally.rors, false),
    }
}

/// The affiliations that were seen with an identifier, by the number of
/// times they were.
pub open spec fn with_ror_rows(tallies: Seq<(Seq<char>, AffiliationTally)>) -> Seq<WithRorRow> {
    let places = arranged_by(
        entry_names(tallies),
        Seq::new(tallies.len(), |i: int| tallies[i].1.with_ror > 0),
        Seq::new(tallies.len(), |i: int| tallies[i].1.with_ror),
    );
    Seq::new(
        places.len(),
        |k: int| with_ror_row(tallies[places[k] as int].0, tallies[places[k] as int].1),
    )
}

/// The record of an affiliation that was never seen with an identifier.
pub open spec fn without_ror_row(name: Seq<char>, tally: AffiliationTally) -> WithoutRorRow {
    WithoutRorRow {
        affiliation: name,
        occurrences: tally.without_ror,
        providers: breakdown_of(tally.providers),
        clients: breakdown_of(tally.clients),
    }
}

/// The affiliations that were never seen with an identifier, by the
/// number of times they were seen.
pub open spec fn without_ror_rows(tallies: Seq<(Seq<char>, AffiliationTally)>) -> Seq<
    WithoutRorRow,
> {
    let places = arranged_by(
        entry_names(tallies),
        Seq::new(tallies.len(), |i: int| tallies[i].1.with_ror == 0),
        Seq::new(tallies.len(), |i: int| tallies[i].1.without_ror),
    );
    Seq::new(
        places.len(),
        |k: int| without_ror_row(tallies[places[k] as int].0, tallies[places[k] as int].1),
    )
}

/// The record of an affiliation that was seen both ways.
pub open spec fn overlap_row(name: Seq<char>, tally: AffiliationTally) -> OverlapRow {
    OverlapRow {
        affiliation: name,
        unassigned_occurrences: tally.without_ror,
        assigned_occurrences: tally.with_ror,
        identifier_occurrences: listed(tally.rors, false),
        providers: breakdown_of(tally.providers),
        clients: breakdown_of(tally.clients),
    }
}

/// The affiliations that were seen both with and without an identifier,
/// by the number of times they were seen in all.
pub open spec fn overlap_rows(tallies: Seq<(Seq<char>, AffiliationTally)>) -> Seq<OverlapRow> {
    let places = arranged_by(
        entry_names(tallies),
        Seq::new(tallies.len(), |i: int| tallies[i].1.with_ror > 0 && tallies[i].1.without_ror > 0),
        Seq::new(
            tallies.len(),
            |i: int| capped_total(tallies[i].1.with_ror, tallies[i].1.without_ror),
        ),
    );
    Seq::new(
        places.len(),
        |k: int| overlap_row(tallies[places[k] as int].0, tallies[places[k] as int].1),
    )
}

/// The record of a normalized name and the names that it stands for.
pub open spec fn distribution_row(name: Seq<char>, tally: NormalizedTally) -> DistributionRow {
    DistributionRow {
        normalized: name,
        total_count: tally.total,
        affiliations: listed(tally.affiliations, true),
        providers: breakdown_of(tally.providers),
        clients: breakdown_of(tally.clients),
    }
}

/// The normalized names, by the number of times they were seen.
pub open spec fn distribution_rows(tallies: Seq<(Seq<char>, NormalizedTally)>) -> Seq<
    DistributionRow,
> {
    let places = arranged_by(
        entry_names(tallies),
        Seq::new(tallies.len(), |i: int| true),
        Seq::new(tallies.len(), |i: int| tallies[i].1.total),
    );
    Seq::new(
        places.len(),
        |k: int| distribution_row(tallies[places[k] as int].0, tallies[places[k] as int].1),
    )
}

/// The record of a normalized name and its DOIs.
pub open spec fn normalized_dois_row(name: Seq<char>, tally: NormalizedTally) -> DoisRow {
    DoisRow {
        name,
        occurrences: tally.total,
        dois: names_of(tally.dois),
        providers: breakdown_of(tally.providers),
        clients: breakdown_of(tally.clients),
    }
}

/// The normalized names with their DOIs, by the number of times they
/// were seen.
pub open spec fn normalized_dois_rows(tallies: Seq<(Seq<char>, NormalizedTally)>) -> Seq<DoisRow> {
    let places = arranged_by(
        entry_names(tallies),
        Seq::new(tallies.len(), |i: int| true),
        Seq::new(tallies.len(), |i: int| tallies[i].1.total),
    );
    Seq::new(
        places.len(),
        |k: int| normalized_dois_row(tallies[places[k] as int].0, tallies[places[k] as int].1),
    )
}

/// The record of an identifier and its DOIs.
pub open spec fn identifier_dois_row(name: Seq<char>, tally: IdentifierTally) -> DoisRow {
    DoisRow {
        name,
        occurrences: tally.total,
        dois: names_of(tally.dois),
        providers: breakdown_of(tally.providers),
        clients: breakdown_of(tally.clients),
    }
}

/// The identifiers with their DOIs, by the number of times they were seen.
pub open spec fn identifier_dois_rows(tallies: Seq<(Seq<char>, IdentifierTally)>) -> Seq<DoisRow> {
    let places = arranged_by(
        entry_names(tallies),
        Seq::new(tallies.len(), |i: int| true),
        Seq::new(tallies.len(), |i: int| tallies[i].1.total),
    );
    Seq::new(
        places.len(),
        |k: int| identifier_dois_row(tallies[places[k] as int].0, tallies[places[k] as int].1),
    )
}

/// The views of a list of records.
pub open spec fn with_ror_view(rows: Seq<AffiliationWithRorRecord>) -> Seq<WithRorRow> {
    Seq::new(rows.len(), |i: int| rows[i]@)
}

/// The views of a list of records.
pub open spec fn without_ror_view(rows: Seq<AffiliationWithoutRorRecord>) -> Seq<WithoutRorRow> {
    Seq::new(rows.len(), |i: int| rows[i]@)
}

/// The views of a list of records.
pub open spec fn overlap_view(rows: Seq<AffiliationOverlapRecord>) -> Seq<OverlapRow> {
    Seq::new(rows.len(), |i: int| rows[i]@)
}

/// The views of a list of records.
pub open spec fn distribution_view(rows: Seq<NormalizedDistributionRecord>) -> Seq<
    DistributionRow,
> {
    Seq::new(rows.len(), |i: int| rows[i]@)
}

/// The views of a list of records.
pub open spec fn normalized_dois_view(rows: Seq<NormalizedAffiliationDoisRecord>) -> Seq<DoisRow> {
    Seq::new(rows.len(), |i: int| rows[i]@)
}

/// The views of a list of records.
pub open spec fn identifier_dois_view(rows: Seq<IdentifierDoisRecord>) -> Seq<DoisRow> {
    Seq::new(rows.len(), |i: int| rows[i]@)
}

fn capped_add(a: u64, b: u64) -> (sum: u64)
    ensures
        sum == capped_total(a, b),
{
    if a <= u64::MAX - b {
        a + b
    } else {
        u64::MAX
    }
}

/// The names that a normalized name stands for, by the number of times
/// each was seen.
pub fn affiliation_counts_vec(counter: &Counter) -> (list: Vec<AffiliationCount>)
    requires
        counter.wf(),
    ensures
        affiliation_counts_view(list@) == listed(counter@, true),
{
    let pairs = counter.listing(true);
    let ghost shown = pairs_view(pairs@);
    let mut list: Vec<AffiliationCount> = Vec::new();
    let n: usize = pairs.len();
    let mut i: usize = 0;
    while i < n
        invariant
            n == pairs@.len(),
            0 <= i <= n,
            shown == pairs_view(pairs@),
            list@.len() == i,
            forall|k: int| 0 <= k < i ==> #[trigger] affiliation_counts_view(list@)[k] == shown[k],
        decreases n - i,
    {
        let ghost before = affiliation_counts_view(list@);
        assert(shown[i as int] == (pairs@[i as int].0@, pairs@[i as int].1));
        list.push(AffiliationCount { affiliation: pairs[i].0.clone(), occurrences: pairs[i].1 });
        assert forall|k: int| 0 <= k < i + 1 implies #[trigger] affiliation_counts_view(list@)[k]
            == shown[k] by {
            if k < i {
                assert(affiliation_counts_view(list@)[k] == before[k]);
            }
        }
        i += 1;
    }
    assert(affiliation_counts_view(list@) =~= listed(counter@, true));
    list
}

impl Aggregator {
    /// The affiliations that were seen with an identifier.
    pub fn with_ror_records(&self) -> (rows: Vec<AffiliationWithRorRecord>)
        requires
            self.wf(),
        ensures
            with_ror_view(rows@) == with_ror_rows(self@.affiliations),
    {
        let ghost tallies = self@.affiliations;
        let n: usize = self.affiliations.len();
        let mut wanted: Vec<bool> = Vec::new();
        let mut counts: Vec<u64> = Vec::new();
        let mut i: usize = 0;
        while i < n
            invariant
                self.wf(),
                n == self.affiliations@.len(),
                tallies == affiliation_tallies(self.affiliations@),
                0 <= i <= n,
                wanted@.len() == i,
                counts@.len() == i,
                forall|k: int| 0 <= k < i ==> #[trigger] wanted@[k] == (tallies[k].1.with_ror > 0),
                forall|k: int| 0 <= k < i ==> #[trigger] counts@[k] == tallies[k].1.with_ror,
            decreases n - i,
        {
            let c: &crate::aggregate::AffiliationCounts = self.affiliations.value(i);
            assert(tallies[i as int].1 == c@);
            wanted.push(c.with_ror > 0);
            counts.push(c.with_ror);
            i += 1;
        }
        let places = self.affiliations.arranged(&wanted, &counts);
        proof {
            assert(entry_names(self.affiliations@) =~= entry_names(tallies));
            assert(wanted@ =~= Seq::new(tallies.len(), |i: int| tallies[i].1.with_ror > 0));
            assert(counts@ =~= Seq::new(tallies.len(), |i: int| tallies[i].1.with_ror));
        }
        let m: usize = places.len();
        let mut rows: Vec<AffiliationWithRorRecord> = Vec::new();
        let mut k: usize = 0;
        while k < m
            invariant
                self.wf(),
                n == self.affiliations@.len(),
                tallies == affiliation_tallies(self.affiliations@),
                m == places@.len(),
                forall|x: int| 0 <= x < m ==> (#[trigger] places@[x]) < n,
                0 <= k <= m,
                rows@.len() == k,
                forall|x: int|
                    0 <= x < k ==> #[trigger] with_ror_view(rows@)[x] == with_ror_row(
                        tallies[places@[x] as int].0,
                        tallies[places@[x] as int].1,
                    ),
            decreases m - k,
        {
            let at: usize = places[k];
            let c: &crate::aggregate::AffiliationCounts = self.affiliations.value(at);
            assert(self.affiliations@[at as int].1.wf());
            assert(tallies[at as int] == (self.affiliations@[at as int].0, c@));
            let ghost before = with_ror_view(rows@);
            rows.push(
                AffiliationWithRorRecord {
                    affiliation: self.affiliations.key(at).clone(),
                    occurrences: c.with_ror,
                    providers: entity_breakdown(&c.provider_counts),
                    clients: entity_breakdown(&c.client_counts),
                    ror_assignments: c.ror_counts.listing(false),
                },
            );
            assert forall|x: int| 0 <= x < k + 1 implies #[trigger] with_ror_view(rows@)[x]
                == with_ror_row(tallies[places@[x] as int].0, tallies[places@[x] as int].1) by {
                if x < k {
                    assert(with_ror_view(rows@)[x] == before[x]);
                }
            }
            k += 1;
        }
        assert(with_ror_view(rows@) =~= with_ror_rows(tallies));
        rows
    }

    /// The affiliations that were never seen with an identifier.
    pub fn without_ror_records(&self) -> (rows: Vec<AffiliationWithoutRorRecord>)
        requires
            self.wf(),
        ensures
            without_ror_view(rows@) == without_ror_rows(self@.affiliations),
    {
        let ghost tallies = self@.affiliations;
        let n: usize = self.affiliations.len();
        let mut wanted: Vec<bool> = Vec::new();
        let mut counts: Vec<u64> = Vec::new();
        let mut i: usize = 0;
        while i < n
            invariant
                self.wf(),
                n == self.affiliations@.len(),
                tallies == affiliation_tallies(self.affiliations@),
                0 <= i <= n,
                wanted@.len() == i,
                counts@.len() == i,
                forall|k: int| 0 <= k < i ==> #[trigger] wanted@[k] == (tallies[k].1.with_ror == 0),
                forall|k: int| 0 <= k < i ==> #[trigger] counts@[k] == tallies[k].1.without_ror,
            decreases n - i,
        {
            let c: &crate::aggregate::AffiliationCounts = self.affiliations.value(i);
            assert(tallies[i as int].1 == c@);
            wanted.push(c.with_ror == 0);
            counts.push(c.without_ror);
            i += 1;
        }
        let places = self.affiliations.arranged(&wanted, &counts);
        proof {
            assert(entry_names(self.affiliations@) =~= entry_names(tallies));
            assert(wanted@ =~= Seq::new(tallies.len(), |k: int| tallies[k].1.with_ror == 0));
            assert(counts@ =~= Seq::new(tallies.len(), |k: int| tallies[k].1.without_ror));
        }
        let m: usize = places.len();
        let mut rows: Vec<AffiliationWithoutRorRecord> = Vec::new();
        let mut k: usize = 0;
        while k < m
            invariant
                self.wf(),
                n == self.affiliations@.len(),
                tallies == affiliation_tallies(self.affiliations@),
                m == places@.len(),
                forall|x: int| 0 <= x < m ==> (#[trigger] places@[x]) < n,
                0 <= k <= m,
                rows@.len() == k,
                forall|x: int|
                    0 <= x < k ==> #[trigger] without_ror_view(rows@)[x] == without_ror_row(
                        tallies[places@[x] as int].0,
                        tallies[places@[x] as int].1,
                    ),
            decreases m - k,
        {
            let at: usize = places[k];
            let c: &crate::aggregate::AffiliationCounts = self.affiliations.value(at);
            assert(self.affiliations@[at as int].1.wf());
            assert(tallies[at as int] == (self.affiliations@[at as int].0, c@));
            let ghost before = without_ror_view(rows@);
            rows.push(
                AffiliationWithoutRorRecord {
                    affiliation: self.affiliations.key(at).clone(),
                    occurrences: c.without_ror,
                    providers: entity_breakdown(&c.provider_counts),
                    clients: entity_breakdown(&c.client_counts),
                },
            );
            assert forall|x: int| 0 <= x < k + 1 implies #[trigger] without_ror_view(rows@)[x] == without_ror_row(
                tallies[places@[x] as int].0,
                tallies[places@[x] as int].1,
            ) by {
                if x < k {
                    assert(without_ror_view(rows@)[x] == before[x]);
                }
            }
            k += 1;
        }
        assert(without_ror_view(rows@) =~= without_ror_rows(tallies));
        rows
    }

    /// The affiliations that were seen both with and without an identifier.
    pub fn overlap_records(&self) -> (rows: Vec<AffiliationOverlapRecord>)
        requires
            self.wf(),
        ensures
            overlap_view(rows@) == overlap_rows(self@.affiliations),
    {
        let ghost tallies = self@.affiliations;
        let n: usize = self.affiliations.len();
        let mut wanted: Vec<bool> = Vec::new();
        let mut counts: Vec<u64> = Vec::new();
        let mut i: usize = 0;
        while i < n
            invariant
                self.wf(),
                n == self.affiliations@.len(),
                tallies == affiliation_tallies(self.affiliations@),
                0 <= i <= n,
                wanted@.len() == i,
                counts@.len() == i,
                forall|k: int| 0 <= k < i ==> #[trigger] wanted@[k] == (tallies[k].1.with_ror > 0 && tallies[k].1.without_ror > 0),
                forall|k: int| 0 <= k < i ==> #[trigger] counts@[k] == capped_total(tallies[k].1.with_ror, tallies[k].1.without_ror),
            decreases n - i,
        {
            let c: &crate::aggregate::AffiliationCounts = self.affiliations.value(i);
            assert(tallies[i as int].1 == c@);
            wanted.push(c.with_ror > 0 && c.without_ror > 0);
            counts.push(capped_add(c.with_ror, c.without_ror));
            i += 1;
        }
        let places = self.affiliations.arranged(&wanted, &counts);
        proof {
            assert(entry_names(self.affiliations@) =~= entry_names(tallies));
            assert(wanted@ =~= Seq::new(tallies.len(), |k: int| tallies[k].1.with_ror > 0 && tallies[k].1.without_ror > 0));
            assert(counts@ =~= Seq::new(tallies.len(), |k: int| capped_total(tallies[k].1.with_ror, tallies[k].1.without_ror)));
        }
        let m: usize = places.len();
        let mut rows: Vec<AffiliationOverlapRecord> = Vec::new();
        let mut k: usize = 0;
        while k < m
            invariant
                self.wf(),
                n == self.affiliations@.len(),
                tallies == affiliation_tallies(self.affiliations@),
                m == places@.len(),
                forall|x: int| 0 <= x < m ==> (#[trigger] places@[x]) < n,
                0 <= k <= m,
                rows@.len() == k,
                forall|x: int|
                    0 <= x < k ==> #[trigger] overlap_view(rows@)[x] == overlap_row(
                        tallies[places@[x] as int].0,
                        tallies[places@[x] as int].1,
                    ),
            decreases m - k,
        {
            let at: usize = places[k];
            let c: &crate::aggregate::AffiliationCounts = self.affiliations.value(at);
            assert(self.affiliations@[at as int].1.wf());
            assert(tallies[at as int] == (self.affiliations@[at as int].0, c@));
            let ghost before = overlap_view(rows@);
            rows.push(
                AffiliationOverlapRecord {
                    affiliation: self.affiliations.key(at).clone(),
                    unassigned_occurrences: c.without_ror,
                    assigned_occurrences: c.with_ror,
                    identifier_occurrences: c.ror_counts.listing(false),
                    providers: entity_breakdown(&c.provider_counts),
                    clients: entity_breakdown(&c.client_counts),
                },
            );
            assert forall|x: int| 0 <= x < k + 1 implies #[trigger] overlap_view(rows@)[x] == overlap_row(
                tallies[places@[x] as int].0,
                tallies[places@[x] as int].1,
            ) by {
                if x < k {
                    assert(overlap_view(rows@)[x] == before[x]);
                }
            }
            k += 1;
        }
        assert(overlap_view(rows@) =~= overlap_rows(tallies));
        rows
    }

    /// The normalized names and the names that each stands for.
    pub fn distribution_records(&self) -> (rows: Vec<NormalizedDistributionRecord>)
        requires
            self.wf(),
        ensures
            distribution_view(rows@) == distribution_rows(self@.normalized),
    {
        let ghost tallies = self@.normalized;
        let n: usize = self.normalized.len();
        let mut wanted: Vec<bool> = Vec::new();
        let mut counts: Vec<u64> = Vec::new();
        let mut i: usize = 0;
        while i < n
            invariant
                self.wf(),
                n == self.normalized@.len(),
                tallies == normalized_tallies(self.normalized@),
                0 <= i <= n,
                wanted@.len() == i,
                counts@.len() == i,
                forall|k: int| 0 <= k < i ==> #[trigger] wanted@[k] == (true),
                forall|k: int| 0 <= k < i ==> #[trigger] counts@[k] == tallies[k].1.total,
            decreases n - i,
        {
            let c: &crate::aggregate::NormalizedCounts = self.normalized.value(i);
            assert(tallies[i as int].1 == c@);
            wanted.push(true);
            counts.push(c.total);
            i += 1;
        }
        let places = self.normalized.arranged(&wanted, &counts);
        proof {
            assert(entry_names(self.normalized@) =~= entry_names(tallies));
            assert(wanted@ =~= Seq::new(tallies.len(), |k: int| true));
            assert(counts@ =~= Seq::new(tallies.len(), |k: int| tallies[k].1.total));
        }
        let m: usize = places.len();
        let mut rows: Vec<NormalizedDistributionRecord> = Vec::new();
        let mut k: usize = 0;
        while k < m
            invariant
                self.wf(),
                n == self.normalized@.len(),
                tallies == normalized_tallies(self.normalized@),
                m == places@.len(),
                forall|x: int| 0 <= x < m ==> (#[trigger] places@[x]) < n,
                0 <= k <= m,
                rows@.len() == k,
                forall|x: int|
                    0 <= x < k ==> #[trigger] distribution_view(rows@)[x] == distribution_row(
                        tallies[places@[x] as int].0,
                        tallies[places@[x] as int].1,
                    ),
            decreases m - k,
        {
            let at: usize = places[k];
            let c: &crate::aggregate::NormalizedCounts = self.normalized.value(at);
            assert(self.normalized@[at as int].1.wf());
            assert(tallies[at as int] == (self.normalized@[at as int].0, c@));
            let ghost before = distribution_view(rows@);
            rows.push(
                NormalizedDistributionRecord {
                    normalized: self.normalized.key(at).clone(),
                    total_count: c.total,
                    affiliations: affiliation_counts_vec(&c.affiliations),
                    providers: entity_breakdown(&c.provider_counts),
                    clients: entity_breakdown(&c.client_counts),
                },
            );
            assert forall|x: int| 0 <= x < k + 1 implies #[trigger] distribution_view(rows@)[x] == distribution_row(
                tallies[places@[x] as int].0,
                tallies[places@[x] as int].1,
            ) by {
                if x < k {
                    assert(distribution_view(rows@)[x] == before[x]);
                }
            }
            k += 1;
        }
        assert(distribution_view(rows@) =~= distribution_rows(tallies));
        rows
    }

    /// The normalized names and the DOIs that each was seen in.
    pub fn normalized_affiliation_doi_records(&self) -> (rows: Vec<NormalizedAffiliationDoisRecord>)
        requires
            self.wf(),
        ensures
            normalized_dois_view(rows@) == normalized_dois_rows(self@.normalized),
    {
        let ghost tallies = self@.normalized;
        let n: usize = self.normalized.len();
        let mut wanted: Vec<bool> = Vec::new();
        let mut counts: Vec<u64> = Vec::new();
        let mut i: usize = 0;
        while i < n
            invariant
                self.wf(),
                n == self.normalized@.len(),
                tallies == normalized_tallies(self.normalized@),
                0 <= i <= n,
                wanted@.len() == i,
                counts@.len() == i,
                forall|k: int| 0 <= k < i ==> #[trigger] wanted@[k] == (true),
                forall|k: int| 0 <= k < i ==> #[trigger] counts@[k] == tallies[k].1.total,
            decreases n - i,
        {
            let c: &crate::aggregate::NormalizedCounts = self.normalized.value(i);
            assert(tallies[i as int].1 == c@);
            wanted.push(true);
            counts.push(c.total);
            i += 1;
        }
        let places = self.normalized.arranged(&wanted, &counts);
        proof {
            assert(entry_names(self.normalized@) =~= entry_names(tallies));
            assert(wanted@ =~= Seq::new(tallies.len(), |k: int| true));
            assert(counts@ =~= Seq::new(tallies.len(), |k: int| tallies[k].1.total));
        }
        let m: usize = places.len();
        let mut rows: Vec<NormalizedAffiliationDoisRecord> = Vec::new();
        let mut k: usize = 0;
        while k < m
            invariant
                self.wf(),
                n == self.normalized@.len(),
                tallies == normalized_tallies(self.normalized@),
                m == places@.len(),
                forall|x: int| 0 <= x < m ==> (#[trigger] places@[x]) < n,
                0 <= k <= m,
                rows@.len() == k,
                forall|x: int|
                    0 <= x < k ==> #[trigger] normalized_dois_view(rows@)[x] == normalized_dois_row(
                        tallies[places@[x] as int].0,
                        tallies[places@[x] as int].1,
                    ),
            decreases m - k,
        {
            let at: usize = places[k];
            let c: &crate::aggregate::NormalizedCounts = self.normalized.value(at);
            assert(self.normalized@[at as int].1.wf());
            assert(tallies[at as int] == (self.normalized@[at as int].0, c@));
            let ghost before = normalized_dois_view(rows@);
            rows.push(
                NormalizedAffiliationDoisRecord {
                    normalized: self.normalized.key(at).clone(),
                    occurrences: c.total,
                    dois: sorted_names(&c.dois),
                    providers: entity_breakdown(&c.provider_counts),
                    clients: entity_breakdown(&c.client_counts),
                },
            );
            assert forall|x: int| 0 <= x < k + 1 implies #[trigger] normalized_dois_view(rows@)[x] == normalized_dois_row(
                tallies[places@[x] as int].0,
                tallies[places@[x] as int].1,
            ) by {
                if x < k {
                    assert(normalized_dois_view(rows@)[x] == before[x]);
                }
            }
            k += 1;
        }
        assert(normalized_dois_view(rows@) =~= normalized_dois_rows(tallies));
        rows
    }

    /// The identifiers and the DOIs that each was seen in.
    pub fn identifier_doi_records(&self) -> (rows: Vec<IdentifierDoisRecord>)
        requires
            self.wf(),
        ensures
            identifier_dois_view(rows@) == identifier_dois_rows(self@.identifiers),
    {
        let ghost tallies = self@.identifiers;
        let n: usize = self.identifiers.len();
        let mut wanted: Vec<bool> = Vec::new();
        let mut counts: Vec<u64> = Vec::new();
        let mut i: usize = 0;
        while i < n
            invariant
                self.wf(),
                n == self.identifiers@.len(),
                tallies == identifier_tallies(self.identifiers@),
                0 <= i <= n,
                wanted@.len() == i,
                counts@.len() == i,
                forall|k: int| 0 <= k < i ==> #[trigger] wanted@[k] == (true),
                forall|k: int| 0 <= k < i ==> #[trigger] counts@[k] == tallies[k].1.total,
            decreases n - i,
        {
            let c: &crate::aggregate::IdentifierCounts = self.identifiers.value(i);
            assert(tallies[i as int].1 == c@);
            wanted.push(true);
            counts.push(c.total);
            i += 1;
        }
        let places = self.identifiers.arranged(&wanted, &counts);
        proof {
            assert(entry_names(self.identifiers@) =~= entry_names(tallies));
            assert(wanted@ =~= Seq::new(tallies.len(), |k: int| true));
            assert(counts@ =~= Seq::new(tallies.len(), |k: int| tallies[k].1.total));
        }
        let m: usize = places.len();
        let mut rows: Vec<IdentifierDoisRecord> = Vec::new();
        let mut k: usize = 0;
        while k < m
            invariant
                self.wf(),
                n == self.identifiers@.len(),
                tallies == identifier_tallies(self.identifiers@),
                m == places@.len(),
                forall|x: int| 0 <= x < m ==> (#[trigger] places@[x]) < n,
                0 <= k <= m,
                rows@.len() == k,
                forall|x: int|
                    0 <= x < k ==> #[trigger] identifier_dois_view(rows@)[x] == identifier_dois_row(
                        tallies[places@[x] as int].0,
                        tallies[places@[x] as int].1,
                    ),
            decreases m - k,
        {
            let at: usize = places[k];
            let c: &crate::aggregate::IdentifierCounts = self.identifiers.value(at);
            assert(self.identifiers@[at as int].1.wf());
            assert(tallies[at as int] == (self.identifiers@[at as int].0, c@));
            let ghost before = identifier_dois_view(rows@);
            rows.push(
                IdentifierDoisRecord {
                    identifier: self.identifiers.key(at).clone(),
                    occurrences: c.total,
                    dois: sorted_names(&c.dois),
                    providers: entity_breakdown(&c.provider_counts),
                    clients: entity_breakdown(&c.client_counts),
                },
            );
            assert forall|x: int| 0 <= x < k + 1 implies #[trigger] identifier_dois_view(rows@)[x] == identifier_dois_row(
                tallies[places@[x] as int].0,
                tallies[places@[x] as int].1,
            ) by {
                if x < k {
                    assert(identifier_dois_view(rows@)[x] == before[x]);
                }
            }
            k += 1;
        }
        assert(identifier_dois_view(rows@) =~= identifier_dois_rows(tallies));
        rows
    }
}

} // verus!
