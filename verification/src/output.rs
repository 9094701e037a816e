//! The output multiplexer: which output handles are open, which of them
//! leave when room is needed, and which destinations have their header.
//! It decides; opening, writing and closing are the caller's.

use crate::extract::{records_view, FieldData, Record};
use crate::text::same_text;
use vstd::prelude::*;
use vstd::string::StringExecFns;

verus! {

/// A routing key as a mathematical value.
pub ghost struct Route {
    pub provider_id: Seq<char>,
    pub client_id: Seq<char>,
}

/// The pair of identifiers that selects an output destination.
#[derive(Debug)]
pub struct RoutingKey {
    pub provider_id: String,
    pub client_id: String,
}

impl View for RoutingKey {
    type V = Route;

    open spec fn view(&self) -> Route {
        Route { provider_id: self.provider_id@, client_id: self.client_id@ }
    }
}

/// The views of a sequence of keys.
pub open spec fn routes(keys: Seq<RoutingKey>) -> Seq<Route> {
    Seq::new(keys.len(), |i: int| keys[i]@)
}

/// The key under which a record is routed.
pub open spec fn route_of(record: Record) -> Route {
    Route { provider_id: record.provider_id, client_id: record.client_id }
}

/// Where the records of a key are written, below the output directory.
pub struct Destination {
    pub directory: String,
    pub file_name: String,
}

/// The state of the multiplexer as a mathematical value: the open handles,
/// most recently used first, and the destinations that have their header.
pub ghost struct Cache {
    pub open: Seq<Route>,
    pub created: Set<Route>,
    pub max_open: nat,
    pub evict_batch: nat,
}

impl Cache {
    /// The number of handles that may be open at once: the configured
    /// maximum, or one where that is zero.
    pub open spec fn capacity(self) -> nat {
        if self.max_open == 0 {
            1
        } else {
            self.max_open
        }
    }

    /// No handle is open twice, no more are open than may be, and every
    /// open handle's destination has its header.
    pub open spec fn wf(self) -> bool {
        &&& self.open.no_duplicates()
        &&& self.open.len() <= self.capacity()
        &&& self.created.finite()
        &&& forall|i: int| 0 <= i < self.open.len() ==> self.created.contains(#[trigger] self.open[i])
    }

    /// How many handles leave when one more is to be opened.
    pub open spec fn evict_count(self) -> nat {
        if self.open.len() >= self.max_open {
            let wanted = if self.evict_batch == 0 {
                1
            } else {
                self.evict_batch
            };
            if wanted <= self.open.len() {
                wanted
            } else {
                self.open.len()
            }
        } else {
            0
        }
    }

    /// The handles that leave when `key` is asked for, least recently used
    /// first: none where `key` is open already.
    pub open spec fn evicted_by(self, key: Route) -> Seq<Route> {
        if self.open.contains(key) {
            Seq::empty()
        } else {
            least_recent(self.open, self.evict_count())
        }
    }

    /// Whether asking for `key` writes the header of its destination.
    pub open spec fn writes_header(self, key: Route) -> bool {
        !self.open.contains(key) && !self.created.contains(key)
    }

    /// The state after `key` was asked for: it is the most recently used
    /// handle; where it had to be opened, the least recently used ones have
    /// left as far as room was needed, and its destination has its header.
    pub open spec fn after_access(self, key: Route) -> Cache {
        if self.open.contains(key) {
            Cache {
                open: seq![key] + self.open.remove(self.open.index_of(key)),
                created: self.created,
                max_open: self.max_open,
                evict_batch: self.evict_batch,
            }
        } else {
            Cache {
                open: seq![key] + self.open.take(self.open.len() - self.evict_count()),
                created: self.created.insert(key),
                max_open: self.max_open,
                evict_batch: self.evict_batch,
            }
        }
    }

    /// The state after each of `keys` was asked for, in order.
    pub open spec fn after_accesses(self, keys: Seq<Route>) -> Cache
        decreases keys.len(),
    {
        if keys.len() == 0 {
            self
        } else {
            self.after_accesses(keys.drop_last()).after_access(keys.last())
        }
    }

    /// The state after one operation.
    pub open spec fn after(self, op: Operation) -> Cache {
        match op {
            Operation::Access(key) => self.after_access(key),
            Operation::Shutdown => self.after_shutdown(),
        }
    }

    /// The state after a run of operations.
    pub open spec fn after_all(self, ops: Seq<Operation>) -> Cache
        decreases ops.len(),
    {
        if ops.len() == 0 {
            self
        } else {
            self.after_all(ops.drop_last()).after(ops.last())
        }
    }

    /// How many times the run of operations writes the header of the
    /// destination of `key`.
    pub open spec fn headers_written(self, ops: Seq<Operation>, key: Route) -> nat
        decreases ops.len(),
    {
        if ops.len() == 0 {
            0
        } else {
            let earlier = self.headers_written(ops.drop_last(), key);
            if ops.last() == Operation::Access(key) && self.after_all(
                ops.drop_last(),
            ).writes_header(key) {
                earlier + 1
            } else {
                earlier
            }
        }
    }

    /// The state after the handle of `key` turned out not to be open:
    /// it is not counted as open, and where its header could not be
    /// written either, its destination is without header again.
    pub open spec fn after_forget(self, key: Route, withdraw_header: bool) -> Cache {
        Cache {
            open: if self.open.contains(key) {
                self.open.remove(self.open.index_of(key))
            } else {
                self.open
            },
            created: if withdraw_header {
                self.created.remove(key)
            } else {
                self.created
            },
            max_open: self.max_open,
            evict_batch: self.evict_batch,
        }
    }

    /// The state after every handle was closed.
    pub open spec fn after_shutdown(self) -> Cache {
        Cache {
            open: Seq::empty(),
            created: self.created,
            max_open: self.max_open,
            evict_batch: self.evict_batch,
        }
    }
}

/// One operation on the multiplexer.
pub ghost enum Operation {
    /// The handle of a key is asked for.
    Access(Route),
    /// Every handle is closed.
    Shutdown,
}

/// Whether the handle of `key` is asked for among `ops`.
pub open spec fn asked_for(ops: Seq<Operation>, key: Route) -> bool {
    exists|i: int| 0 <= i < ops.len() && #[trigger] ops[i] == Operation::Access(key)
}

/// The `count` least recently used of `open`, the least recent first.
pub open spec fn least_recent(open: Seq<Route>, count: nat) -> Seq<Route> {
    Seq::new(count, |i: int| open[open.len() - 1 - i])
}

/// What the caller does for one request.
pub enum WriterAccess {
    /// The handle is open: use it.
    Open,
    /// Flush and close the handles of `evicted`, in that order; then open
    /// the destination for appending, and write the header first where
    /// `write_header` says so.
    Opened { evicted: Vec<RoutingKey>, write_header: bool },
}

impl WriterAccess {
    /// Whether this is what asking for `key` in the state `cache` calls for.
    pub open spec fn agrees(self, cache: Cache, key: Route) -> bool {
        match self {
            WriterAccess::Open => cache.open.contains(key),
            WriterAccess::Opened { evicted, write_header } => {
                &&& !cache.open.contains(key)
                &&& routes(evicted@) == cache.evicted_by(key)
                &&& write_header == cache.writes_header(key)
            },
        }
    }
}

/// The rows of a batch that go to one key.
pub struct KeyGroup {
    pub key: RoutingKey,
    pub rows: Vec<usize>,
}

/// One step of writing a batch: what to do to have the handle of `key`,
/// and the rows of the batch to write to it then.
pub struct WriteStep {
    pub key: RoutingKey,
    pub access: WriterAccess,
    pub rows: Vec<usize>,
}

/// The keys under which the records are routed, record by record.
pub open spec fn record_routes(records: Seq<Record>) -> Seq<Route> {
    Seq::new(records.len(), |i: int| route_of(records[i]))
}

/// The keys, each once, in the order in which they first occur.
pub open spec fn group_keys(keys: Seq<Route>) -> Seq<Route>
    decreases keys.len(),
{
    if keys.len() == 0 {
        Seq::empty()
    } else {
        let before = group_keys(keys.drop_last());
        if before.contains(keys.last()) {
            before
        } else {
            before.push(keys.last())
        }
    }
}

/// The positions at which `key` stands among `keys`, ascending.
pub open spec fn rows_of(keys: Seq<Route>, key: Route) -> Seq<usize>
    decreases keys.len(),
{
    if keys.len() == 0 {
        Seq::empty()
    } else if keys.last() == key {
        rows_of(keys.drop_last(), key).push((keys.len() - 1) as usize)
    } else {
        rows_of(keys.drop_last(), key)
    }
}

/// The open-handle cache of the organized output.
pub struct OrganizedOutput {
    pub access_order: Vec<RoutingKey>,
    pub created_files: Vec<RoutingKey>,
    pub max_open_files: usize,
    pub evict_batch: usize,
}

impl View for OrganizedOutput {
    type V = Cache;

    open spec fn view(&self) -> Cache {
        Cache {
            open: routes(self.access_order@),
            created: routes(self.created_files@).to_set(),
            max_open: self.max_open_files as nat,
            evict_batch: self.evict_batch as nat,
        }
    }
}

impl RoutingKey {
    /// The key of the given provider and client.
    pub fn new(provider_id: &str, client_id: &str) -> (key: RoutingKey)
        ensures
            key@ == (Route { provider_id: provider_id@, client_id: client_id@ }),
    {
        RoutingKey {
            provider_id: String::from_str(provider_id),
            client_id: String::from_str(client_id),
        }
    }

    /// The key under which a record is routed.
    pub fn of_record(record: &FieldData) -> (key: RoutingKey)
        ensures
            key@ == route_of(record@),
    {
        RoutingKey { provider_id: record.provider_id.clone(), client_id: record.client_id.clone() }
    }

    /// A copy of the key.
    pub fn duplicate(&self) -> (key: RoutingKey)
        ensures
            key == *self,
    {
        RoutingKey { provider_id: self.provider_id.clone(), client_id: self.client_id.clone() }
    }

    /// Whether two keys name the same provider and client.
    pub fn same(&self, other: &RoutingKey) -> (b: bool)
        ensures
            b == (self@ == other@),
    {
        same_text(self.provider_id.as_str(), other.provider_id.as_str()) && same_text(
            self.client_id.as_str(),
            other.client_id.as_str(),
        )
    }

    /// Where the records of this key are written: a directory named by the
    /// provider, and in it a file named by the client.
    pub fn destination(&self) -> (d: Destination)
        ensures
            d.directory@ == self.provider_id@,
            d.file_name@ == self.client_id@ + ".csv"@,
    {
        let mut file_name = self.client_id.clone();
        file_name.append(".csv");
        Destination { directory: self.provider_id.clone(), file_name }
    }
}

/// The position of `key` among `keys`, if it is there.
fn find_key(keys: &Vec<RoutingKey>, key: &RoutingKey) -> (r: Option<usize>)
    ensures
        match r {
            Some(i) => i < keys.len() && routes(keys@)[i as int] == key@,
            None => !routes(keys@).contains(key@),
        },
{
    let n: usize = keys.len();
    let mut i: usize = 0;
    while i < n
        invariant
            n == keys.len(),
            0 <= i <= n,
            forall|k: int| 0 <= k < i ==> #[trigger] routes(keys@)[k] != key@,
        decreases n - i,
    {
        if keys[i].same(key) {
            return Some(i);
        }
        i += 1;
    }
    None
}

proof fn lemma_index_of_unique(keys: Seq<Route>, key: Route, i: int)
    requires
        keys.no_duplicates(),
        0 <= i < keys.len(),
        keys[i] == key,
    ensures
        keys.index_of(key) == i,
        keys.contains(key),
{
    let j = keys.index_of(key);
    assert(0 <= j < keys.len() && keys[j] == key);
}

impl OrganizedOutput {
    /// A multiplexer without open handles that keeps at most
    /// `max_open_files` open and closes the least recently used one when
    /// it needs room.
    pub fn new(max_open_files: usize) -> (output: OrganizedOutput)
        ensures
            output@.wf(),
            output@.open.len() == 0,
            output@.created == Set::<Route>::empty(),
            output@.max_open == max_open_files,
            output@.evict_batch == 1,
    {
        OrganizedOutput::with_evict_batch(max_open_files, 1)
    }

    /// A multiplexer without open handles that closes up to `evict_batch`
    /// of the least recently used ones at a time when it needs room.
    pub fn with_evict_batch(max_open_files: usize, evict_batch: usize) -> (output: OrganizedOutput)
        ensures
            output@.wf(),
            output@.open.len() == 0,
            output@.created == Set::<Route>::empty(),
            output@.max_open == max_open_files,
            output@.evict_batch == evict_batch,
    {
        let output = OrganizedOutput {
            access_order: Vec::new(),
            created_files: Vec::new(),
            max_open_files,
            evict_batch,
        };
        assert(routes(output.created_files@) =~= Seq::<Route>::empty());
        assert(routes(output.created_files@).to_set() =~= Set::<Route>::empty());
        output
    }

    /// The number of open handles.
    pub fn open_count(&self) -> (n: usize)
        ensures
            n == self@.open.len(),
    {
        self.access_order.len()
    }

    /// Asks for the handle of `key` and says what the caller has to do to
    /// have it.
    pub fn get_writer(&mut self, key: &RoutingKey) -> (access: WriterAccess)
        requires
            old(self)@.wf(),
        ensures
            final(self)@.wf(),
            final(self)@ == old(self)@.after_access(key@),
            access.agrees(old(self)@, key@),
    {
        let ghost before = self@;
        match find_key(&self.access_order, key) {
            Some(pos) => {
                let moved = self.access_order.remove(pos);
                self.access_order.insert(0, moved);
                proof {
                    lemma_index_of_unique(before.open, key@, pos as int);
                    assert(routes(self.access_order@) =~= seq![key@] + before.open.remove(
                        pos as int,
                    ));
                    assert(self@.created == before.created);
                    assert(before.open.contains(key@));
                }
                WriterAccess::Open
            },
            None => {
                let mut evicted: Vec<RoutingKey> = Vec::new();
                let held: usize = self.access_order.len();
                let mut count: usize = 0;
                assert(routes(evicted@) =~= least_recent(before.open, 0));
                if held >= self.max_open_files {
                    let wanted: usize = if self.evict_batch == 0 {
                        1
                    } else {
                        self.evict_batch
                    };
                    assert(routes(evicted@) =~= least_recent(before.open, 0));
                    assert(routes(self.access_order@) =~= before.open.take(held as int));
                    while count < wanted && self.access_order.len() > 0
                        invariant
                            held == before.open.len(),
                            0 <= count <= wanted,
                            count <= held,
                            self.access_order.len() == held - count,
                            self.created_files == old(self).created_files,
                            self.max_open_files == old(self).max_open_files,
                            self.evict_batch == old(self).evict_batch,
                            routes(self.access_order@) == before.open.take(held - count),
                            routes(evicted@) == least_recent(before.open, count as nat),
                        decreases wanted - count,
                    {
                        let ghost gone = routes(evicted@);
                        let ghost held_keys = self.access_order@;
                        match self.access_order.pop() {
                            Some(lru) => {
                                evicted.push(lru);
                                proof {
                                    assert(lru@ == routes(held_keys)[held - count - 1]);
                                    assert(routes(evicted@) =~= gone.push(
                                        before.open[held - count - 1],
                                    ));
                                }
                            },
                            None => {},
                        }
                        count += 1;
                        proof {
                            assert(routes(self.access_order@) =~= before.open.take(held - count));
                            assert(routes(evicted@) =~= least_recent(before.open, count as nat));
                        }
                    }
                }
                assert(count == before.evict_count());
                assert(routes(evicted@) =~= before.evicted_by(key@));
                let write_header: bool = find_key(&self.created_files, key).is_none();
                if write_header {
                    let ghost listed = routes(self.created_files@);
                    self.created_files.push(key.duplicate());
                    proof {
                        assert(routes(self.created_files@) =~= listed.push(key@));
                        listed.lemma_push_to_set_commute(key@);
                    }
                } else {
                    assert(before.created.insert(key@) =~= before.created);
                }
                self.access_order.insert(0, key.duplicate());
                proof {
                    let kept = before.open.take(held - count);
                    assert(routes(self.access_order@) =~= seq![key@] + kept);
                    assert(self@.created == before.created.insert(key@));
                    assert forall|i: int| 0 <= i < kept.len() implies kept[i] != key@ by {
                        assert(kept[i] == before.open[i]);
                    }
                    assert forall|i: int| 0 <= i < self@.open.len() implies self@.created.contains(
                        #[trigger] self@.open[i],
                    ) by {
                        if i > 0 {
                            assert(self@.open[i] == before.open[i - 1]);
                        }
                    }
                    vstd::seq_lib::seq_to_set_is_finite(routes(self.created_files@));
                    assert(before.writes_header(key@) == !before.created.contains(key@));
                }
                WriterAccess::Opened { evicted, write_header }
            },
        }
    }

    /// Takes back a request that the caller could not carry out: the
    /// handle of `key` is not open, and with `withdraw_header` its
    /// destination has no header.
    pub fn forget(&mut self, key: &RoutingKey, withdraw_header: bool)
        requires
            old(self)@.wf(),
        ensures
            final(self)@.wf(),
            final(self)@ == old(self)@.after_forget(key@, withdraw_header),
    {
        let ghost before = self@;
        match find_key(&self.access_order, key) {
            Some(pos) => {
                self.access_order.remove(pos);
                proof {
                    lemma_index_of_unique(before.open, key@, pos as int);
                    assert(routes(self.access_order@) =~= before.open.remove(pos as int));
                }
            },
            None => {},
        }
        let ghost open_now = routes(self.access_order@);
        proof {
            assert forall|i: int| 0 <= i < open_now.len() implies open_now[i] != key@
                && before.created.contains(#[trigger] open_now[i]) by {
                if before.open.contains(key@) {
                    let at = before.open.index_of(key@);
                    let j = if i < at {
                        i
                    } else {
                        i + 1
                    };
                    assert(open_now[i] == before.open[j]);
                } else {
                    assert(open_now[i] == before.open[i]);
                }
            }
        }
        if withdraw_header {
            let mut i: usize = 0;
            while i < self.created_files.len()
                invariant
                    0 <= i <= self.created_files.len(),
                    routes(self.access_order@) == open_now,
                    self.max_open_files == old(self).max_open_files,
                    self.evict_batch == old(self).evict_batch,
                    routes(self.created_files@).to_set().remove(key@) == before.created.remove(
                        key@,
                    ),
                    forall|k: int| 0 <= k < i ==> #[trigger] routes(self.created_files@)[k] != key@,
                decreases self.created_files.len() - i,
            {
                let ghost listed = routes(self.created_files@);
                if self.created_files[i].same(key) {
                    self.created_files.remove(i);
                    proof {
                        let fewer = routes(self.created_files@);
                        assert(fewer =~= listed.remove(i as int));
                        assert forall|x: Route|
                            fewer.to_set().remove(key@).contains(x) == listed.to_set().remove(
                                key@,
                            ).contains(x) by {
                            if x != key@ {
                                if listed.contains(x) {
                                    let j = listed.index_of(x);
                                    if j < i {
                                        assert(fewer[j] == x);
                                    } else {
                                        assert(fewer[j - 1] == x);
                                    }
                                }
                                if fewer.contains(x) {
                                    let j = fewer.index_of(x);
                                    if j < i {
                                        assert(listed[j] == x);
                                    } else {
                                        assert(listed[j + 1] == x);
                                    }
                                }
                            }
                        }
                        assert(fewer.to_set().remove(key@) =~= listed.to_set().remove(key@));
                        assert forall|k: int| 0 <= k < i implies #[trigger] fewer[k] != key@ by {
                            assert(fewer[k] == listed[k]);
                        }
                    }
                } else {
                    i += 1;
                }
            }
            proof {
                let listed = routes(self.created_files@);
                assert(!listed.to_set().contains(key@));
                assert(listed.to_set().remove(key@) =~= listed.to_set());
            }
        }
        proof {
            vstd::seq_lib::seq_to_set_is_finite(routes(self.created_files@));
            assert(self@.open.no_duplicates()) by {
                assert forall|i: int, j: int|
                    0 <= i < open_now.len() && 0 <= j < open_now.len() && i != j implies open_now[i]
                    != open_now[j] by {
                    if before.open.contains(key@) {
                        let at = before.open.index_of(key@);
                        let a = if i < at {
                            i
                        } else {
                            i + 1
                        };
                        let b = if j < at {
                            j
                        } else {
                            j + 1
                        };
                        assert(open_now[i] == before.open[a]);
                        assert(open_now[j] == before.open[b]);
                    }
                }
            }
        }
    }

    /// The handles to flush, most recently used first. Nothing changes.
    pub fn flush_all(&self) -> (keys: Vec<RoutingKey>)
        ensures
            routes(keys@) == self@.open,
    {
        let mut keys: Vec<RoutingKey> = Vec::new();
        let n: usize = self.access_order.len();
        let mut i: usize = 0;
        while i < n
            invariant
                n == self.access_order.len(),
                0 <= i <= n,
                keys.len() == i,
                forall|k: int| 0 <= k < i ==> #[trigger] keys@[k] == self.access_order@[k],
            decreases n - i,
        {
            keys.push(self.access_order[i].duplicate());
            i += 1;
        }
        assert(routes(keys@) =~= self@.open);
        keys
    }

    /// Closes every handle: the handles to flush and close, most recently
    /// used first. The headers that were written stay written.
    pub fn shutdown(&mut self) -> (keys: Vec<RoutingKey>)
        requires
            old(self)@.wf(),
        ensures
            final(self)@.wf(),
            final(self)@ == old(self)@.after_shutdown(),
            routes(keys@) == old(self)@.open,
    {
        let mut keys: Vec<RoutingKey> = Vec::new();
        core::mem::swap(&mut self.access_order, &mut keys);
        assert(routes(self.access_order@) =~= Seq::<Route>::empty());
        keys
    }
}

/// The rows by routing key, given the key of each row: one group for each
/// key, in the order in which the keys first occur, each with its rows in
/// order.
pub fn group_rows(keys: &Vec<RoutingKey>) -> (groups: Vec<KeyGroup>)
    ensures
        groups@.len() == group_keys(routes(keys@)).len(),
        forall|g: int|
            0 <= g < groups@.len() ==> {
                &&& (#[trigger] groups@[g]).key@ == group_keys(routes(keys@))[g]
                &&& groups@[g].rows@ == rows_of(routes(keys@), groups@[g].key@)
            },
{
    let ghost all = routes(keys@);
    let mut groups: Vec<KeyGroup> = Vec::new();
    let n: usize = keys.len();
    let mut i: usize = 0;
    assert(all.take(0) =~= Seq::<Route>::empty());
    while i < n
        invariant
            n == keys.len(),
            0 <= i <= n,
            all == routes(keys@),
            groups@.len() == group_keys(all.take(i as int)).len(),
            forall|g: int|
                0 <= g < groups@.len() ==> {
                    &&& (#[trigger] groups@[g]).key@ == group_keys(all.take(i as int))[g]
                    &&& groups@[g].rows@ == rows_of(all.take(i as int), groups@[g].key@)
                },
        decreases n - i,
    {
        let ghost seen = all.take(i as int);
        let ghost next = all.take(i + 1);
        let ghost firsts = group_keys(seen);
        let ghost route = keys@[i as int]@;
        proof {
            assert(next.drop_last() =~= seen);
            assert(next.last() == route);
        }
        let m: usize = groups.len();
        let mut g: usize = 0;
        let mut found: bool = false;
        while g < m && !found
            invariant
                m == groups.len(),
                0 <= g <= m,
                0 <= i < n,
                n == keys.len(),
                route == keys@[i as int]@,
                !found ==> forall|h: int| 0 <= h < g ==> (#[trigger] groups@[h]).key@ != route,
                found ==> g < m && groups@[g as int].key@ == route,
            decreases m - g + (if found { 0int } else { 1int }),
        {
            if groups[g].key.same(&keys[i]) {
                found = true;
            } else {
                g += 1;
            }
        }
        let ghost old_groups = groups@;
        if found {
            groups[g].rows.push(i);
            proof {
                assert(firsts[g as int] == route);
                assert(firsts.contains(route));
                assert(group_keys(next) == firsts);
                lemma_group_keys_distinct(seen);
                assert forall|h: int| 0 <= h < groups@.len() implies {
                    &&& (#[trigger] groups@[h]).key@ == group_keys(next)[h]
                    &&& groups@[h].rows@ == rows_of(next, groups@[h].key@)
                } by {
                    assert(groups@[h].key == old_groups[h].key);
                    assert(old_groups[h].key@ == firsts[h]);
                    if h != g {
                        assert(groups@[h] == old_groups[h]);
                        assert(firsts[h] != firsts[g as int]);
                    } else {
                        assert(groups@[h].rows@ == old_groups[h].rows@.push(i));
                    }
                }
            }
        } else {
            let mut rows: Vec<usize> = Vec::new();
            rows.push(i);
            groups.push(KeyGroup { key: keys[i].duplicate(), rows });
            proof {
                assert forall|h: int| 0 <= h < firsts.len() implies firsts[h] != route by {
                    assert(old_groups[h].key@ == firsts[h]);
                }
                assert(!firsts.contains(route));
                assert(group_keys(next) == firsts.push(route));
                lemma_rows_of_absent(seen, route);
                assert(rows@ =~= rows_of(next, route));
                assert forall|h: int| 0 <= h < groups@.len() implies {
                    &&& (#[trigger] groups@[h]).key@ == group_keys(next)[h]
                    &&& groups@[h].rows@ == rows_of(next, groups@[h].key@)
                } by {
                    if h < old_groups.len() {
                        assert(groups@[h] == old_groups[h]);
                    }
                }
            }
        }
        i += 1;
    }
    assert(all.take(n as int) =~= all);
    groups
}

/// The keys under which the records of a batch are routed, record by
/// record.
pub fn record_keys(batch: &Vec<FieldData>) -> (keys: Vec<RoutingKey>)
    ensures
        routes(keys@) == record_routes(records_view(batch@)),
{
    let mut keys: Vec<RoutingKey> = Vec::new();
    let n: usize = batch.len();
    let mut i: usize = 0;
    while i < n
        invariant
            n == batch.len(),
            0 <= i <= n,
            keys@.len() == i,
            forall|k: int| 0 <= k < i ==> (#[trigger] keys@[k])@ == route_of(batch@[k]@),
        decreases n - i,
    {
        keys.push(RoutingKey::of_record(&batch[i]));
        i += 1;
    }
    assert(routes(keys@) =~= record_routes(records_view(batch@)));
    keys
}

/// The rows of the batch by routing key: one group for each key, in the
/// order in which the keys first occur, each with its rows in order.
pub fn group_by_key(batch: &Vec<FieldData>) -> (groups: Vec<KeyGroup>)
    ensures
        groups@.len() == group_keys(record_routes(records_view(batch@))).len(),
        forall|g: int|
            0 <= g < groups@.len() ==> {
                &&& (#[trigger] groups@[g]).key@ == group_keys(
                    record_routes(records_view(batch@)),
                )[g]
                &&& groups@[g].rows@ == rows_of(
                    record_routes(records_view(batch@)),
                    groups@[g].key@,
                )
            },
{
    group_rows(&record_keys(batch))
}

proof fn lemma_group_keys_distinct(keys: Seq<Route>)
    ensures
        group_keys(keys).no_duplicates(),
    decreases keys.len(),
{
    if keys.len() > 0 {
        lemma_group_keys_distinct(keys.drop_last());
    }
}

proof fn lemma_group_keys_cover(keys: Seq<Route>, i: int)
    requires
        0 <= i < keys.len(),
    ensures
        group_keys(keys).contains(keys[i]),
    decreases keys.len(),
{
    let before = group_keys(keys.drop_last());
    let key = keys.last();
    if i < keys.len() - 1 {
        lemma_group_keys_cover(keys.drop_last(), i);
        let j = before.index_of(keys[i]);
        assert(before[j] == keys.drop_last()[i]);
        if !before.contains(key) {
            assert(before.push(key)[j] == before[j]);
        }
    } else {
        if !before.contains(key) {
            assert(before.push(key)[before.len() as int] == key);
        }
    }
}

proof fn lemma_rows_of_absent(keys: Seq<Route>, key: Route)
    requires
        !group_keys(keys).contains(key),
    ensures
        rows_of(keys, key) == Seq::<usize>::empty(),
    decreases keys.len(),
{
    if keys.len() > 0 {
        lemma_group_keys_cover(keys, keys.len() - 1);
        let before = group_keys(keys.drop_last());
        if before.contains(key) {
            let j = before.index_of(key);
            if !before.contains(keys.last()) {
                assert(before.push(keys.last())[j] == key);
            }
        }
        lemma_rows_of_absent(keys.drop_last(), key);
    }
}

impl OrganizedOutput {
    /// Plans the writing of a run of rows, given the key of each row: the
    /// rows by routing key, the keys in the order in which they first
    /// occur, and for each key what to do to have its handle at that point.
    pub fn plan_rows(&mut self, keys: &Vec<RoutingKey>) -> (steps: Vec<WriteStep>)
        requires
            old(self)@.wf(),
        ensures
            final(self)@.wf(),
            final(self)@ == old(self)@.after_accesses(group_keys(routes(keys@))),
            steps@.len() == group_keys(routes(keys@)).len(),
            forall|g: int|
                0 <= g < steps@.len() ==> {
                    &&& (#[trigger] steps@[g]).key@ == group_keys(routes(keys@))[g]
                    &&& steps@[g].rows@ == rows_of(routes(keys@), steps@[g].key@)
                    &&& steps@[g].access.agrees(
                        old(self)@.after_accesses(group_keys(routes(keys@)).take(g)),
                        steps@[g].key@,
                    )
                },
    {
        let ghost before = self@;
        let ghost firsts = group_keys(routes(keys@));
        let mut groups = group_rows(keys);
        let ghost planned = groups@;
        let mut steps: Vec<WriteStep> = Vec::new();
        let n: usize = groups.len();
        let mut g: usize = 0;
        assert(firsts.take(0) =~= Seq::<Route>::empty());
        while g < n
            invariant
                self@.wf(),
                firsts == group_keys(routes(keys@)),
                n == firsts.len(),
                n == groups.len(),
                n == planned.len(),
                0 <= g <= n,
                steps@.len() == g,
                self@ == before.after_accesses(firsts.take(g as int)),
                forall|h: int|
                    0 <= h < n ==> {
                        &&& (#[trigger] planned[h]).key@ == firsts[h]
                        &&& planned[h].rows@ == rows_of(routes(keys@), planned[h].key@)
                    },
                forall|h: int| g <= h < n ==> #[trigger] groups@[h] == planned[h],
                forall|h: int|
                    0 <= h < g ==> {
                        &&& (#[trigger] steps@[h]).key@ == firsts[h]
                        &&& steps@[h].rows@ == rows_of(routes(keys@), steps@[h].key@)
                        &&& steps@[h].access.agrees(
                            before.after_accesses(firsts.take(h)),
                            steps@[h].key@,
                        )
                    },
            decreases n - g,
        {
            let ghost old_steps = steps@;
            let ghost old_groups = groups@;
            assert(groups@[g as int] == planned[g as int]);
            let key = groups[g].key.duplicate();
            let mut rows: Vec<usize> = Vec::new();
            core::mem::swap(&mut groups[g].rows, &mut rows);
            proof {
                assert(firsts.take(g + 1).drop_last() =~= firsts.take(g as int));
                assert(firsts.take(g + 1).last() == key@);
                assert forall|h: int| g < h < n implies #[trigger] groups@[h] == planned[h] by {
                    assert(groups@[h] == old_groups[h]);
                }
            }
            let access = self.get_writer(&key);
            steps.push(WriteStep { key, access, rows });
            proof {
                assert forall|h: int| 0 <= h < g + 1 implies {
                    &&& (#[trigger] steps@[h]).key@ == firsts[h]
                    &&& steps@[h].rows@ == rows_of(routes(keys@), steps@[h].key@)
                    &&& steps@[h].access.agrees(
                        before.after_accesses(firsts.take(h)),
                        steps@[h].key@,
                    )
                } by {
                    if h < g {
                        assert(steps@[h] == old_steps[h]);
                    }
                }
            }
            g += 1;
        }
        assert(firsts.take(firsts.len() as int) =~= firsts);
        steps
    }

    /// Plans the writing of a batch: its rows by routing key, the keys in
    /// the order in which they first occur, and for each key what to do to
    /// have its handle at that point.
    pub fn write_batch(&mut self, batch: &Vec<FieldData>) -> (steps: Vec<WriteStep>)
        requires
            old(self)@.wf(),
        ensures
            final(self)@.wf(),
            final(self)@ == old(self)@.after_accesses(
                group_keys(record_routes(records_view(batch@))),
            ),
            steps@.len() == group_keys(record_routes(records_view(batch@))).len(),
            forall|g: int|
                0 <= g < steps@.len() ==> {
                    &&& (#[trigger] steps@[g]).key@ == group_keys(
                        record_routes(records_view(batch@)),
                    )[g]
                    &&& steps@[g].rows@ == rows_of(
                        record_routes(records_view(batch@)),
                        steps@[g].key@,
                    )
                    &&& steps@[g].access.agrees(
                        old(self)@.after_accesses(
                            group_keys(record_routes(records_view(batch@))).take(g),
                        ),
                        steps@[g].key@,
                    )
                },
    {
        self.plan_rows(&record_keys(batch))
    }
}

/// Asking for a handle keeps the state well formed.
pub proof fn lemma_access_keeps_wf(cache: Cache, key: Route)
    requires
        cache.wf(),
    ensures
        cache.after_access(key).wf(),
{
    let next = cache.after_access(key);
    if cache.open.contains(key) {
        let at = cache.open.index_of(key);
        let rest = cache.open.remove(at);
        assert forall|i: int, j: int|
            0 <= i < next.open.len() && 0 <= j < next.open.len() && i != j implies next.open[i]
            != next.open[j] by {
            let a = if i == 0 {
                at
            } else if i - 1 < at {
                i - 1
            } else {
                i
            };
            let b = if j == 0 {
                at
            } else if j - 1 < at {
                j - 1
            } else {
                j
            };
            assert(next.open[i] == cache.open[a]);
            assert(next.open[j] == cache.open[b]);
        }
        assert forall|i: int| 0 <= i < next.open.len() implies next.created.contains(
            #[trigger] next.open[i],
        ) by {
            let a = if i == 0 {
                at
            } else if i - 1 < at {
                i - 1
            } else {
                i
            };
            assert(next.open[i] == cache.open[a]);
        }
    } else {
        let kept = cache.open.take(cache.open.len() - cache.evict_count());
        assert forall|i: int, j: int|
            0 <= i < next.open.len() && 0 <= j < next.open.len() && i != j implies next.open[i]
            != next.open[j] by {
            if i > 0 {
                assert(next.open[i] == cache.open[i - 1]);
            }
            if j > 0 {
                assert(next.open[j] == cache.open[j - 1]);
            }
        }
        assert forall|i: int| 0 <= i < next.open.len() implies next.created.contains(
            #[trigger] next.open[i],
        ) by {
            if i > 0 {
                assert(next.open[i] == cache.open[i - 1]);
            }
        }
    }
}

/// A run of operations keeps the state well formed.
pub proof fn lemma_operations_keep_wf(cache: Cache, ops: Seq<Operation>)
    requires
        cache.wf(),
    ensures
        cache.after_all(ops).wf(),
        cache.after_all(ops).max_open == cache.max_open,
    decreases ops.len(),
{
    if ops.len() > 0 {
        lemma_operations_keep_wf(cache, ops.drop_last());
        match ops.last() {
            Operation::Access(key) => {
                lemma_access_keeps_wf(cache.after_all(ops.drop_last()), key);
            },
            Operation::Shutdown => {},
        }
    }
}

/// The cache bound: whatever is asked for, in whatever order, no more
/// handles are open at once than the configured maximum, as long as that
/// allows one.
pub proof fn lemma_cache_bound(cache: Cache, ops: Seq<Operation>)
    requires
        cache.wf(),
        cache.max_open >= 1,
    ensures
        cache.after_all(ops).open.len() <= cache.max_open,
{
    lemma_operations_keep_wf(cache, ops);
}

/// Header once: in any run of operations, the header of a destination is
/// written once if its key is asked for and it had no header before, and
/// never otherwise, however often its handle is closed and opened again.
pub proof fn lemma_header_once(cache: Cache, ops: Seq<Operation>, key: Route)
    requires
        cache.wf(),
    ensures
        cache.headers_written(ops, key) == if !cache.created.contains(key) && asked_for(ops, key) {
            1nat
        } else {
            0nat
        },
        cache.after_all(ops).created.contains(key) == (cache.created.contains(key) || asked_for(
            ops,
            key,
        )),
    decreases ops.len(),
{
    if ops.len() > 0 {
        let earlier = ops.drop_last();
        let state = cache.after_all(earlier);
        lemma_header_once(cache, earlier, key);
        lemma_operations_keep_wf(cache, earlier);
        if asked_for(earlier, key) {
            let i = choose|i: int| 0 <= i < earlier.len() && #[trigger] earlier[i] == Operation::Access(key);
            assert(ops[i] == earlier[i]);
        }
        if ops.last() == Operation::Access(key) {
            assert(ops[ops.len() - 1] == Operation::Access(key));
        }
        if asked_for(ops, key) {
            let i = choose|i: int| 0 <= i < ops.len() && #[trigger] ops[i] == Operation::Access(key);
            if i < earlier.len() {
                assert(earlier[i] == ops[i]);
            }
        }
        if state.open.contains(key) {
            let at = state.open.index_of(key);
            assert(state.created.contains(state.open[at]));
        }
    }
}

} // verus!
