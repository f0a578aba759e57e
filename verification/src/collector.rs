use vstd::prelude::*;
use crate::bus::{BusView, EventBus};
use crate::countmap::{CountMap, count_in, sat_inc};
use crate::events::{DbLogTypes, EventView};
use crate::geo::{GeoDb, geo_ip_decode, spec_country_tag};
use crate::store::{Store, Table};
use crate::telemetry::{TelemetryPoint, points_match};

verus! {

/// Mathematical view of the collector: the store model and the in-memory
/// per-address counter map.
pub struct CollectorView {
    pub store: crate::store::StoreView,
    pub ip_counts: Map<Seq<char>, u64>,
}

/// View of one upsert announced to the persistent store.
pub struct UpsertView {
    pub table: Table,
    pub key: Seq<char>,
    pub count: u64,
}

/// An insert-or-replace the collector has applied to its store model; the
/// caller mirrors it into the durable store.
pub struct UpsertCmd {
    pub table: Table,
    pub key: String,
    pub count: u64,
}

impl View for UpsertCmd {
    type V = UpsertView;

    open spec fn view(&self) -> UpsertView {
        UpsertView { table: self.table, key: self.key@, count: self.count }
    }
}

/// What one event does to the collector state: a credential event bumps its
/// table's count for the credential, an address event bumps the in-memory
/// address counter.
pub open spec fn apply_event(cv: CollectorView, e: EventView) -> CollectorView {
    match e {
        EventView::Login(name) => CollectorView {
            store: cv.store.upsert(
                Table::Logins,
                name,
                sat_inc(count_in(cv.store.logins, name)),
            ),
            ..cv
        },
        EventView::Password(word) => CollectorView {
            store: cv.store.upsert(
                Table::Passwords,
                word,
                sat_inc(count_in(cv.store.passwords, word)),
            ),
            ..cv
        },
        EventView::IpAddress(addr) => CollectorView {
            ip_counts: cv.ip_counts.insert(addr, sat_inc(count_in(cv.ip_counts, addr))),
            ..cv
        },
    }
}

/// The collector state after a sequence of events, oldest first.
pub open spec fn apply_events(cv: CollectorView, es: Seq<EventView>) -> CollectorView
    decreases es.len(),
{
    if es.len() == 0 {
        cv
    } else {
        apply_events(apply_event(cv, es[0]), es.drop_first())
    }
}

/// The upserts one event announces: one per credential event, none for an
/// address event.
pub open spec fn event_upserts(cv: CollectorView, e: EventView) -> Seq<UpsertView> {
    match e {
        EventView::Login(name) => seq![
            UpsertView {
                table: Table::Logins,
                key: name,
                count: sat_inc(count_in(cv.store.logins, name)),
            },
        ],
        EventView::Password(word) => seq![
            UpsertView {
                table: Table::Passwords,
                key: word,
                count: sat_inc(count_in(cv.store.passwords, word)),
            },
        ],
        EventView::IpAddress(_) => Seq::empty(),
    }
}

/// The upserts a sequence of events announces, in processing order.
pub open spec fn upserts_of(cv: CollectorView, es: Seq<EventView>) -> Seq<UpsertView>
    decreases es.len(),
{
    if es.len() == 0 {
        Seq::empty()
    } else {
        event_upserts(cv, es[0]) + upserts_of(apply_event(cv, es[0]), es.drop_first())
    }
}

/// The single consumer of the event bus: sole owner of the store model and
/// of the per-address counter map, so every persistent count has exactly one
/// writer.
pub struct Collector {
    store: Store,
    ip_counts: CountMap,
}

impl View for Collector {
    type V = CollectorView;

    closed spec fn view(&self) -> CollectorView {
        CollectorView { store: self.store@, ip_counts: self.ip_counts@ }
    }
}

impl Collector {
    pub closed spec fn wf(self) -> bool {
        self.store.wf() && self.ip_counts.wf()
    }

    /// A collector with empty tables and no counted addresses.
    pub fn new() -> (r: Collector)
        ensures
            r.wf(),
            r@.store.logins == Map::<Seq<char>, u64>::empty(),
            r@.store.passwords == Map::<Seq<char>, u64>::empty(),
            r@.ip_counts == Map::<Seq<char>, u64>::empty(),
    {
        Collector { store: Store::new(), ip_counts: CountMap::new() }
    }

    /// The count currently stored for `key` in `table`; absent keys read as
    /// zero.
    pub fn get_count(&self, table: Table, key: &String) -> (r: u64)
        requires
            self.wf(),
        ensures
            r == count_in(self@.store.table(table), key@),
    {
        self.store.get_count(table, key)
    }

    /// The in-memory count for an address in the current flush window.
    pub fn ip_count(&self, address: &String) -> (r: u64)
        requires
            self.wf(),
        ensures
            r == count_in(self@.ip_counts, address@),
    {
        self.ip_counts.get(address)
    }

    /// Read the previous count for the login, store its successor, and
    /// announce the upsert.
    pub fn save_login(&mut self, login: &String) -> (r: UpsertCmd)
        requires
            old(self).wf(),
        ensures
            final(self).wf(),
            final(self)@ == apply_event(old(self)@, EventView::Login(login@)),
            r@ == (UpsertView {
                table: Table::Logins,
                key: login@,
                count: sat_inc(count_in(old(self)@.store.logins, login@)),
            }),
    {
        let prev = self.store.get_count(Table::Logins, login);
        let next: u64 = if prev == u64::MAX {
            prev
        } else {
            prev + 1
        };
        self.store.upsert_count(Table::Logins, login, next);
        UpsertCmd { table: Table::Logins, key: login.clone(), count: next }
    }

    /// Read the previous count for the password, store its successor, and
    /// announce the upsert.
    pub fn save_password(&mut self, password: &String) -> (r: UpsertCmd)
        requires
            old(self).wf(),
        ensures
            final(self).wf(),
            final(self)@ == apply_event(old(self)@, EventView::Password(password@)),
            r@ == (UpsertView {
                table: Table::Passwords,
                key: password@,
                count: sat_inc(count_in(old(self)@.store.passwords, password@)),
            }),
    {
        let prev = self.store.get_count(Table::Passwords, password);
        let next: u64 = if prev == u64::MAX {
            prev
        } else {
            prev + 1
        };
        self.store.upsert_count(Table::Passwords, password, next);
        UpsertCmd { table: Table::Passwords, key: password.clone(), count: next }
    }

    /// Count one sighting of an attacking address; purely in memory.
    pub fn note_ip(&mut self, address: &String)
        requires
            old(self).wf(),
        ensures
            final(self).wf(),
            final(self)@ == apply_event(old(self)@, EventView::IpAddress(address@)),
    {
        self.ip_counts.increment(address);
    }

    /// Apply one event: credential events go to the store model and return
    /// the upsert to mirror; address events only count in memory.
    pub fn handle_event(&mut self, event: DbLogTypes) -> (r: Option<UpsertCmd>)
        requires
            old(self).wf(),
        ensures
            final(self).wf(),
            final(self)@ == apply_event(old(self)@, event@),
            r is None <==> (event@ matches EventView::IpAddress(_)),
            r matches Some(cmd) ==> event_upserts(old(self)@, event@) == seq![cmd@],
    {
        match event {
            DbLogTypes::Login(name) => Some(self.save_login(&name)),
            DbLogTypes::Password(word) => Some(self.save_password(&word)),
            DbLogTypes::IpAddress(addr) => {
                self.note_ip(&addr);
                None
            },
        }
    }

    /// Turn every counted address into one telemetry point, tagged with its
    /// country where the database knows one, and clear the counter map
    /// unconditionally: a failed transmission afterwards loses this window's
    /// counts by design.
    pub fn flush(&mut self, db: &GeoDb) -> (r: Vec<TelemetryPoint>)
        requires
            old(self).wf(),
        ensures
            final(self).wf(),
            final(self)@ == (CollectorView {
                ip_counts: Map::<Seq<char>, u64>::empty(),
                ..old(self)@
            }),
            points_match(old(self)@.ip_counts, *db, r@.map_values(|p: TelemetryPoint| p@)),
    {
        let ghost m = self@.ip_counts;
        let pairs = self.ip_counts.take_entries();
        let n = pairs.len();
        let mut points: Vec<TelemetryPoint> = Vec::new();
        let mut i: usize = 0;
        while i < n
            invariant
                n == pairs@.len(),
                0 <= i <= n,
                points@.len() == i,
                forall|t: int|
                    0 <= t < n ==> m.contains_key(#[trigger] pairs@[t].0@) && m[pairs@[t].0@]
                        == pairs@[t].1,
                forall|t: int|
                    0 <= t < i ==> (#[trigger] points@[t])@.address == pairs@[t].0@ && points@[
                        t
                    ]@.count == pairs@[t].1 && points@[t]@.country == spec_country_tag(
                        *db,
                        pairs@[t].0@,
                    ),
            decreases n - i,
        {
            let address = pairs[i].0.clone();
            let count = pairs[i].1;
            let country = match geo_ip_decode(db, address.as_str()) {
                Ok(code) => Some(code),
                Err(_) => None,
            };
            points.push(TelemetryPoint { address, count, country });
            i += 1;
        }
        proof {
            let pts = points@.map_values(|p: TelemetryPoint| p@);
            assert(pts.len() == m.dom().len());
            assert forall|a: int| 0 <= a < pts.len() implies m.contains_key(
                #[trigger] pts[a].address,
            ) && m[pts[a].address] == pts[a].count && pts[a].country == spec_country_tag(
                *db,
                pts[a].address,
            ) by {
                assert(pts[a] == points@[a]@);
            }
            assert forall|a: int, b: int| 0 <= a < b < pts.len() implies pts[a].address != pts[
                b
            ].address by {
                assert(pts[a] == points@[a]@ && pts[b] == points@[b]@);
                assert(pairs@[a].0@ != pairs@[b].0@);
            }
            assert forall|k: Seq<char>| m.contains_key(k) implies exists|a: int|
                0 <= a < pts.len() && pts[a].address == k by {
                let t = choose|t: int| 0 <= t < pairs@.len() && pairs@[t].0@ == k;
                assert(pts[t].address == k);
            }
        }
        points
    }

    /// Drain the bus, apply every event in arrival order, then perform the
    /// final flush. The returned upserts and points are everything the
    /// caller must forward to the store and the telemetry sink.
    pub fn run(&mut self, bus: &mut EventBus, db: &GeoDb) -> (r: (
        Vec<UpsertCmd>,
        Vec<TelemetryPoint>,
    ))
        requires
            old(self).wf(),
        ensures
            final(self).wf(),
            final(bus)@ == (BusView { queue: Seq::<EventView>::empty(), ..old(bus)@ }),
            final(self)@ == (CollectorView {
                ip_counts: Map::<Seq<char>, u64>::empty(),
                ..apply_events(old(self)@, old(bus)@.queue)
            }),
            r.0@.map_values(|c: UpsertCmd| c@) == upserts_of(old(self)@, old(bus)@.queue),
            points_match(
                apply_events(old(self)@, old(bus)@.queue).ip_counts,
                *db,
                r.1@.map_values(|p: TelemetryPoint| p@),
            ),
    {
        let mut cmds: Vec<UpsertCmd> = Vec::new();
        loop
            invariant
                self.wf(),
                bus@.capacity == old(bus)@.capacity,
                bus@.closed == old(bus)@.closed,
                apply_events(self@, bus@.queue) == apply_events(old(self)@, old(bus)@.queue),
                cmds@.map_values(|c: UpsertCmd| c@) + upserts_of(self@, bus@.queue)
                    == upserts_of(old(self)@, old(bus)@.queue),
            ensures
                self.wf(),
                bus@.queue.len() == 0,
                bus@.capacity == old(bus)@.capacity,
                bus@.closed == old(bus)@.closed,
                self@ == apply_events(old(self)@, old(bus)@.queue),
                cmds@.map_values(|c: UpsertCmd| c@) == upserts_of(old(self)@, old(bus)@.queue),
            decreases bus@.queue.len(),
        {
            let ghost pre = self@;
            let ghost q = bus@.queue;
            match bus.recv() {
                None => {
                    proof {
                        assert(upserts_of(pre, q) == Seq::<UpsertView>::empty());
                        assert(cmds@.map_values(|c: UpsertCmd| c@) + Seq::<UpsertView>::empty()
                            =~= cmds@.map_values(|c: UpsertCmd| c@));
                    }
                    break ;
                },
                Some(event) => {
                    let ghost e = event@;
                    let cmd = self.handle_event(event);
                    proof {
                        assert(apply_events(pre, q) == apply_events(
                            apply_event(pre, e),
                            q.drop_first(),
                        ));
                        assert(upserts_of(pre, q) == event_upserts(pre, e) + upserts_of(
                            apply_event(pre, e),
                            q.drop_first(),
                        ));
                    }
                    match cmd {
                        Some(cmd) => {
                            proof {
                                let f = |c: UpsertCmd| c@;
                                assert(cmds@.push(cmd).map_values(f) =~= cmds@.map_values(
                                    f,
                                ).push(cmd@));
                                assert(cmds@.map_values(f).push(cmd@) + upserts_of(
                                    self@,
                                    bus@.queue,
                                ) =~= cmds@.map_values(f) + (event_upserts(pre, e) + upserts_of(
                                    self@,
                                    bus@.queue,
                                )));
                            }
                            cmds.push(cmd);
                        },
                        None => {
                            proof {
                                assert(event_upserts(pre, e) + upserts_of(self@, bus@.queue)
                                    =~= upserts_of(self@, bus@.queue));
                            }
                        },
                    }
                },
            }
        }
        proof {
            assert(bus@.queue =~= Seq::<EventView>::empty());
        }
        let points = self.flush(db);
        (cmds, points)
    }
}

/// Law: a run of events that are all the same password attempt raises the
/// stored count for that password by exactly the number of events.
pub proof fn lemma_repeated_password_count(cv: CollectorView, v: Seq<char>, es: Seq<EventView>)
    requires
        forall|i: int| 0 <= i < es.len() ==> es[i] == EventView::Password(v),
        count_in(cv.store.passwords, v) + es.len() <= u64::MAX,
    ensures
        count_in(apply_events(cv, es).store.passwords, v) == count_in(cv.store.passwords, v)
            + es.len(),
    decreases es.len(),
{
    if es.len() > 0 {
        assert(es[0] == EventView::Password(v));
        let cv1 = apply_event(cv, es[0]);
        assert(count_in(cv1.store.passwords, v) == count_in(cv.store.passwords, v) + 1);
        assert(forall|i: int|
            0 <= i < es.drop_first().len() ==> #[trigger] es.drop_first()[i] == es[i + 1]);
        lemma_repeated_password_count(cv1, v, es.drop_first());
    }
}

/// Law: a run of events that are all sightings of the same address raises
/// the in-memory count for that address by exactly the number of events.
pub proof fn lemma_repeated_ip_count(cv: CollectorView, addr: Seq<char>, es: Seq<EventView>)
    requires
        forall|i: int| 0 <= i < es.len() ==> es[i] == EventView::IpAddress(addr),
        count_in(cv.ip_counts, addr) + es.len() <= u64::MAX,
    ensures
        count_in(apply_events(cv, es).ip_counts, addr) == count_in(cv.ip_counts, addr) + es.len(),
    decreases es.len(),
{
    if es.len() > 0 {
        assert(es[0] == EventView::IpAddress(addr));
        let cv1 = apply_event(cv, es[0]);
        assert(count_in(cv1.ip_counts, addr) == count_in(cv.ip_counts, addr) + 1);
        assert(forall|i: int|
            0 <= i < es.drop_first().len() ==> #[trigger] es.drop_first()[i] == es[i + 1]);
        lemma_repeated_ip_count(cv1, addr, es.drop_first());
    }
}

/// Law: one event never lowers a stored count.
pub proof fn lemma_event_count_monotonic(cv: CollectorView, e: EventView, t: Table, k: Seq<char>)
    ensures
        count_in(apply_event(cv, e).store.table(t), k) >= count_in(cv.store.table(t), k),
{
}

/// Law: across any event sequence, the stored count for any key in either
/// table never decreases.
pub proof fn lemma_counts_monotonic(cv: CollectorView, es: Seq<EventView>, t: Table, k: Seq<char>)
    ensures
        count_in(apply_events(cv, es).store.table(t), k) >= count_in(cv.store.table(t), k),
    decreases es.len(),
{
    if es.len() > 0 {
        lemma_event_count_monotonic(cv, es[0], t, k);
        lemma_counts_monotonic(apply_event(cv, es[0]), es.drop_first(), t, k);
    }
}

/// Law: a flush that found no counted addresses sends nothing; since a
/// flush always leaves the counter map empty, a second flush right after a
/// first one sends nothing.
pub proof fn lemma_empty_flush_sends_nothing(
    db: GeoDb,
    pts: Seq<crate::telemetry::PointView>,
)
    requires
        points_match(Map::<Seq<char>, u64>::empty(), db, pts),
    ensures
        pts.len() == 0,
{
    assert(Map::<Seq<char>, u64>::empty().dom() =~= Set::<Seq<char>>::empty());
}

} // verus!
