use vstd::prelude::*;
use crate::countmap::{CountMap, count_in};

verus! {

/// The two independent counter tables of the persistent store.
#[derive(Clone, Copy, PartialEq, Eq, Structural, Debug)]
pub enum Table {
    Logins,
    Passwords,
}

/// Mathematical view of the store: one count map per table.
pub struct StoreView {
    pub logins: Map<Seq<char>, u64>,
    pub passwords: Map<Seq<char>, u64>,
}

impl StoreView {
    /// The map a table name denotes.
    pub open spec fn table(self, t: Table) -> Map<Seq<char>, u64> {
        match t {
            Table::Logins => self.logins,
            Table::Passwords => self.passwords,
        }
    }

    /// The store after an insert-or-replace of `k -> v` in table `t`.
    pub open spec fn upsert(self, t: Table, k: Seq<char>, v: u64) -> StoreView {
        match t {
            Table::Logins => StoreView { logins: self.logins.insert(k, v), ..self },
            Table::Passwords => StoreView { passwords: self.passwords.insert(k, v), ..self },
        }
    }
}

/// In-memory model of the persistent store: two keyed counter tables with
/// unique keys. Under the single-writer rule, the collector is the only
/// mutator, so this model tracks the durable state exactly as long as every
/// upsert it announces is applied.
pub struct Store {
    logins: CountMap,
    passwords: CountMap,
}

impl View for Store {
    type V = StoreView;

    closed spec fn view(&self) -> StoreView {
        StoreView { logins: self.logins@, passwords: self.passwords@ }
    }
}

impl Store {
    pub closed spec fn wf(self) -> bool {
        self.logins.wf() && self.passwords.wf()
    }

    /// A store with both tables empty.
    pub fn new() -> (r: Store)
        ensures
            r.wf(),
            r@.logins == Map::<Seq<char>, u64>::empty(),
            r@.passwords == Map::<Seq<char>, u64>::empty(),
    {
        Store { logins: CountMap::new(), passwords: CountMap::new() }
    }

    /// The count stored for `key` in `table`; absent keys read as zero.
    pub fn get_count(&self, table: Table, key: &String) -> (r: u64)
        requires
            self.wf(),
        ensures
            r == count_in(self@.table(table), key@),
    {
        match table {
            Table::Logins => self.logins.get(key),
            Table::Passwords => self.passwords.get(key),
        }
    }

    /// Insert or replace the count stored for `key` in `table`.
    pub fn upsert_count(&mut self, table: Table, key: &String, value: u64)
        requires
            old(self).wf(),
        ensures
            final(self).wf(),
            final(self)@ == old(self)@.upsert(table, key@, value),
    {
        match table {
            Table::Logins => self.logins.set(key, value),
            Table::Passwords => self.passwords.set(key, value),
        }
    }
}

} // verus!
