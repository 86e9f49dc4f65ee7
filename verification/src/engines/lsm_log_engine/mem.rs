//! The in-memory table pair: two ordered skip-list maps from sort key
//! to internal key, one mutable and one immutable at any moment, with
//! an atomic role swap.

use crossbeam_skiplist::SkipMap;
use vstd::prelude::*;

use crate::engines::lsm_log_engine::wal_log::Key;

verus! {

#[verifier::external_type_specification]
#[verifier::external_body]
#[verifier::reject_recursive_types(K)]
#[verifier::reject_recursive_types(V)]
pub struct ExSkipMap<K, V>(SkipMap<K, V>);

/// What a skip-list table holds: its entries, keyed by sort key.
pub uninterp spec fn table_entries(m: &SkipMap<String, Key>) -> Map<Seq<char>, Key>;

/// Lexicographic order on character sequences, by code point; the order
/// in which a skip-list table hands its keys out.
pub open spec fn spec_str_lt(a: Seq<char>, b: Seq<char>) -> bool
    decreases a.len(),
{
    if b.len() == 0 {
        false
    } else if a.len() == 0 {
        true
    } else if a[0] != b[0] {
        (a[0] as u32) < (b[0] as u32)
    } else {
        spec_str_lt(a.skip(1), b.skip(1))
    }
}

/// An empty table.
pub open spec fn no_entries() -> Map<Seq<char>, Key> {
    Map::empty()
}

/// Relies on `SkipMap::new`: the new map holds nothing.
#[verifier::external_body]
fn skip_map_new() -> (r: SkipMap<String, Key>)
    ensures
        table_entries(&r) == no_entries(),
{
    SkipMap::new()
}

/// Relies on `SkipMap::insert`: the pair goes in, replacing any entry
/// with the same key.
#[verifier::external_body]
fn skip_map_insert(m: &mut SkipMap<String, Key>, key: String, value: &Key)
    ensures
        table_entries(final(m)) == table_entries(old(m)).insert(key@, *value),
{
    m.insert(key, value.clone());
}

/// Relies on `SkipMap::len`: the number of entries held.
#[verifier::external_body]
fn skip_map_len(m: &SkipMap<String, Key>) -> (r: usize)
    ensures
        r == table_entries(m).dom().len(),
{
    m.len()
}

/// Relies on `SkipMap::clear`: every entry is removed.
#[verifier::external_body]
fn skip_map_clear(m: &mut SkipMap<String, Key>)
    ensures
        table_entries(final(m)) == no_entries(),
{
    m.clear();
}

/// Relies on `SkipMap::iter`: every entry comes out exactly once, in
/// ascending key order. `String` orders its keys byte-wise over their
/// UTF-8 bytes, which orders them exactly as [`spec_str_lt`] does by
/// code point, since UTF-8 encoding preserves code-point order.
#[verifier::external_body]
fn skip_map_entries(m: &SkipMap<String, Key>) -> (r: Vec<(String, Key)>)
    ensures
        forall|i: int|
            0 <= i < r@.len() ==> table_entries(m).contains_pair(
                (#[trigger] r@[i]).0@,
                r@[i].1,
            ),
        forall|k: Seq<char>|
            table_entries(m).dom().contains(k) ==> exists|i: int|
                0 <= i < r@.len() && (#[trigger] r@[i]).0@ == k,
        forall|i: int, j: int|
            0 <= i < j < r@.len() ==> spec_str_lt((#[trigger] r@[i]).0@, (#[trigger] r@[j]).0@),
{
    let mut r = Vec::new();
    for e in m.iter() {
        r.push((e.key().clone(), e.value().clone()));
    }
    r
}

/// The role of one table at one moment.
#[derive(Debug, Clone, Copy, PartialEq, Eq, Structural)]
pub enum MemTableStatus {
    /// Immutable: being drained by minor compaction.
    Imu,
    /// Mutable: the table the write path inserts into.
    Mut,
    /// A transient state held only inside the swap.
    Temp,
}

/// One in-memory table and its role tag.
#[derive(Debug)]
pub struct MemTable {
    /// The ordered map from sort key to internal key.
    pub table: SkipMap<String, Key>,
    /// The table's current role.
    pub status: MemTableStatus,
    /// A fixed tag telling the two tables apart.
    pub num: u8,
}

impl MemTable {
    /// The entries this table holds.
    pub open spec fn entries(&self) -> Map<Seq<char>, Key> {
        table_entries(&self.table)
    }

    /// A real table holds finitely many entries.
    pub open spec fn wf(&self) -> bool {
        self.entries().dom().finite()
    }

    /// Marks the table immutable.
    pub fn mark_imu(&mut self)
        ensures
            final(self).status == MemTableStatus::Imu,
            final(self).table == old(self).table,
            final(self).entries() == old(self).entries(),
    {
        self.status = MemTableStatus::Imu;
    }

    /// Marks the table mutable.
    pub fn mark_mut(&mut self)
        ensures
            final(self).status == MemTableStatus::Mut,
            final(self).table == old(self).table,
            final(self).entries() == old(self).entries(),
    {
        self.status = MemTableStatus::Mut;
    }

    /// Marks the table as in mid-swap.
    pub fn mark_temp(&mut self)
        ensures
            final(self).status == MemTableStatus::Temp,
            final(self).table == old(self).table,
            final(self).entries() == old(self).entries(),
    {
        self.status = MemTableStatus::Temp;
    }

    /// The number of entries held.
    pub fn len(&self) -> (r: usize)
        ensures
            r == self.entries().dom().len(),
    {
        skip_map_len(&self.table)
    }

    /// The entries held, in ascending sort-key order.
    pub fn entries_vec(&self) -> (r: Vec<(String, Key)>)
        ensures
            forall|i: int|
                0 <= i < r@.len() ==> self.entries().contains_pair(
                    (#[trigger] r@[i]).0@,
                    r@[i].1,
                ),
            forall|k: Seq<char>|
                self.entries().dom().contains(k) ==> exists|i: int|
                    0 <= i < r@.len() && (#[trigger] r@[i]).0@ == k,
            forall|i: int, j: int|
                0 <= i < j < r@.len() ==> spec_str_lt(
                    (#[trigger] r@[i]).0@,
                    (#[trigger] r@[j]).0@,
                ),
    {
        skip_map_entries(&self.table)
    }
}

/// The pair of in-memory tables the engine writes through. One is
/// mutable and one immutable at every observable moment; the swap
/// trades the roles once the immutable side has been drained.
#[derive(Debug)]
pub struct MemTables {
    /// The first table.
    pub mem_table_01: MemTable,
    /// The second table.
    pub mem_table_02: MemTable,
}

impl MemTables {
    /// The role of the first table.
    pub open spec fn status_a(&self) -> MemTableStatus {
        self.mem_table_01.status
    }

    /// The role of the second table.
    pub open spec fn status_b(&self) -> MemTableStatus {
        self.mem_table_02.status
    }

    /// Exactly one table is mutable and the other immutable, and both
    /// hold finitely many entries.
    pub open spec fn wf(&self) -> bool {
        &&& (self.status_a() == MemTableStatus::Mut && self.status_b() == MemTableStatus::Imu) || (
        self.status_a() == MemTableStatus::Imu && self.status_b() == MemTableStatus::Mut)
        &&& self.mem_table_01.wf()
        &&& self.mem_table_02.wf()
    }

    /// The entries of the mutable table.
    pub open spec fn mut_entries(&self) -> Map<Seq<char>, Key> {
        if self.status_a() == MemTableStatus::Mut {
            self.mem_table_01.entries()
        } else {
            self.mem_table_02.entries()
        }
    }

    /// The entries of the immutable table.
    pub open spec fn imu_entries(&self) -> Map<Seq<char>, Key> {
        if self.status_a() == MemTableStatus::Imu {
            self.mem_table_01.entries()
        } else {
            self.mem_table_02.entries()
        }
    }

    /// A pair of empty tables: the first mutable, the second immutable.
    pub fn new() -> (r: Self)
        ensures
            r.wf(),
            r.status_a() == MemTableStatus::Mut,
            r.status_b() == MemTableStatus::Imu,
            r.mem_table_01.entries() == Map::<Seq<char>, Key>::empty(),
            r.mem_table_02.entries() == Map::<Seq<char>, Key>::empty(),
            r.mut_entries() == Map::<Seq<char>, Key>::empty(),
            r.imu_entries() == Map::<Seq<char>, Key>::empty(),
    {
        MemTables {
            mem_table_01: MemTable {
                table: skip_map_new(),
                status: MemTableStatus::Mut,
                num: 0,
            },
            mem_table_02: MemTable {
                table: skip_map_new(),
                status: MemTableStatus::Imu,
                num: 1,
            },
        }
    }

    /// The table currently mutable.
    pub fn mut_table(&self) -> (r: Option<&MemTable>)
        requires
            self.wf(),
        ensures
            r is Some,
            r.unwrap().status == MemTableStatus::Mut,
            r.unwrap().entries() == self.mut_entries(),
    {
        if matches!(self.mem_table_01.status, MemTableStatus::Mut) {
            Some(&self.mem_table_01)
        } else {
            Some(&self.mem_table_02)
        }
    }

    /// The table currently immutable.
    pub fn imu_table(&self) -> (r: Option<&MemTable>)
        requires
            self.wf(),
        ensures
            r is Some,
            r.unwrap().status == MemTableStatus::Imu,
            r.unwrap().entries() == self.imu_entries(),
    {
        if matches!(self.mem_table_01.status, MemTableStatus::Imu) {
            Some(&self.mem_table_01)
        } else {
            Some(&self.mem_table_02)
        }
    }

    /// The table in the transient mid-swap state, when one is; else
    /// the second table. Only meaningful between the role marks of a
    /// swap, which never escapes `exchange`.
    pub fn temp_table(&self) -> (r: Option<&MemTable>)
        ensures
            r is Some,
            (self.status_a() == MemTableStatus::Temp ==> r.unwrap().status
                == MemTableStatus::Temp),
    {
        match self.mem_table_01.status {
            MemTableStatus::Temp => Some(&self.mem_table_01),
            _ => Some(&self.mem_table_02),
        }
    }

    /// Inserts one internal key into the mutable table at its sort key.
    pub fn add_record(&mut self, key: &Key)
        requires
            old(self).wf(),
        ensures
            final(self).wf(),
            final(self).mut_entries() == old(self).mut_entries().insert(key@.sort_key(), *key),
            final(self).imu_entries() == old(self).imu_entries(),
            final(self).status_a() == old(self).status_a(),
            final(self).status_b() == old(self).status_b(),
    {
        let sort_key = key.get_sort_key();
        if matches!(self.mem_table_01.status, MemTableStatus::Mut) {
            skip_map_insert(&mut self.mem_table_01.table, sort_key, key);
        } else {
            skip_map_insert(&mut self.mem_table_02.table, sort_key, key);
        }
    }

    /// Takes every entry out of the immutable table, in ascending
    /// sort-key order, leaving it empty. The write path calls this to
    /// drain the table into a level-0 file before the roles swap again.
    pub fn drain_imu(&mut self) -> (r: Vec<(String, Key)>)
        requires
            old(self).wf(),
        ensures
            final(self).wf(),
            final(self).mut_entries() == old(self).mut_entries(),
            final(self).imu_entries() == Map::<Seq<char>, Key>::empty(),
            final(self).status_a() == old(self).status_a(),
            final(self).status_b() == old(self).status_b(),
            forall|i: int|
                0 <= i < r@.len() ==> old(self).imu_entries().contains_pair(
                    (#[trigger] r@[i]).0@,
                    r@[i].1,
                ),
            forall|k: Seq<char>|
                old(self).imu_entries().dom().contains(k) ==> exists|i: int|
                    0 <= i < r@.len() && (#[trigger] r@[i]).0@ == k,
            forall|i: int, j: int|
                0 <= i < j < r@.len() ==> spec_str_lt(
                    (#[trigger] r@[i]).0@,
                    (#[trigger] r@[j]).0@,
                ),
    {
        if matches!(self.mem_table_01.status, MemTableStatus::Imu) {
            let r = skip_map_entries(&self.mem_table_01.table);
            skip_map_clear(&mut self.mem_table_01.table);
            r
        } else {
            let r = skip_map_entries(&self.mem_table_02.table);
            skip_map_clear(&mut self.mem_table_02.table);
            r
        }
    }

    /// Trades the two roles: the mutable table becomes immutable and
    /// the drained immutable table becomes mutable. The immutable side
    /// must be empty — the engine drains it through `drain_imu` before
    /// swapping, which is what backpressures writers when compaction
    /// falls behind.
    pub fn exchange(&mut self)
        requires
            old(self).wf(),
            old(self).imu_entries() == Map::<Seq<char>, Key>::empty(),
        ensures
            final(self).wf(),
            final(self).mut_entries() == Map::<Seq<char>, Key>::empty(),
            final(self).imu_entries() == old(self).mut_entries(),
    {
        if matches!(self.mem_table_01.status, MemTableStatus::Mut) {
            self.mem_table_01.mark_temp();
            self.mem_table_02.mark_mut();
            self.mem_table_01.mark_imu();
        } else {
            self.mem_table_02.mark_temp();
            self.mem_table_01.mark_mut();
            self.mem_table_02.mark_imu();
        }
    }
}

/// At every well-formed moment exactly one of the two tables is
/// mutable and exactly one is immutable; the transient mid-swap state
/// is never observable.
pub proof fn lemma_exactly_one_mut(t: MemTables)
    requires
        t.wf(),
    ensures
        (t.status_a() == MemTableStatus::Mut) <==> !(t.status_b() == MemTableStatus::Mut),
        (t.status_a() == MemTableStatus::Imu) <==> !(t.status_b() == MemTableStatus::Imu),
        t.status_a() != MemTableStatus::Temp,
        t.status_b() != MemTableStatus::Temp,
{
}

} // verus!
