//! The column-family key-value store: an exclusively-held, in-memory model
//! with typed columns, point-in-time iteration, and atomic batch commit.
//!
//! Each column is an association list with distinct keys, viewed as a map
//! from hash to raw bytes. A `StoreUpdate` buffers writes across columns;
//! `commit` applies all of them or none.

use vstd::prelude::*;

use crate::StoreError;

verus! {

/// The keys of an association list are pairwise distinct.
pub open spec fn keys_distinct<V>(s: Seq<(u64, V)>) -> bool {
    forall|i: int, j: int|
        0 <= i < j < s.len() ==> (#[trigger] s[i]).0 != (#[trigger] s[j]).0
}

/// The map an association list denotes; a later entry wins, though with
/// distinct keys there is nothing to win over.
pub open spec fn map_of<V: View>(s: Seq<(u64, V)>) -> Map<u64, V::V>
    decreases s.len(),
{
    if s.len() == 0 {
        Map::empty()
    } else {
        map_of(s.drop_last()).insert(s.last().0, s.last().1@)
    }
}

pub proof fn lemma_map_of_index<V: View>(s: Seq<(u64, V)>, i: int)
    requires
        keys_distinct(s),
        0 <= i < s.len(),
    ensures
        map_of(s).contains_key(s[i].0),
        map_of(s)[s[i].0] == s[i].1@,
    decreases s.len(),
{
    if i < s.len() - 1 {
        assert(keys_distinct(s.drop_last()));
        lemma_map_of_index(s.drop_last(), i);
        assert(s.drop_last()[i] == s[i]);
        assert(s.last().0 != s[i].0);
    }
}

pub proof fn lemma_map_of_absent<V: View>(s: Seq<(u64, V)>, k: u64)
    requires
        forall|i: int| 0 <= i < s.len() ==> (#[trigger] s[i]).0 != k,
    ensures
        !map_of(s).contains_key(k),
    decreases s.len(),
{
    if s.len() > 0 {
        lemma_map_of_absent(s.drop_last(), k);
    }
}

pub proof fn lemma_map_of_dom<V: View>(s: Seq<(u64, V)>)
    ensures
        forall|k: u64|
            #[trigger] map_of(s).contains_key(k) ==> exists|i: int|
                0 <= i < s.len() && (#[trigger] s[i]).0 == k,
    decreases s.len(),
{
    if s.len() > 0 {
        lemma_map_of_dom(s.drop_last());
        assert forall|k: u64| #[trigger] map_of(s).contains_key(k) implies exists|i: int|
            0 <= i < s.len() && (#[trigger] s[i]).0 == k by {
            if k == s.last().0 {
                assert(s[s.len() - 1].0 == k);
            } else {
                assert(map_of(s.drop_last()).contains_key(k));
                let i = choose|i: int| 0 <= i < s.drop_last().len() && (#[trigger] s.drop_last()[i]).0 == k;
                assert(s[i].0 == k);
            }
        }
    }
}

pub proof fn lemma_map_of_push<V: View>(s: Seq<(u64, V)>, k: u64, v: V)
    ensures
        map_of(s.push((k, v))) == map_of(s).insert(k, v@),
{
    assert(s.push((k, v)).drop_last() =~= s);
    assert(s.push((k, v)).last() == (k, v));
}

pub proof fn lemma_map_of_update<V: View>(s: Seq<(u64, V)>, i: int, v: V)
    requires
        keys_distinct(s),
        0 <= i < s.len(),
    ensures
        map_of(s.update(i, (s[i].0, v))) == map_of(s).insert(s[i].0, v@),
        keys_distinct(s.update(i, (s[i].0, v))),
    decreases s.len(),
{
    let k = s[i].0;
    let t = s.update(i, (k, v));
    assert(t.len() == s.len());
    if i == s.len() - 1 {
        assert(t.drop_last() =~= s.drop_last());
        assert(t.last() == (k, v));
        assert(map_of(t) == map_of(s.drop_last()).insert(k, v@));
        assert(map_of(s).insert(k, v@) =~= map_of(s.drop_last()).insert(k, v@));
    } else {
        assert(keys_distinct(s.drop_last()));
        assert(s.drop_last()[i] == s[i]);
        lemma_map_of_update(s.drop_last(), i, v);
        assert(t.drop_last() =~= s.drop_last().update(i, (k, v)));
        assert(t.last() == s.last());
        assert(map_of(t) == map_of(s.drop_last()).insert(k, v@).insert(s.last().0, s.last().1@));
        assert(s.last().0 != k);
        assert(map_of(s.drop_last()).insert(k, v@).insert(s.last().0, s.last().1@)
            =~= map_of(s).insert(k, v@));
    }
}

/// An association list keyed by hash, the backing shape of every column and
/// of the in-memory fold maps.
pub struct AssocMap<V> {
    pub entries: Vec<(u64, V)>,
}

impl<V: View> View for AssocMap<V> {
    type V = Map<u64, V::V>;

    open spec fn view(&self) -> Map<u64, V::V> {
        map_of(self.entries@)
    }
}

impl<V: View> AssocMap<V> {
    pub open spec fn wf(self) -> bool {
        keys_distinct(self.entries@)
    }

    pub fn new() -> (r: Self)
        ensures
            r.wf(),
            r@ == Map::<u64, V::V>::empty(),
            r.entries@.len() == 0,
    {
        AssocMap { entries: Vec::new() }
    }

    pub fn index_of(&self, k: u64) -> (r: Option<usize>)
        requires
            self.wf(),
        ensures
            match r {
                Some(i) => i < self.entries@.len() && self.entries@[i as int].0 == k
                    && self@.contains_key(k) && self@[k] == self.entries@[i as int].1@,
                None => !self@.contains_key(k),
            },
    {
        let n = self.entries.len();
        for i in 0..n
            invariant
                n == self.entries@.len(),
                keys_distinct(self.entries@),
                forall|j: int| 0 <= j < i ==> (#[trigger] self.entries@[j]).0 != k,
        {
            if self.entries[i].0 == k {
                proof {
                    lemma_map_of_index(self.entries@, i as int);
                }
                return Some(i);
            }
        }
        proof {
            lemma_map_of_absent(self.entries@, k);
        }
        None
    }

    pub fn get(&self, k: u64) -> (r: Option<&V>)
        requires
            self.wf(),
        ensures
            match r {
                Some(v) => self@.contains_key(k) && v@ == self@[k],
                None => !self@.contains_key(k),
            },
    {
        match self.index_of(k) {
            Some(i) => Some(&self.entries[i].1),
            None => None,
        }
    }

    pub fn insert(&mut self, k: u64, v: V)
        requires
            old(self).wf(),
        ensures
            final(self).wf(),
            final(self)@ == old(self)@.insert(k, v@),
            final(self).entries@.len() <= old(self).entries@.len() + 1,
            forall|j: int|
                0 <= j < final(self).entries@.len() ==> (#[trigger] final(self).entries@[j]) == (
                k,
                v,
            ) || (exists|j0: int|
                0 <= j0 < old(self).entries@.len() && final(self).entries@[j] == old(
                    self,
                ).entries@[j0]),
    {
        let found = self.index_of(k);
        match found {
            Some(i) => {
                let ghost s = self.entries@;
                self.entries.push((k, v));
                let _replaced = self.entries.swap_remove(i);
                proof {
                    assert(self.entries@ =~= s.update(i as int, (k, v)));
                    lemma_map_of_update(s, i as int, v);
                }
            },
            None => {
                let ghost s = self.entries@;
                proof {
                    assert forall|j: int| 0 <= j < s.len() implies (#[trigger] s[j]).0 != k by {
                        if s[j].0 == k {
                            lemma_map_of_index(s, j);
                        }
                    }
                }
                self.entries.push((k, v));
                proof {
                    lemma_map_of_push(s, k, v);
                    assert(keys_distinct(self.entries@));
                }
            },
        }
    }
}

/// Copies a byte vector element by element.
pub fn copy_bytes(v: &Vec<u8>) -> (r: Vec<u8>)
    ensures
        r@ == v@,
{
    let mut out: Vec<u8> = Vec::new();
    let n = v.len();
    for i in 0..n
        invariant
            n == v@.len(),
            out@ =~= v@.subrange(0, i as int),
    {
        out.push(v[i]);
        proof {
            assert(out@ =~= v@.subrange(0, i as int + 1));
        }
    }
    proof {
        assert(out@ =~= v@);
    }
    out
}

/// The fixed column families of the store schema.
#[derive(Clone, Copy, PartialEq, Eq, Structural, Debug)]
pub enum DbCol {
    /// Holds the schema version under the reserved key.
    ColDbVersion,
    /// Source column of execution-outcome records.
    ColTransactionResult,
    /// Destination column: block hash to set of outcome ids.
    ColOutcomesByBlockHash,
    /// Source column of chunk records.
    ColChunks,
    /// Destination column: transaction hash to reference count.
    ColTransactionRefCount,
}

/// The store handle: five columns and a fault-injection switch that makes
/// the next commit fail at the storage layer.
pub struct Store {
    pub col_db_version: AssocMap<Vec<u8>>,
    pub col_transaction_result: AssocMap<Vec<u8>>,
    pub col_outcomes_by_block_hash: AssocMap<Vec<u8>>,
    pub col_chunks: AssocMap<Vec<u8>>,
    pub col_transaction_refcount: AssocMap<Vec<u8>>,
    pub fail_next_commit: bool,
}

impl Store {
    pub open spec fn col_assoc(self, c: DbCol) -> AssocMap<Vec<u8>> {
        match c {
            DbCol::ColDbVersion => self.col_db_version,
            DbCol::ColTransactionResult => self.col_transaction_result,
            DbCol::ColOutcomesByBlockHash => self.col_outcomes_by_block_hash,
            DbCol::ColChunks => self.col_chunks,
            DbCol::ColTransactionRefCount => self.col_transaction_refcount,
        }
    }

    /// The map a column denotes.
    pub open spec fn col(self, c: DbCol) -> Map<u64, Seq<u8>> {
        self.col_assoc(c)@
    }

    /// The column's entries in iteration order.
    pub open spec fn col_entries(self, c: DbCol) -> Seq<(u64, Seq<u8>)> {
        self.col_assoc(c).entries@.map_values(|p: (u64, Vec<u8>)| (p.0, p.1@))
    }

    pub open spec fn wf(self) -> bool {
        forall|c: DbCol| (#[trigger] self.col_assoc(c)).wf()
    }

    /// The data of two stores agree column by column.
    pub open spec fn same_data(self, other: Store) -> bool {
        forall|c: DbCol| #[trigger] self.col_assoc(c) == other.col_assoc(c)
    }

    pub fn new() -> (r: Store)
        ensures
            r.wf(),
            forall|c: DbCol| #[trigger] r.col(c) == Map::<u64, Seq<u8>>::empty(),
            forall|c: DbCol| (#[trigger] r.col_entries(c)).len() == 0,
            !r.fail_next_commit,
    {
        let r = Store {
            col_db_version: AssocMap::new(),
            col_transaction_result: AssocMap::new(),
            col_outcomes_by_block_hash: AssocMap::new(),
            col_chunks: AssocMap::new(),
            col_transaction_refcount: AssocMap::new(),
            fail_next_commit: false,
        };
        proof {
            assert forall|c: DbCol| #[trigger] r.col(c) == Map::<u64, Seq<u8>>::empty() by {
                assert(r.col_assoc(c).entries@.len() == 0);
            }
            assert forall|c: DbCol| (#[trigger] r.col_entries(c)).len() == 0 by {
                assert(r.col_assoc(c).entries@.len() == 0);
            }
        }
        r
    }

    fn col_ref(&self, c: DbCol) -> (r: &AssocMap<Vec<u8>>)
        ensures
            *r == self.col_assoc(c),
    {
        match c {
            DbCol::ColDbVersion => &self.col_db_version,
            DbCol::ColTransactionResult => &self.col_transaction_result,
            DbCol::ColOutcomesByBlockHash => &self.col_outcomes_by_block_hash,
            DbCol::ColChunks => &self.col_chunks,
            DbCol::ColTransactionRefCount => &self.col_transaction_refcount,
        }
    }

    /// Reads the raw bytes stored in a column under a key.
    pub fn get(&self, c: DbCol, k: u64) -> (r: Option<Vec<u8>>)
        requires
            self.wf(),
        ensures
            match r {
                Some(v) => self.col(c).contains_key(k) && v@ == self.col(c)[k],
                None => !self.col(c).contains_key(k),
            },
    {
        let m = self.col_ref(c);
        match m.index_of(k) {
            Some(i) => Some(copy_bytes(&m.entries[i].1)),
            None => None,
        }
    }

    /// Opens a scoped, buffered set of pending writes.
    pub fn store_update(&self) -> (r: StoreUpdate)
        ensures
            r@.len() == 0,
    {
        StoreUpdate { writes: Vec::new() }
    }

    /// Atomically applies every staged write, or none: on failure no partial
    /// effect is observable.
    pub fn commit(&mut self, update: StoreUpdate) -> (r: Result<(), StoreError>)
        requires
            old(self).wf(),
        ensures
            final(self).wf(),
            match r {
                Ok(()) => !old(self).fail_next_commit && !final(self).fail_next_commit
                    && (forall|c: DbCol|
                        #[trigger] final(self).col(c) == batch_applied(old(self).col(c), update@, c))
                    && (forall|c: DbCol|
                        !batch_names_col(update@, c) ==> #[trigger] final(self).col_assoc(c)
                            == old(self).col_assoc(c)),
                Err(e) => e == StoreError::Commit && old(self).fail_next_commit
                    && !final(self).fail_next_commit && final(self).same_data(*old(self)),
            },
    {
        if self.fail_next_commit {
            self.fail_next_commit = false;
            proof {
                assert forall|c: DbCol| #[trigger] self.col_assoc(c) == old(self).col_assoc(c) by {}
                assert forall|c: DbCol| (#[trigger] self.col_assoc(c)).wf() by {
                    assert(old(self).col_assoc(c).wf());
                }
            }
            return Err(StoreError::Commit);
        }
        let ghost s0 = *self;
        let n = update.writes.len();
        for i in 0..n
            invariant
                n == update.writes@.len(),
                self.wf(),
                self.fail_next_commit == false,
                forall|c: DbCol|
                    #[trigger] self.col(c) == batch_applied(s0.col(c), update@.subrange(0, i as int), c),
                forall|c: DbCol|
                    !batch_names_col(update@.subrange(0, i as int), c)
                        ==> #[trigger] self.col_assoc(c) == s0.col_assoc(c),
        {
            let w = &update.writes[i];
            let key = w.1;
            let val = copy_bytes(&w.2);
            let ghost pre = *self;
            let wc = w.0;
            proof {
                assert(self.col_assoc(wc).wf());
            }
            match wc {
                DbCol::ColDbVersion => self.col_db_version.insert(key, val),
                DbCol::ColTransactionResult => self.col_transaction_result.insert(key, val),
                DbCol::ColOutcomesByBlockHash => self.col_outcomes_by_block_hash.insert(key, val),
                DbCol::ColChunks => self.col_chunks.insert(key, val),
                DbCol::ColTransactionRefCount => self.col_transaction_refcount.insert(key, val),
            }
            proof {
                assert(self.col_assoc(wc)@ == pre.col_assoc(wc)@.insert(key, val@));
                assert(self.col_assoc(wc).wf());
                assert forall|c: DbCol| c != wc implies #[trigger] self.col_assoc(c)
                    == pre.col_assoc(c) by {}
                assert forall|c: DbCol| (#[trigger] self.col_assoc(c)).wf() by {
                    if c != wc {
                        assert(self.col_assoc(c) == pre.col_assoc(c));
                        assert(pre.col_assoc(c).wf());
                    }
                }
                let ii = i as int;
                assert(update@[ii] == (update.writes@[ii].0, update.writes@[ii].1, update.writes@[ii].2@));
                assert(update@.subrange(0, ii + 1).drop_last() =~= update@.subrange(0, ii));
                assert(update@.subrange(0, ii + 1).last() == update@[ii]);
                assert(update@[ii].0 == wc && update@[ii].1 == key && update@[ii].2 == val@);
                assert forall|c: DbCol| #[trigger] self.col(c) == batch_applied(
                    s0.col(c),
                    update@.subrange(0, ii + 1),
                    c,
                ) by {
                    assert(pre.col(c) == batch_applied(s0.col(c), update@.subrange(0, ii), c));
                    if c == wc {
                        assert(update@.subrange(0, ii + 1).last().0 == c);
                        assert(batch_applied(s0.col(c), update@.subrange(0, ii + 1), c)
                            == batch_applied(s0.col(c), update@.subrange(0, ii), c).insert(
                            key,
                            val@,
                        ));
                        assert(self.col(c) == pre.col(c).insert(key, val@));
                    } else {
                        assert(update@.subrange(0, ii + 1).last().0 != c);
                        assert(batch_applied(s0.col(c), update@.subrange(0, ii + 1), c)
                            == batch_applied(s0.col(c), update@.subrange(0, ii), c));
                        assert(self.col_assoc(c) == pre.col_assoc(c));
                    }
                }
                assert forall|c: DbCol|
                    !batch_names_col(update@.subrange(0, ii + 1), c)
                        implies #[trigger] self.col_assoc(c) == s0.col_assoc(c) by {
                    assert(update@.subrange(0, ii + 1)[ii] == update@[ii]);
                    assert(c != wc);
                    assert(!batch_names_col(update@.subrange(0, ii), c)) by {
                        if batch_names_col(update@.subrange(0, ii), c) {
                            let j = choose|j: int|
                                0 <= j < update@.subrange(0, ii).len() && (#[trigger] update@.subrange(
                                    0,
                                    ii,
                                )[j]).0 == c;
                            assert(update@.subrange(0, ii + 1)[j].0 == c);
                        }
                    }
                    assert(self.col_assoc(c) == pre.col_assoc(c));
                }
            }
        }
        proof {
            assert(update@.subrange(0, n as int) =~= update@);
        }
        Ok(())
    }
}

/// A buffered batch of writes: column, key, raw bytes.
pub struct StoreUpdate {
    pub writes: Vec<(DbCol, u64, Vec<u8>)>,
}

impl View for StoreUpdate {
    type V = Seq<(DbCol, u64, Seq<u8>)>;

    open spec fn view(&self) -> Seq<(DbCol, u64, Seq<u8>)> {
        self.writes@.map_values(|w: (DbCol, u64, Vec<u8>)| (w.0, w.1, w.2@))
    }
}

impl StoreUpdate {
    /// Stages one raw write.
    pub fn set(&mut self, col: DbCol, key: u64, value: Vec<u8>)
        ensures
            final(self)@ == old(self)@.push((col, key, value@)),
    {
        let ghost before = self@;
        self.writes.push((col, key, value));
        proof {
            assert(self@ =~= before.push((col, key, value@)));
        }
    }
}

/// The map a column holds after the writes of a batch that name it are
/// applied in order.
pub open spec fn batch_applied(
    m: Map<u64, Seq<u8>>,
    ws: Seq<(DbCol, u64, Seq<u8>)>,
    c: DbCol,
) -> Map<u64, Seq<u8>>
    decreases ws.len(),
{
    if ws.len() == 0 {
        m
    } else {
        let prev = batch_applied(m, ws.drop_last(), c);
        if ws.last().0 == c {
            prev.insert(ws.last().1, ws.last().2)
        } else {
            prev
        }
    }
}

/// Every write of the batch names the one column.
pub open spec fn writes_col_only(ws: Seq<(DbCol, u64, Seq<u8>)>, c: DbCol) -> bool {
    forall|i: int| 0 <= i < ws.len() ==> (#[trigger] ws[i]).0 == c
}

/// Some write of the batch uses this key.
pub open spec fn batch_has_key(ws: Seq<(DbCol, u64, Seq<u8>)>, k: u64) -> bool {
    exists|i: int| 0 <= i < ws.len() && (#[trigger] ws[i]).1 == k
}

/// A key untouched by the batch keeps its presence and value.
pub open spec fn key_preserved(
    m: Map<u64, Seq<u8>>,
    ws: Seq<(DbCol, u64, Seq<u8>)>,
    c: DbCol,
    k: u64,
) -> bool {
    batch_applied(m, ws, c).contains_key(k) == m.contains_key(k) && (m.contains_key(k)
        ==> batch_applied(m, ws, c)[k] == m[k])
}

/// Some write of the batch names this column.
pub open spec fn batch_names_col(ws: Seq<(DbCol, u64, Seq<u8>)>, c: DbCol) -> bool {
    exists|i: int| 0 <= i < ws.len() && (#[trigger] ws[i]).0 == c
}

/// The keys of the batch are pairwise distinct.
pub open spec fn write_keys_distinct(ws: Seq<(DbCol, u64, Seq<u8>)>) -> bool {
    forall|i: int, j: int|
        0 <= i < j < ws.len() ==> (#[trigger] ws[i]).1 != (#[trigger] ws[j]).1
}

/// A batch aimed at one column leaves every other column's map alone.
pub proof fn lemma_batch_applied_other(
    m: Map<u64, Seq<u8>>,
    ws: Seq<(DbCol, u64, Seq<u8>)>,
    c: DbCol,
    c2: DbCol,
)
    requires
        writes_col_only(ws, c),
        c2 != c,
    ensures
        batch_applied(m, ws, c2) == m,
    decreases ws.len(),
{
    if ws.len() > 0 {
        lemma_batch_applied_other(m, ws.drop_last(), c, c2);
    }
}

/// With distinct keys, a batch aimed at one column writes each of its values
/// under its key and leaves every other key alone.
pub proof fn lemma_batch_applied_all(
    m: Map<u64, Seq<u8>>,
    ws: Seq<(DbCol, u64, Seq<u8>)>,
    c: DbCol,
)
    requires
        writes_col_only(ws, c),
        write_keys_distinct(ws),
    ensures
        forall|i: int|
            0 <= i < ws.len() ==> batch_applied(m, ws, c).contains_key((#[trigger] ws[i]).1)
                && batch_applied(m, ws, c)[ws[i].1] == ws[i].2,
        forall|k: u64| !batch_has_key(ws, k) ==> #[trigger] key_preserved(m, ws, c, k),
    decreases ws.len(),
{
    if ws.len() > 0 {
        assert forall|i: int| 0 <= i < ws.drop_last().len() implies (#[trigger] ws.drop_last()[i]).0
            == c by {
            assert(ws.drop_last()[i] == ws[i]);
        }
        assert forall|i: int, j: int|
            0 <= i < j < ws.drop_last().len() implies (#[trigger] ws.drop_last()[i]).1 != (
        #[trigger] ws.drop_last()[j]).1 by {
            assert(ws.drop_last()[i] == ws[i]);
            assert(ws.drop_last()[j] == ws[j]);
        }
        lemma_batch_applied_all(m, ws.drop_last(), c);
        assert(ws[ws.len() - 1].0 == c);
        assert(batch_applied(m, ws, c) == batch_applied(m, ws.drop_last(), c).insert(
            ws.last().1,
            ws.last().2,
        ));
        assert forall|i: int|
            0 <= i < ws.len() implies batch_applied(m, ws, c).contains_key((#[trigger] ws[i]).1)
            && batch_applied(m, ws, c)[ws[i].1] == ws[i].2 by {
            if i < ws.len() - 1 {
                assert(ws.drop_last()[i] == ws[i]);
                assert(ws.last().1 != ws[i].1);
            }
        }
        assert forall|k: u64| !batch_has_key(ws, k) implies #[trigger] key_preserved(m, ws, c, k) by {
            assert(!batch_has_key(ws.drop_last(), k)) by {
                if batch_has_key(ws.drop_last(), k) {
                    let i = choose|i: int|
                        0 <= i < ws.drop_last().len() && (#[trigger] ws.drop_last()[i]).1 == k;
                    assert(ws[i].1 == k);
                }
            }
            assert(ws[ws.len() - 1].1 != k);
            assert(key_preserved(m, ws.drop_last(), c, k));
            assert(batch_applied(m, ws.drop_last(), c).contains_key(k) == m.contains_key(k));
            assert(m.contains_key(k) ==> batch_applied(m, ws.drop_last(), c)[k] == m[k]);
            assert(batch_applied(m, ws, c).contains_key(k) == m.contains_key(k));
            assert(m.contains_key(k) ==> batch_applied(m, ws, c)[k] == m[k]);
        }
    } else {
        assert(batch_applied(m, ws, c) == m);
        assert forall|k: u64| !batch_has_key(ws, k) implies #[trigger] key_preserved(m, ws, c, k) by {}
    }
}

} // verus!
