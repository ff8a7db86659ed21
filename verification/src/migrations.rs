//! The migration engine: the schema-version slot, the two migration steps
//! that rebuild derived columns, and the driver that orders pending steps by
//! target version and commits each step atomically with its version bump.

use vstd::prelude::*;

use crate::codec::{
    dec_u32, decode_hash_seq, decode_hash_seq_spec, decode_outcome, decode_outcome_spec,
    encode_hash_seq, json_u32_from_slice, json_u32_to_vec, u64_le, borsh_u64_to_vec,
    ExecutionOutcomeWithIdAndProof, ShardChunk,
};
use crate::kv::{
    batch_applied, batch_has_key, batch_names_col, key_preserved, lemma_batch_applied_all,
    lemma_batch_applied_other, lemma_map_of_dom, lemma_map_of_index, write_keys_distinct,
    writes_col_only, AssocMap, DbCol, Store, StoreUpdate,
};
use crate::StoreError;

verus! {

/// The reserved key that holds the schema version in its dedicated column.
pub const VERSION_KEY: u64 = 0;

/// A set of hashes kept as a duplicate-free list, the set-valued aggregate.
pub struct HashList {
    pub elems: Vec<u64>,
}

impl View for HashList {
    type V = Set<u64>;

    open spec fn view(&self) -> Set<u64> {
        self.elems@.to_set()
    }
}

impl HashList {
    pub fn new() -> (r: Self)
        ensures
            r@ == Set::<u64>::empty(),
            r.elems@.len() == 0,
            r.elems@.no_duplicates(),
    {
        let r = HashList { elems: Vec::new() };
        proof {
            assert(r.elems@.to_set() =~= Set::<u64>::empty());
        }
        r
    }

    pub fn contains(&self, h: u64) -> (r: bool)
        ensures
            r == self@.contains(h),
    {
        let n = self.elems.len();
        for i in 0..n
            invariant
                n == self.elems@.len(),
                forall|j: int| 0 <= j < i ==> self.elems@[j] != h,
        {
            if self.elems[i] == h {
                assert(self.elems@.contains(h));
                return true;
            }
        }
        assert(!self.elems@.contains(h));
        false
    }

    pub fn insert(&mut self, h: u64)
        ensures
            final(self)@ == old(self)@.insert(h),
            final(self).elems@.len() <= old(self).elems@.len() + 1,
            old(self)@.contains(h) ==> final(self).elems@.len() == old(self).elems@.len(),
            old(self).elems@.no_duplicates() ==> final(self).elems@.no_duplicates(),
    {
        if self.contains(h) {
            proof {
                assert(old(self)@.insert(h) =~= old(self)@);
            }
        } else {
            let ghost before = self.elems@;
            self.elems.push(h);
            proof {
                assert forall|x: u64| self.elems@.contains(x) <==> (before.contains(x) || x
                    == h) by {
                    if self.elems@.contains(x) {
                        let i = choose|i: int| 0 <= i < self.elems@.len() && self.elems@[i] == x;
                        if i < before.len() {
                            assert(before[i] == x);
                        }
                    }
                    if before.contains(x) {
                        let i = choose|i: int| 0 <= i < before.len() && before[i] == x;
                        assert(self.elems@[i] == x);
                    }
                    if x == h {
                        assert(self.elems@[before.len() as int] == x);
                    }
                }
                assert(self.elems@.to_set() =~= before.to_set().insert(h));
                if before.no_duplicates() {
                    assert forall|i: int, j: int|
                        0 <= i < j < self.elems@.len() implies self.elems@[i] != self.elems@[j] by {
                        if j == before.len() {
                            assert(before.contains(before[i]));
                        }
                    }
                }
            }
        }
    }
}

pub proof fn lemma_dec_u32_len(v: u32)
    ensures
        dec_u32(v).len() >= 1,
    decreases v,
{
    if v >= 10 {
        lemma_dec_u32_len(v / 10);
    }
}

/// Two different values never share their decimal digits.
pub proof fn lemma_dec_u32_injective(a: u32, b: u32)
    requires
        dec_u32(a) == dec_u32(b),
    ensures
        a == b,
    decreases a,
{
    if a < 10 && b < 10 {
        assert(dec_u32(a)[0] == dec_u32(b)[0]);
        assert(dec_u32(a)[0] == (0x30 + a) as u8);
        assert(dec_u32(b)[0] == (0x30 + b) as u8);
        assert((0x30 + a) as u8 == (0x30 + b) as u8);
        assert(((0x30 + a) as u8) as u32 == 0x30 + a);
        assert(((0x30 + b) as u8) as u32 == 0x30 + b);
    } else if a < 10 && b >= 10 {
        lemma_dec_u32_len(b / 10);
        assert(dec_u32(b).len() >= 2);
        assert(false);
    } else if a >= 10 && b < 10 {
        lemma_dec_u32_len(a / 10);
        assert(dec_u32(a).len() >= 2);
        assert(false);
    } else {
        assert(dec_u32(a) == dec_u32(a / 10).push((0x30 + a % 10) as u8));
        assert(dec_u32(b) == dec_u32(b / 10).push((0x30 + b % 10) as u8));
        assert(dec_u32(a / 10).push((0x30 + a % 10) as u8).last() == (0x30 + a % 10) as u8);
        assert(dec_u32(b / 10).push((0x30 + b % 10) as u8).last() == (0x30 + b % 10) as u8);
        assert(dec_u32(a).last() == dec_u32(b).last());
        assert((0x30 + a % 10) as u8 == (0x30 + b % 10) as u8);
        assert(((0x30 + a % 10) as u8) as u32 == 0x30 + a % 10);
        assert(((0x30 + b % 10) as u8) as u32 == 0x30 + b % 10);
        assert(a % 10 == b % 10);
        assert(dec_u32(a / 10) =~= dec_u32(a).drop_last());
        assert(dec_u32(b / 10) =~= dec_u32(b).drop_last());
        lemma_dec_u32_injective(a / 10, b / 10);
        assert(a == a / 10 * 10 + a % 10) by (nonlinear_arith);
        assert(b == b / 10 * 10 + b % 10) by (nonlinear_arith);
    }
}

/// The schema version a store holds: the default zero when the slot was never
/// set, the decoded value when the slot holds canonical digits, and nothing
/// when the slot is corrupt.
pub open spec fn version_view(s: Store) -> Option<u32> {
    let col = s.col(DbCol::ColDbVersion);
    if !col.contains_key(VERSION_KEY) {
        Some(0)
    } else if exists|u: u32| col[VERSION_KEY] == dec_u32(u) {
        Some(choose|u: u32| col[VERSION_KEY] == dec_u32(u))
    } else {
        None
    }
}

/// Compares two byte strings.
pub fn bytes_equal(a: &Vec<u8>, b: &Vec<u8>) -> (r: bool)
    ensures
        r == (a@ == b@),
{
    if a.len() != b.len() {
        return false;
    }
    let n = a.len();
    for i in 0..n
        invariant
            n == a@.len(),
            a@.len() == b@.len(),
            forall|j: int| 0 <= j < i ==> a@[j] == b@[j],
    {
        if a[i] != b[i] {
            return false;
        }
    }
    proof {
        assert(a@ =~= b@);
    }
    true
}

/// Reads the persisted schema version; a never-set slot reads as zero, and a
/// corrupt slot is reported, never defaulted.
pub fn get_store_version(store: &Store) -> (r: Result<u32, StoreError>)
    requires
        store.wf(),
    ensures
        match r {
            Ok(v) => version_view(*store) == Some(v),
            Err(e) => e == StoreError::Decode && version_view(*store) is None,
        },
{
    match store.get(DbCol::ColDbVersion, VERSION_KEY) {
        None => Ok(0),
        Some(bytes) => {
            match json_u32_from_slice(bytes.as_slice()) {
                None => {
                    proof {
                        assert(!(exists|u: u32|
                            store.col(DbCol::ColDbVersion)[VERSION_KEY] == dec_u32(u)));
                    }
                    Err(StoreError::Decode)
                },
                Some(v) => {
                    let canon = json_u32_to_vec(v);
                    if bytes_equal(&bytes, &canon) {
                        proof {
                            let col = store.col(DbCol::ColDbVersion);
                            assert(col[VERSION_KEY] == dec_u32(v));
                            let u = choose|u: u32| col[VERSION_KEY] == dec_u32(u);
                            lemma_dec_u32_injective(u, v);
                        }
                        Ok(v)
                    } else {
                        proof {
                            let col = store.col(DbCol::ColDbVersion);
                            if exists|u: u32| col[VERSION_KEY] == dec_u32(u) {
                                let u = choose|u: u32| col[VERSION_KEY] == dec_u32(u);
                                assert(false);
                            }
                        }
                        Err(StoreError::Decode)
                    }
                },
            }
        },
    }
}

/// Writes the schema version under the reserved key and commits at once.
pub fn set_store_version(store: &mut Store, db_version: u32) -> (r: Result<(), StoreError>)
    requires
        old(store).wf(),
    ensures
        final(store).wf(),
        match r {
            Ok(()) => !old(store).fail_next_commit && !final(store).fail_next_commit
                && version_view(*final(store)) == Some(db_version)
                && final(store).col(DbCol::ColDbVersion) == old(store).col(
                DbCol::ColDbVersion,
            ).insert(VERSION_KEY, dec_u32(db_version)) && (forall|c: DbCol|
                c != DbCol::ColDbVersion ==> #[trigger] final(store).col_assoc(c)
                    == old(store).col_assoc(c)),
            Err(e) => e == StoreError::Commit && old(store).fail_next_commit
                && !final(store).fail_next_commit && final(store).same_data(*old(store)),
        },
{
    let mut update = store.store_update();
    let bytes = json_u32_to_vec(db_version);
    update.set(DbCol::ColDbVersion, VERSION_KEY, bytes);
    let ghost ws = update@;
    let res = store.commit(update);
    match res {
        Ok(()) => {
            proof {
                let m = old(store).col(DbCol::ColDbVersion);
                assert(ws.len() == 1);
                assert(ws.last() == (DbCol::ColDbVersion, VERSION_KEY, dec_u32(db_version)));
                assert(batch_applied(m, ws.drop_last(), DbCol::ColDbVersion) == m);
                assert(batch_applied(m, ws, DbCol::ColDbVersion) == m.insert(
                    VERSION_KEY,
                    dec_u32(db_version),
                ));
                assert forall|c: DbCol| c != DbCol::ColDbVersion implies #[trigger] store.col_assoc(
                    c,
                ) == old(store).col_assoc(c) by {
                    assert(!batch_names_col(ws, c)) by {
                        if batch_names_col(ws, c) {
                            let i = choose|i: int| 0 <= i < ws.len() && (#[trigger] ws[i]).0 == c;
                            assert(ws[0].0 == DbCol::ColDbVersion);
                        }
                    }
                }
                let col = store.col(DbCol::ColDbVersion);
                assert(col.contains_key(VERSION_KEY) && col[VERSION_KEY] == dec_u32(db_version));
                let u = choose|u: u32| col[VERSION_KEY] == dec_u32(u);
                lemma_dec_u32_injective(u, db_version);
            }
            Ok(())
        },
        Err(e) => Err(e),
    }
}

/// The raw values of a column's entries, in iteration order.
pub open spec fn entry_values(es: Seq<(u64, Seq<u8>)>) -> Seq<Seq<u8>> {
    es.map_values(|p: (u64, Seq<u8>)| p.1)
}

/// Every raw value decodes as an outcome record.
pub open spec fn outcomes_decodable(vals: Seq<Seq<u8>>) -> bool {
    forall|i: int| 0 <= i < vals.len() ==> decode_outcome_spec(#[trigger] vals[i]) is Some
}

/// The outcome records a column holds, as (id, block hash) pairs.
pub open spec fn decoded_outcomes(vals: Seq<Seq<u8>>) -> Seq<(u64, u64)> {
    Seq::new(vals.len(), |i: int| decode_outcome_spec(vals[i])->Some_0)
}

/// The ids of the records that belong to one block.
pub open spec fn ids_for_block(recs: Seq<(u64, u64)>, b: u64) -> Set<u64> {
    Set::new(|id: u64| exists|i: int| 0 <= i < recs.len() && #[trigger] recs[i] == (id, b))
}

/// The block hashes that occur among the records.
pub open spec fn blocks_of(recs: Seq<(u64, u64)>) -> Set<u64> {
    Set::new(|b: u64| exists|i: int| 0 <= i < recs.len() && (#[trigger] recs[i]).1 == b)
}

/// The set persisted under a key of the outcomes-by-block column; an absent
/// key yields the identity element, the empty set.
pub open spec fn stored_hash_set(col: Map<u64, Seq<u8>>, b: u64) -> Set<u64> {
    if col.contains_key(b) {
        decode_hash_seq_spec(col[b])->Some_0.to_set()
    } else {
        Set::empty()
    }
}

/// Every pre-existing aggregate that the step would load decodes.
pub open spec fn priors_decodable(col: Map<u64, Seq<u8>>, blocks: Set<u64>) -> bool {
    forall|b: u64|
        #[trigger] blocks.contains(b) && col.contains_key(b) ==> decode_hash_seq_spec(col[b]) is Some
}

/// Everything the outcomes step must read decodes.
pub open spec fn outcome_sources_ok(pre: Store) -> bool {
    let vals = entry_values(pre.col_entries(DbCol::ColTransactionResult));
    outcomes_decodable(vals) && priors_decodable(
        pre.col(DbCol::ColOutcomesByBlockHash),
        blocks_of(decoded_outcomes(vals)),
    )
}

/// The set an occurring block holds after the merge: its persisted set united
/// with the ids of its records.
pub open spec fn merged_set(pre: Store, b: u64) -> Set<u64> {
    let recs = decoded_outcomes(entry_values(pre.col_entries(DbCol::ColTransactionResult)));
    stored_hash_set(pre.col(DbCol::ColOutcomesByBlockHash), b).union(ids_for_block(recs, b))
}

/// Machine limit: every merged set must fit the encoding's 32-bit count.
/// Rebuilding writes each occurring block's merged set, and merging again
/// adds nothing new, so a rebuild preserves this bound.
pub open spec fn outcome_sizes_ok(pre: Store) -> bool {
    let recs = decoded_outcomes(entry_values(pre.col_entries(DbCol::ColTransactionResult)));
    let dest0 = pre.col(DbCol::ColOutcomesByBlockHash);
    forall|b: u64|
        #[trigger] blocks_of(recs).contains(b) && (dest0.contains_key(b)
            ==> decode_hash_seq_spec(dest0[b]) is Some) ==> merged_set(pre, b).len() <= u32::MAX
}

/// What one staged write of the outcomes step looks like.
pub open spec fn outcome_writes(pre: Store, ws: Seq<(DbCol, u64, Seq<u8>)>) -> bool {
    let recs = decoded_outcomes(entry_values(pre.col_entries(DbCol::ColTransactionResult)));
    let dest0 = pre.col(DbCol::ColOutcomesByBlockHash);
    &&& writes_col_only(ws, DbCol::ColOutcomesByBlockHash)
    &&& write_keys_distinct(ws)
    &&& (forall|i: int|
        0 <= i < ws.len() ==> blocks_of(recs).contains((#[trigger] ws[i]).1)
            && decode_hash_seq_spec(ws[i].2) is Some && decode_hash_seq_spec(
            ws[i].2,
        )->Some_0.to_set() == stored_hash_set(dest0, ws[i].1).union(ids_for_block(recs, ws[i].1)))
    &&& (forall|b: u64| #[trigger] blocks_of(recs).contains(b) ==> batch_has_key(ws, b))
}

/// The destination column after a successful outcomes rebuild: every block
/// that occurs holds the union of its prior set and its new ids; every other
/// key is exactly as it was.
pub open spec fn outcomes_rebuilt(pre: Store, dest1: Map<u64, Seq<u8>>) -> bool {
    let vals = entry_values(pre.col_entries(DbCol::ColTransactionResult));
    let recs = decoded_outcomes(vals);
    let dest0 = pre.col(DbCol::ColOutcomesByBlockHash);
    &&& (forall|b: u64|
        #[trigger] blocks_of(recs).contains(b) ==> dest1.contains_key(b) && decode_hash_seq_spec(
            dest1[b],
        ) is Some && decode_hash_seq_spec(dest1[b])->Some_0.to_set() == stored_hash_set(
            dest0,
            b,
        ).union(ids_for_block(recs, b)))
    &&& (forall|k: u64|
        !blocks_of(recs).contains(k) ==> (#[trigger] dest1.contains_key(k) == dest0.contains_key(k)
            && (dest0.contains_key(k) ==> dest1[k] == dest0[k])))
}

/// Extending the record prefix by one record extends exactly that record's
/// block.
pub proof fn lemma_outcome_prefix_step(recs: Seq<(u64, u64)>, i: int)
    requires
        0 <= i < recs.len(),
    ensures
        blocks_of(recs.subrange(0, i + 1)) =~= blocks_of(recs.subrange(0, i)).insert(recs[i].1),
        forall|b: u64|
            b != recs[i].1 ==> #[trigger] ids_for_block(recs.subrange(0, i + 1), b)
                =~= ids_for_block(recs.subrange(0, i), b),
        ids_for_block(recs.subrange(0, i + 1), recs[i].1) =~= ids_for_block(
            recs.subrange(0, i),
            recs[i].1,
        ).insert(recs[i].0),
{
    let pre = recs.subrange(0, i);
    let post = recs.subrange(0, i + 1);
    assert forall|b: u64| blocks_of(post).contains(b) implies blocks_of(pre).insert(
        recs[i].1,
    ).contains(b) by {
        let j = choose|j: int| 0 <= j < post.len() && (#[trigger] post[j]).1 == b;
        if j < i {
            assert(pre[j].1 == b);
        }
    }
    assert forall|b: u64| blocks_of(pre).insert(recs[i].1).contains(b) implies blocks_of(
        post,
    ).contains(b) by {
        if blocks_of(pre).contains(b) {
            let j = choose|j: int| 0 <= j < pre.len() && (#[trigger] pre[j]).1 == b;
            assert(post[j].1 == b);
        } else {
            assert(post[i].1 == b);
        }
    }
    assert forall|b: u64| b != recs[i].1 implies #[trigger] ids_for_block(post, b)
        =~= ids_for_block(pre, b) by {
        assert forall|id: u64| ids_for_block(post, b).contains(id) implies ids_for_block(
            pre,
            b,
        ).contains(id) by {
            let j = choose|j: int| 0 <= j < post.len() && #[trigger] post[j] == (id, b);
            assert(j != i);
            assert(pre[j] == (id, b));
        }
        assert forall|id: u64| ids_for_block(pre, b).contains(id) implies ids_for_block(
            post,
            b,
        ).contains(id) by {
            let j = choose|j: int| 0 <= j < pre.len() && #[trigger] pre[j] == (id, b);
            assert(post[j] == (id, b));
        }
    }
    let bi = recs[i].1;
    assert forall|id: u64| ids_for_block(post, bi).contains(id) implies ids_for_block(
        pre,
        bi,
    ).insert(recs[i].0).contains(id) by {
        let j = choose|j: int| 0 <= j < post.len() && #[trigger] post[j] == (id, bi);
        if j < i {
            assert(pre[j] == (id, bi));
        } else {
            assert(post[i] == recs[i]);
        }
    }
    assert forall|id: u64| ids_for_block(pre, bi).insert(recs[i].0).contains(id)
        implies ids_for_block(post, bi).contains(id) by {
        if ids_for_block(pre, bi).contains(id) {
            let j = choose|j: int| 0 <= j < pre.len() && #[trigger] pre[j] == (id, bi);
            assert(post[j] == (id, bi));
        } else {
            assert(post[i] == (id, bi));
        }
    }
}

/// Builds the set-valued aggregate out of a decoded prior list, collapsing
/// duplicates.
fn hash_list_from_vec(list: &Vec<u64>) -> (r: HashList)
    ensures
        r@ == list@.to_set(),
        r.elems@.no_duplicates(),
{
    let mut r = HashList::new();
    let n = list.len();
    for i in 0..n
        invariant
            n == list@.len(),
            r@ =~= list@.subrange(0, i as int).to_set(),
            r.elems@.no_duplicates(),
    {
        let ghost before = r@;
        r.insert(list[i]);
        proof {
            assert forall|x: u64| list@.subrange(0, i as int + 1).to_set().contains(x) implies r@.contains(
                x,
            ) by {
                let j = choose|j: int|
                    0 <= j < i + 1 && #[trigger] list@.subrange(0, i as int + 1)[j] == x;
                if j < i {
                    assert(list@.subrange(0, i as int)[j] == x);
                }
            }
            assert forall|x: u64| r@.contains(x) implies list@.subrange(
                0,
                i as int + 1,
            ).to_set().contains(x) by {
                if before.contains(x) {
                    let j = choose|j: int| 0 <= j < i && list@.subrange(0, i as int)[j] == x;
                    assert(list@.subrange(0, i as int + 1)[j] == x);
                } else {
                    assert(list@.subrange(0, i as int + 1)[i as int] == x);
                }
            }
            assert(r@ =~= list@.subrange(0, i as int + 1).to_set());
        }
    }
    proof {
        assert(list@.subrange(0, n as int) =~= list@);
    }
    r
}

/// Copies the aggregate found in the fold map so it can be merged and
/// written back.
fn clone_hash_list(h: &HashList) -> (r: HashList)
    ensures
        r.elems@ == h.elems@,
        r@ == h@,
{
    let mut elems: Vec<u64> = Vec::new();
    let n = h.elems.len();
    for i in 0..n
        invariant
            n == h.elems@.len(),
            elems@ =~= h.elems@.subrange(0, i as int),
    {
        elems.push(h.elems[i]);
        proof {
            assert(elems@ =~= h.elems@.subrange(0, i as int + 1));
        }
    }
    proof {
        assert(elems@ =~= h.elems@);
    }
    HashList { elems }
}

/// Loads the outcome set persisted under one block hash; an absent key
/// yields the aggregate's identity element, the empty set, and corrupt bytes
/// are reported rather than skipped.
fn get_outcomes_by_block_hash(store: &Store, block_hash: u64) -> (r: Result<HashList, StoreError>)
    requires
        store.wf(),
    ensures
        ({
            let col = store.col(DbCol::ColOutcomesByBlockHash);
            match r {
                Ok(hl) => (col.contains_key(block_hash) ==> decode_hash_seq_spec(
                    col[block_hash],
                ) is Some) && hl@ == stored_hash_set(col, block_hash)
                    && hl.elems@.no_duplicates(),
                Err(e) => e == StoreError::Decode && col.contains_key(block_hash)
                    && decode_hash_seq_spec(col[block_hash]) is None,
            }
        }),
{
    match store.get(DbCol::ColOutcomesByBlockHash, block_hash) {
        Some(bytes) => match decode_hash_seq(bytes.as_slice()) {
            Ok(list) => {
                let hl = hash_list_from_vec(&list);
                proof {
                    assert(decode_hash_seq_spec(
                        store.col(DbCol::ColOutcomesByBlockHash)[block_hash],
                    ) == Some(list@));
                }
                Ok(hl)
            },
            Err(e) => Err(e),
        },
        None => {
            let hl = HashList::new();
            proof {
                assert(hl@ =~= stored_hash_set(
                    store.col(DbCol::ColOutcomesByBlockHash),
                    block_hash,
                ));
            }
            Ok(hl)
        },
    }
}

/// Reads every outcome record, folds the block-to-outcome-ids mapping in
/// memory (loading a key's prior persisted set the first time the key is
/// seen), and stages one write per touched block.
fn stage_outcomes_by_hash(store: &Store, update: &mut StoreUpdate) -> (r: Result<(), StoreError>)
    requires
        store.wf(),
        outcome_sizes_ok(*store),
        old(update)@.len() == 0,
    ensures
        match r {
            Ok(()) => outcome_sources_ok(*store) && outcome_writes(*store, final(update)@),
            Err(e) => e == StoreError::Decode && !outcome_sources_ok(*store),
        },
{
    let ghost vals = entry_values(store.col_entries(DbCol::ColTransactionResult));
    let ghost grecs = decoded_outcomes(vals);
    let ghost dest0 = store.col(DbCol::ColOutcomesByBlockHash);
    let src = &store.col_transaction_result;
    proof {
        assert(store.col_assoc(DbCol::ColTransactionResult) == store.col_transaction_result);
        assert forall|j: int| 0 <= j < vals.len() implies #[trigger] vals[j]
            == src.entries@[j].1@ by {
            assert(store.col_entries(DbCol::ColTransactionResult)[j] == (
                src.entries@[j].0,
                src.entries@[j].1@,
            ));
        }
    }
    let n = src.entries.len();
    let mut recs: Vec<ExecutionOutcomeWithIdAndProof> = Vec::new();
    for i in 0..n
        invariant
            n == src.entries@.len(),
            vals.len() == n,
            src == &store.col_transaction_result,
            forall|j: int| 0 <= j < n ==> #[trigger] vals[j] == src.entries@[j].1@,
            vals == entry_values(store.col_entries(DbCol::ColTransactionResult)),
            grecs == decoded_outcomes(vals),
            recs@.len() == i,
            forall|j: int| 0 <= j < i ==> decode_outcome_spec(#[trigger] vals[j]) is Some,
            forall|j: int|
                0 <= j < i ==> ((#[trigger] recs@[j]).id, recs@[j].block_hash) == grecs[j],
    {
        match decode_outcome(src.entries[i].1.as_slice()) {
            Ok(o) => {
                recs.push(o);
            },
            Err(e) => {
                proof {
                    assert(decode_outcome_spec(vals[i as int]) is None);
                }
                return Err(e);
            },
        }
    }
    proof {
        assert(outcomes_decodable(vals));
    }
    let mut agg: AssocMap<HashList> = AssocMap::new();
    let m = recs.len();
    proof {
        assert(grecs.subrange(0, 0) =~= Seq::<(u64, u64)>::empty());
        assert forall|b: u64| !blocks_of(grecs.subrange(0, 0)).contains(b) by {}
    }
    for i in 0..m
        invariant
            store.wf(),
            outcome_sizes_ok(*store),
            m == recs@.len(),
            grecs.len() == m,
            vals.len() == m,
            vals == entry_values(store.col_entries(DbCol::ColTransactionResult)),
            grecs == decoded_outcomes(vals),
            dest0 == store.col(DbCol::ColOutcomesByBlockHash),
            forall|j: int|
                0 <= j < m ==> ((#[trigger] recs@[j]).id, recs@[j].block_hash) == grecs[j],
            agg.wf(),
            forall|b: u64|
                #[trigger] agg@.contains_key(b) == blocks_of(grecs.subrange(0, i as int)).contains(
                    b,
                ),
            forall|b: u64|
                agg@.contains_key(b) ==> #[trigger] agg@[b] == stored_hash_set(dest0, b).union(
                    ids_for_block(grecs.subrange(0, i as int), b),
                ),
            priors_decodable(dest0, blocks_of(grecs.subrange(0, i as int))),
            forall|j: int|
                0 <= j < agg.entries@.len() ==> (
                #[trigger] agg.entries@[j]).1.elems@.no_duplicates(),
    {
        let ghost prefix = grecs.subrange(0, i as int);
        let b = recs[i].block_hash;
        let id = recs[i].id;
        proof {
            assert(grecs[i as int] == (id, b));
        }
        let mut hl: HashList;
        match agg.index_of(b) {
            Some(j) => {
                hl = clone_hash_list(&agg.entries[j].1);
                proof {
                    assert(hl@ == stored_hash_set(dest0, b).union(ids_for_block(prefix, b)));
                    assert(hl.elems@.no_duplicates());
                }
            },
            None => {
                proof {
                    assert forall|x: u64| !ids_for_block(prefix, b).contains(x) by {
                        if ids_for_block(prefix, b).contains(x) {
                            let j = choose|j: int|
                                0 <= j < prefix.len() && #[trigger] prefix[j] == (x, b);
                            assert(blocks_of(prefix).contains(b));
                        }
                    }
                }
                match get_outcomes_by_block_hash(store, b) {
                    Ok(loaded) => {
                        hl = loaded;
                        proof {
                            assert(hl@ =~= stored_hash_set(dest0, b).union(
                                ids_for_block(prefix, b),
                            ));
                        }
                    },
                    Err(e) => {
                        proof {
                            assert(blocks_of(grecs).contains(b)) by {
                                assert(grecs[i as int].1 == b);
                            }
                        }
                        return Err(e);
                    },
                }
            },
        }
        let ghost hl_pre = hl@;
        proof {
            assert(hl_pre == stored_hash_set(dest0, b).union(ids_for_block(prefix, b)));
            assert(hl.elems@.no_duplicates());
        }
        hl.insert(id);
        let ghost agg_pre = agg;
        agg.insert(b, hl);
        proof {
            lemma_outcome_prefix_step(grecs, i as int);
            let post = grecs.subrange(0, i as int + 1);
            assert(hl@ =~= stored_hash_set(dest0, b).union(ids_for_block(post, b)));
            assert forall|x: u64|
                #[trigger] agg@.contains_key(x) == blocks_of(post).contains(x) by {
                if x != b {
                    assert(agg@.contains_key(x) == agg_pre@.contains_key(x));
                    assert(blocks_of(post).contains(x) == blocks_of(prefix).contains(x));
                }
            }
            assert forall|x: u64| agg@.contains_key(x) implies #[trigger] agg@[x]
                == stored_hash_set(dest0, x).union(ids_for_block(post, x)) by {
                if x != b {
                    assert(agg@[x] == agg_pre@[x]);
                    assert(ids_for_block(post, x) =~= ids_for_block(prefix, x));
                }
            }
            assert(priors_decodable(dest0, blocks_of(post))) by {
                assert forall|b2: u64|
                    #[trigger] blocks_of(post).contains(b2) && dest0.contains_key(b2)
                        implies decode_hash_seq_spec(dest0[b2]) is Some by {
                    if b2 != b {
                        assert(blocks_of(prefix).contains(b2));
                    }
                }
            }
            assert forall|j: int|
                0 <= j < agg.entries@.len() implies (
            #[trigger] agg.entries@[j]).1.elems@.no_duplicates() by {
                if agg.entries@[j] != (b, hl) {
                    let j0 = choose|j0: int|
                        0 <= j0 < agg_pre.entries@.len() && agg.entries@[j] == agg_pre.entries@[j0];
                    assert(agg_pre.entries@[j0].1.elems@.no_duplicates());
                }
            }
        }
    }
    proof {
        assert(grecs.subrange(0, m as int) =~= grecs);
    }
    let k_total = agg.entries.len();
    for j in 0..k_total
        invariant
            store.wf(),
            outcome_sizes_ok(*store),
            vals.len() == m,
            vals == entry_values(store.col_entries(DbCol::ColTransactionResult)),
            grecs == decoded_outcomes(vals),
            dest0 == store.col(DbCol::ColOutcomesByBlockHash),
            k_total == agg.entries@.len(),
            agg.wf(),
            forall|b: u64| #[trigger] agg@.contains_key(b) == blocks_of(grecs).contains(b),
            forall|b: u64|
                agg@.contains_key(b) ==> #[trigger] agg@[b] == stored_hash_set(dest0, b).union(
                    ids_for_block(grecs, b),
                ),
            forall|jj: int|
                0 <= jj < agg.entries@.len() ==> (
                #[trigger] agg.entries@[jj]).1.elems@.no_duplicates(),
            priors_decodable(dest0, blocks_of(grecs)),
            update@.len() == j,
            forall|t: int|
                0 <= t < j ==> (#[trigger] update@[t]).0 == DbCol::ColOutcomesByBlockHash
                    && update@[t].1 == agg.entries@[t].0 && decode_hash_seq_spec(
                    update@[t].2,
                ) is Some && decode_hash_seq_spec(update@[t].2)->Some_0.to_set()
                    == agg.entries@[t].1@,
    {
        let key = agg.entries[j].0;
        proof {
            lemma_map_of_index(agg.entries@, j as int);
            assert(agg@.contains_key(key));
            assert(blocks_of(grecs).contains(key));
            assert(dest0.contains_key(key) ==> decode_hash_seq_spec(dest0[key]) is Some);
            assert(merged_set(*store, key).len() <= u32::MAX);
            assert(agg.entries@[j as int].1.elems@.no_duplicates());
            agg.entries@[j as int].1.elems@.unique_seq_to_set();
            assert(agg.entries@[j as int].1.elems@.to_set() == agg@[key]);
            assert(agg@[key] == merged_set(*store, key));
            assert(agg.entries@[j as int].1.elems@.len() <= u32::MAX);
        }
        let ghost u_pre = update@;
        let bytes = match encode_hash_seq(&agg.entries[j].1.elems) {
            Ok(v) => v,
            Err(_) => {
                proof {
                    assert(false);
                }
                return Err(StoreError::Encode);
            },
        };
        update.set(DbCol::ColOutcomesByBlockHash, key, bytes);
        proof {
            assert(agg.entries@[j as int].1.elems@.to_set() == agg.entries@[j as int].1@);
            assert forall|t: int|
                0 <= t < j + 1 implies (#[trigger] update@[t]).0 == DbCol::ColOutcomesByBlockHash
                    && update@[t].1 == agg.entries@[t].0 && decode_hash_seq_spec(
                    update@[t].2,
                ) is Some && decode_hash_seq_spec(update@[t].2)->Some_0.to_set()
                    == agg.entries@[t].1@ by {
                if t < j {
                    assert(update@[t] == u_pre[t]);
                }
            }
        }
    }
    proof {
        let ws = update@;
        assert(writes_col_only(ws, DbCol::ColOutcomesByBlockHash));
        assert forall|t1: int, t2: int|
            0 <= t1 < t2 < ws.len() implies (#[trigger] ws[t1]).1 != (#[trigger] ws[t2]).1 by {
            assert(agg.entries@[t1].0 == ws[t1].1);
            assert(agg.entries@[t2].0 == ws[t2].1);
        }
        assert forall|t: int|
            0 <= t < ws.len() implies blocks_of(grecs).contains((#[trigger] ws[t]).1)
                && decode_hash_seq_spec(ws[t].2) is Some && decode_hash_seq_spec(
                ws[t].2,
            )->Some_0.to_set() == stored_hash_set(dest0, ws[t].1).union(
                ids_for_block(grecs, ws[t].1),
            ) by {
            assert(ws[t].1 == agg.entries@[t].0);
            assert(decode_hash_seq_spec(ws[t].2)->Some_0.to_set() == agg.entries@[t].1@);
            lemma_map_of_index(agg.entries@, t);
            assert(agg@.contains_key(agg.entries@[t].0));
            assert(agg@[agg.entries@[t].0] == agg.entries@[t].1@);
        }
        assert forall|b: u64| #[trigger] blocks_of(grecs).contains(b) implies batch_has_key(
            ws,
            b,
        ) by {
            lemma_map_of_dom(agg.entries@);
            assert(agg@.contains_key(b));
            let t = choose|t: int|
                0 <= t < agg.entries@.len() && (#[trigger] agg.entries@[t]).0 == b;
            assert(ws[t].1 == b);
        }
    }
    Ok(())
}

/// Rebuilds the outcomes-by-block index from every stored outcome record and
/// commits it as one atomic batch.
#[verifier::rlimit(60)]
pub fn fill_col_outcomes_by_hash(store: &mut Store) -> (r: Result<(), StoreError>)
    requires
        old(store).wf(),
        outcome_sizes_ok(*old(store)),
    ensures
        final(store).wf(),
        match r {
            Ok(()) => outcome_sources_ok(*old(store)) && !old(store).fail_next_commit
                && !final(store).fail_next_commit && outcomes_rebuilt(
                *old(store),
                final(store).col(DbCol::ColOutcomesByBlockHash),
            ) && (forall|c: DbCol|
                c != DbCol::ColOutcomesByBlockHash ==> #[trigger] final(store).col_assoc(c)
                    == old(store).col_assoc(c)),
            Err(e) => (e == StoreError::Decode || e == StoreError::Commit) && (e
                == StoreError::Decode ==> *final(store) == *old(store) && !outcome_sources_ok(
                *old(store),
            )) && (e == StoreError::Commit ==> outcome_sources_ok(*old(store))
                && old(store).fail_next_commit && !final(store).fail_next_commit
                && final(store).same_data(*old(store))),
        },
{
    let mut update = store.store_update();
    match stage_outcomes_by_hash(store, &mut update) {
        Ok(()) => {},
        Err(e) => {
            return Err(e);
        },
    }
    let ghost ws = update@;
    match store.commit(update) {
        Ok(()) => {
            proof {
                let pre = *old(store);
                let dest0 = pre.col(DbCol::ColOutcomesByBlockHash);
                let dest1 = store.col(DbCol::ColOutcomesByBlockHash);
                let recs = decoded_outcomes(
                    entry_values(pre.col_entries(DbCol::ColTransactionResult)),
                );
                lemma_batch_applied_all(dest0, ws, DbCol::ColOutcomesByBlockHash);
                assert(dest1 == batch_applied(dest0, ws, DbCol::ColOutcomesByBlockHash));
                assert forall|b: u64| #[trigger] blocks_of(recs).contains(b)
                    implies dest1.contains_key(b) && decode_hash_seq_spec(dest1[b]) is Some
                    && decode_hash_seq_spec(dest1[b])->Some_0.to_set() == stored_hash_set(
                    dest0,
                    b,
                ).union(ids_for_block(recs, b)) by {
                    assert(batch_has_key(ws, b));
                    let t = choose|t: int| 0 <= t < ws.len() && (#[trigger] ws[t]).1 == b;
                    assert(dest1.contains_key(ws[t].1) && dest1[ws[t].1] == ws[t].2);
                }
                assert forall|k: u64| !blocks_of(recs).contains(k) implies (
                #[trigger] dest1.contains_key(k) == dest0.contains_key(k) && (dest0.contains_key(k)
                    ==> dest1[k] == dest0[k])) by {
                    assert(!batch_has_key(ws, k)) by {
                        if batch_has_key(ws, k) {
                            let t = choose|t: int|
                                0 <= t < ws.len() && (#[trigger] ws[t]).1 == k;
                            assert(blocks_of(recs).contains(ws[t].1));
                        }
                    }
                    assert(key_preserved(dest0, ws, DbCol::ColOutcomesByBlockHash, k));
                }
                assert forall|c: DbCol| c != DbCol::ColOutcomesByBlockHash
                    implies #[trigger] store.col_assoc(c) == old(store).col_assoc(c) by {
                    assert(!batch_names_col(ws, c)) by {
                        if batch_names_col(ws, c) {
                            let t = choose|t: int|
                                0 <= t < ws.len() && (#[trigger] ws[t]).0 == c;
                            assert(ws[t].0 == DbCol::ColOutcomesByBlockHash);
                        }
                    }
                }
                assert(outcome_sources_ok(pre));
                assert(outcomes_rebuilt(pre, dest1));
                assert(!old(store).fail_next_commit && !store.fail_next_commit);
            }
            Ok(())
        },
        Err(e) => Err(e),
    }
}

/// Every raw value decodes as a chunk record.
pub open spec fn chunks_decodable(vals: Seq<Seq<u8>>) -> bool {
    forall|i: int| 0 <= i < vals.len() ==> decode_hash_seq_spec(#[trigger] vals[i]) is Some
}

/// The chunk records a column holds, each a sequence of transaction hashes.
pub open spec fn decoded_chunks(vals: Seq<Seq<u8>>) -> Seq<Seq<u64>> {
    Seq::new(vals.len(), |i: int| decode_hash_seq_spec(vals[i])->Some_0)
}

/// How often one transaction hash occurs in one chunk.
pub open spec fn count_occ(txs: Seq<u64>, t: u64) -> nat
    decreases txs.len(),
{
    if txs.len() == 0 {
        0
    } else {
        count_occ(txs.drop_last(), t) + if txs.last() == t {
            1nat
        } else {
            0nat
        }
    }
}

/// How often one transaction hash occurs across all chunks.
pub open spec fn total_count(chunks: Seq<Seq<u64>>, t: u64) -> nat
    decreases chunks.len(),
{
    if chunks.len() == 0 {
        0
    } else {
        total_count(chunks.drop_last(), t) + count_occ(chunks.last(), t)
    }
}

/// How many transaction occurrences all chunks carry together.
pub open spec fn total_len(chunks: Seq<Seq<u64>>) -> nat
    decreases chunks.len(),
{
    if chunks.len() == 0 {
        0
    } else {
        total_len(chunks.drop_last()) + chunks.last().len()
    }
}

/// The transaction hashes that occur at all.
pub open spec fn txs_of(chunks: Seq<Seq<u64>>) -> Set<u64> {
    Set::new(|t: u64| total_count(chunks, t) > 0)
}

/// Machine limit: the counter width must not overflow; the counts are
/// bounded by the total number of transaction occurrences.
pub open spec fn refcount_sizes_ok(pre: Store) -> bool {
    let vals = entry_values(pre.col_entries(DbCol::ColChunks));
    chunks_decodable(vals) ==> total_len(decoded_chunks(vals)) <= u64::MAX
}

/// What the staged writes of the refcount step look like: one write per
/// occurring transaction, holding its freshly recomputed total.
pub open spec fn refcount_writes(pre: Store, ws: Seq<(DbCol, u64, Seq<u8>)>) -> bool {
    let chs = decoded_chunks(entry_values(pre.col_entries(DbCol::ColChunks)));
    &&& writes_col_only(ws, DbCol::ColTransactionRefCount)
    &&& write_keys_distinct(ws)
    &&& (forall|i: int|
        0 <= i < ws.len() ==> txs_of(chs).contains((#[trigger] ws[i]).1) && ws[i].2 == u64_le(
            total_count(chs, ws[i].1) as u64,
        ))
    &&& (forall|t: u64| #[trigger] txs_of(chs).contains(t) ==> batch_has_key(ws, t))
}

/// The destination column after a successful refcount rebuild: every
/// occurring transaction maps to its total, every other key is untouched.
pub open spec fn refcounts_rebuilt(pre: Store, dest1: Map<u64, Seq<u8>>) -> bool {
    let chs = decoded_chunks(entry_values(pre.col_entries(DbCol::ColChunks)));
    let dest0 = pre.col(DbCol::ColTransactionRefCount);
    &&& (forall|t: u64|
        #[trigger] txs_of(chs).contains(t) ==> dest1.contains_key(t) && dest1[t] == u64_le(
            total_count(chs, t) as u64,
        ))
    &&& (forall|k: u64|
        !txs_of(chs).contains(k) ==> (#[trigger] dest1.contains_key(k) == dest0.contains_key(k) && (
        dest0.contains_key(k) ==> dest1[k] == dest0[k])))
}

pub proof fn lemma_count_occ_le(txs: Seq<u64>, t: u64)
    ensures
        count_occ(txs, t) <= txs.len(),
    decreases txs.len(),
{
    if txs.len() > 0 {
        lemma_count_occ_le(txs.drop_last(), t);
    }
}

pub proof fn lemma_total_count_le(chunks: Seq<Seq<u64>>, t: u64)
    ensures
        total_count(chunks, t) <= total_len(chunks),
    decreases chunks.len(),
{
    if chunks.len() > 0 {
        lemma_total_count_le(chunks.drop_last(), t);
        lemma_count_occ_le(chunks.last(), t);
    }
}

pub proof fn lemma_total_len_prefix_step(chunks: Seq<Seq<u64>>, i: int)
    requires
        0 <= i < chunks.len(),
    ensures
        total_len(chunks.subrange(0, i + 1)) == total_len(chunks.subrange(0, i)) + chunks[i].len(),
{
    assert(chunks.subrange(0, i + 1).drop_last() =~= chunks.subrange(0, i));
    assert(chunks.subrange(0, i + 1).last() == chunks[i]);
}

pub proof fn lemma_total_len_prefix_le(chunks: Seq<Seq<u64>>, i: int)
    requires
        0 <= i <= chunks.len(),
    ensures
        total_len(chunks.subrange(0, i)) <= total_len(chunks),
    decreases chunks.len() - i,
{
    if i == chunks.len() {
        assert(chunks.subrange(0, i) =~= chunks);
    } else {
        lemma_total_len_prefix_step(chunks, i);
        lemma_total_len_prefix_le(chunks, i + 1);
    }
}

pub proof fn lemma_total_count_prefix_step(chunks: Seq<Seq<u64>>, i: int, t: u64)
    requires
        0 <= i < chunks.len(),
    ensures
        total_count(chunks.subrange(0, i + 1), t) == total_count(chunks.subrange(0, i), t)
            + count_occ(chunks[i], t),
{
    assert(chunks.subrange(0, i + 1).drop_last() =~= chunks.subrange(0, i));
    assert(chunks.subrange(0, i + 1).last() == chunks[i]);
}

pub proof fn lemma_count_occ_prefix_step(txs: Seq<u64>, j: int, t: u64)
    requires
        0 <= j < txs.len(),
    ensures
        count_occ(txs.subrange(0, j + 1), t) == count_occ(txs.subrange(0, j), t) + if txs[j] == t {
            1nat
        } else {
            0nat
        },
{
    assert(txs.subrange(0, j + 1).drop_last() =~= txs.subrange(0, j));
    assert(txs.subrange(0, j + 1).last() == txs[j]);
}

/// Reads every chunk record and recomputes every transaction's reference
/// count from scratch, deliberately ignoring any previously persisted count:
/// the counts are a derived total, not an incremental delta.
fn stage_transaction_refcount(store: &Store, update: &mut StoreUpdate) -> (r: Result<
    (),
    StoreError,
>)
    requires
        store.wf(),
        refcount_sizes_ok(*store),
        old(update)@.len() == 0,
    ensures
        match r {
            Ok(()) => chunks_decodable(entry_values(store.col_entries(DbCol::ColChunks)))
                && refcount_writes(*store, final(update)@),
            Err(e) => e == StoreError::Decode && !chunks_decodable(
                entry_values(store.col_entries(DbCol::ColChunks)),
            ),
        },
{
    let ghost vals = entry_values(store.col_entries(DbCol::ColChunks));
    let ghost chs = decoded_chunks(vals);
    let src = &store.col_chunks;
    proof {
        assert(store.col_assoc(DbCol::ColChunks) == store.col_chunks);
        assert forall|j: int| 0 <= j < vals.len() implies #[trigger] vals[j]
            == src.entries@[j].1@ by {
            assert(store.col_entries(DbCol::ColChunks)[j] == (
                src.entries@[j].0,
                src.entries@[j].1@,
            ));
        }
    }
    let n = src.entries.len();
    let mut chunks: Vec<ShardChunk> = Vec::new();
    for i in 0..n
        invariant
            n == src.entries@.len(),
            vals.len() == n,
            src == &store.col_chunks,
            forall|j: int| 0 <= j < n ==> #[trigger] vals[j] == src.entries@[j].1@,
            vals == entry_values(store.col_entries(DbCol::ColChunks)),
            chs == decoded_chunks(vals),
            chunks@.len() == i,
            forall|j: int| 0 <= j < i ==> decode_hash_seq_spec(#[trigger] vals[j]) is Some,
            forall|j: int| 0 <= j < i ==> (#[trigger] chunks@[j]).transactions@ == chs[j],
    {
        match decode_hash_seq(src.entries[i].1.as_slice()) {
            Ok(list) => {
                chunks.push(ShardChunk { transactions: list });
            },
            Err(e) => {
                proof {
                    assert(decode_hash_seq_spec(vals[i as int]) is None);
                }
                return Err(e);
            },
        }
    }
    proof {
        assert(chunks_decodable(vals));
        assert(total_len(chs) <= u64::MAX);
    }
    let mut cnt: AssocMap<u64> = AssocMap::new();
    let m = chunks.len();
    proof {
        assert(chs.subrange(0, 0) =~= Seq::<Seq<u64>>::empty());
    }
    for i in 0..m
        invariant
            store.wf(),
            m == chunks@.len(),
            chs.len() == m,
            vals.len() == m,
            vals == entry_values(store.col_entries(DbCol::ColChunks)),
            chs == decoded_chunks(vals),
            total_len(chs) <= u64::MAX,
            forall|j: int| 0 <= j < m ==> (#[trigger] chunks@[j]).transactions@ == chs[j],
            cnt.wf(),
            forall|t: u64|
                #[trigger] cnt@.contains_key(t) == (total_count(chs.subrange(0, i as int), t) > 0),
            forall|t: u64|
                cnt@.contains_key(t) ==> #[trigger] cnt@[t] == total_count(
                    chs.subrange(0, i as int),
                    t,
                ),
    {
        let txs = &chunks[i].transactions;
        let ghost txs_seq = chs[i as int];
        let p = txs.len();
        proof {
            assert(txs@ == txs_seq);
            assert(txs_seq.subrange(0, 0) =~= Seq::<u64>::empty());
            lemma_total_len_prefix_step(chs, i as int);
            lemma_total_len_prefix_le(chs, i as int + 1);
        }
        for j in 0..p
            invariant
                store.wf(),
                m == chunks@.len(),
                chs.len() == m,
                0 <= i < m,
                p == txs@.len(),
                txs == &chunks@[i as int].transactions,
                txs@ == txs_seq,
                txs_seq == chs[i as int],
                total_len(chs) <= u64::MAX,
                total_len(chs.subrange(0, i as int)) + txs_seq.len() <= total_len(chs),
                cnt.wf(),
                forall|t: u64|
                    #[trigger] cnt@.contains_key(t) == (total_count(chs.subrange(0, i as int), t)
                        + count_occ(txs_seq.subrange(0, j as int), t) > 0),
                forall|t: u64|
                    cnt@.contains_key(t) ==> #[trigger] cnt@[t] == total_count(
                        chs.subrange(0, i as int),
                        t,
                    ) + count_occ(txs_seq.subrange(0, j as int), t),
        {
            let tx = txs[j];
            proof {
                lemma_count_occ_prefix_step(txs_seq, j as int, tx);
                lemma_count_occ_le(txs_seq.subrange(0, j as int), tx);
                lemma_total_count_le(chs.subrange(0, i as int), tx);
                lemma_total_len_prefix_le(chs, i as int);
            }
            let c: u64 = match cnt.index_of(tx) {
                Some(q) => {
                    let c0 = cnt.entries[q].1;
                    proof {
                        assert(c0 == cnt@[tx]);
                        assert(c0 < u64::MAX);
                    }
                    c0 + 1
                },
                None => 1,
            };
            cnt.insert(tx, c);
            proof {
                assert forall|t: u64|
                    #[trigger] cnt@.contains_key(t) == (total_count(chs.subrange(0, i as int), t)
                        + count_occ(txs_seq.subrange(0, j as int + 1), t) > 0) by {
                    if t != tx {
                        lemma_count_occ_prefix_step(txs_seq, j as int, t);
                    }
                }
                assert forall|t: u64| cnt@.contains_key(t) implies #[trigger] cnt@[t]
                    == total_count(chs.subrange(0, i as int), t) + count_occ(
                    txs_seq.subrange(0, j as int + 1),
                    t,
                ) by {
                    if t != tx {
                        lemma_count_occ_prefix_step(txs_seq, j as int, t);
                    }
                }
            }
        }
        proof {
            assert(txs_seq.subrange(0, p as int) =~= txs_seq);
            assert forall|t: u64|
                #[trigger] cnt@.contains_key(t) == (total_count(chs.subrange(0, i as int + 1), t)
                    > 0) by {
                lemma_total_count_prefix_step(chs, i as int, t);
            }
            assert forall|t: u64| cnt@.contains_key(t) implies #[trigger] cnt@[t] == total_count(
                chs.subrange(0, i as int + 1),
                t,
            ) by {
                lemma_total_count_prefix_step(chs, i as int, t);
            }
        }
    }
    proof {
        assert(chs.subrange(0, m as int) =~= chs);
    }
    let k_total = cnt.entries.len();
    for j in 0..k_total
        invariant
            vals == entry_values(store.col_entries(DbCol::ColChunks)),
            chs == decoded_chunks(vals),
            k_total == cnt.entries@.len(),
            cnt.wf(),
            forall|t: u64| #[trigger] cnt@.contains_key(t) == (total_count(chs, t) > 0),
            forall|t: u64| cnt@.contains_key(t) ==> #[trigger] cnt@[t] == total_count(chs, t),
            update@.len() == j,
            forall|t: int|
                0 <= t < j ==> (#[trigger] update@[t]).0 == DbCol::ColTransactionRefCount
                    && update@[t].1 == cnt.entries@[t].0 && update@[t].2 == u64_le(
                    cnt.entries@[t].1,
                ),
    {
        let key = cnt.entries[j].0;
        let bytes = borsh_u64_to_vec(cnt.entries[j].1);
        let ghost u_pre = update@;
        update.set(DbCol::ColTransactionRefCount, key, bytes);
        proof {
            assert forall|t: int|
                0 <= t < j + 1 implies (#[trigger] update@[t]).0 == DbCol::ColTransactionRefCount
                    && update@[t].1 == cnt.entries@[t].0 && update@[t].2 == u64_le(
                    cnt.entries@[t].1,
                ) by {
                if t < j {
                    assert(update@[t] == u_pre[t]);
                }
            }
        }
    }
    proof {
        let ws = update@;
        assert(writes_col_only(ws, DbCol::ColTransactionRefCount));
        assert forall|t1: int, t2: int|
            0 <= t1 < t2 < ws.len() implies (#[trigger] ws[t1]).1 != (#[trigger] ws[t2]).1 by {
            assert(cnt.entries@[t1].0 == ws[t1].1);
            assert(cnt.entries@[t2].0 == ws[t2].1);
        }
        assert forall|t: int|
            0 <= t < ws.len() implies txs_of(chs).contains((#[trigger] ws[t]).1) && ws[t].2
                == u64_le(total_count(chs, ws[t].1) as u64) by {
            assert(ws[t].1 == cnt.entries@[t].0);
            lemma_map_of_index(cnt.entries@, t);
            assert(cnt@.contains_key(cnt.entries@[t].0));
            assert(cnt@[cnt.entries@[t].0] == cnt.entries@[t].1);
        }
        assert forall|t: u64| #[trigger] txs_of(chs).contains(t) implies batch_has_key(ws, t) by {
            lemma_map_of_dom(cnt.entries@);
            assert(cnt@.contains_key(t));
            let q = choose|q: int|
                0 <= q < cnt.entries@.len() && (#[trigger] cnt.entries@[q]).0 == t;
            assert(ws[q].1 == t);
        }
    }
    Ok(())
}

/// Rebuilds the transaction-refcount column from every stored chunk and
/// commits it as one atomic batch.
pub fn fill_col_transaction_refcount(store: &mut Store) -> (r: Result<(), StoreError>)
    requires
        old(store).wf(),
        refcount_sizes_ok(*old(store)),
    ensures
        final(store).wf(),
        match r {
            Ok(()) => chunks_decodable(entry_values(old(store).col_entries(DbCol::ColChunks)))
                && !old(store).fail_next_commit && !final(store).fail_next_commit
                && refcounts_rebuilt(
                *old(store),
                final(store).col(DbCol::ColTransactionRefCount),
            ) && (forall|c: DbCol|
                c != DbCol::ColTransactionRefCount ==> #[trigger] final(store).col_assoc(c)
                    == old(store).col_assoc(c)),
            Err(e) => (e == StoreError::Decode || e == StoreError::Commit) && (e
                == StoreError::Decode ==> *final(store) == *old(store) && !chunks_decodable(
                entry_values(old(store).col_entries(DbCol::ColChunks)),
            )) && (e == StoreError::Commit ==> chunks_decodable(
                entry_values(old(store).col_entries(DbCol::ColChunks)),
            ) && old(store).fail_next_commit && !final(store).fail_next_commit
                && final(store).same_data(*old(store))),
        },
{
    let mut update = store.store_update();
    match stage_transaction_refcount(store, &mut update) {
        Ok(()) => {},
        Err(e) => {
            return Err(e);
        },
    }
    let ghost ws = update@;
    match store.commit(update) {
        Ok(()) => {
            proof {
                let pre = *old(store);
                let dest0 = pre.col(DbCol::ColTransactionRefCount);
                let dest1 = store.col(DbCol::ColTransactionRefCount);
                let chs = decoded_chunks(entry_values(pre.col_entries(DbCol::ColChunks)));
                lemma_batch_applied_all(dest0, ws, DbCol::ColTransactionRefCount);
                assert(dest1 == batch_applied(dest0, ws, DbCol::ColTransactionRefCount));
                assert forall|t: u64| #[trigger] txs_of(chs).contains(t)
                    implies dest1.contains_key(t) && dest1[t] == u64_le(
                    total_count(chs, t) as u64,
                ) by {
                    assert(batch_has_key(ws, t));
                    let q = choose|q: int| 0 <= q < ws.len() && (#[trigger] ws[q]).1 == t;
                    assert(dest1.contains_key(ws[q].1) && dest1[ws[q].1] == ws[q].2);
                }
                assert forall|k: u64| !txs_of(chs).contains(k) implies (
                #[trigger] dest1.contains_key(k) == dest0.contains_key(k) && (dest0.contains_key(k)
                    ==> dest1[k] == dest0[k])) by {
                    assert(!batch_has_key(ws, k)) by {
                        if batch_has_key(ws, k) {
                            let q = choose|q: int|
                                0 <= q < ws.len() && (#[trigger] ws[q]).1 == k;
                            assert(txs_of(chs).contains(ws[q].1));
                        }
                    }
                    assert(key_preserved(dest0, ws, DbCol::ColTransactionRefCount, k));
                }
                assert forall|c: DbCol| c != DbCol::ColTransactionRefCount
                    implies #[trigger] store.col_assoc(c) == old(store).col_assoc(c) by {
                    assert(!batch_names_col(ws, c)) by {
                        if batch_names_col(ws, c) {
                            let q = choose|q: int|
                                0 <= q < ws.len() && (#[trigger] ws[q]).0 == c;
                            assert(ws[q].0 == DbCol::ColTransactionRefCount);
                        }
                    }
                }
            }
            Ok(())
        },
        Err(e) => Err(e),
    }
}

/// The work a migration step performs.
#[derive(Clone, Copy, PartialEq, Eq, Structural, Debug)]
pub enum MigrationAction {
    FillOutcomesByHash,
    FillTransactionRefcount,
}

/// A named, idempotent unit of migration work, gated by its target version.
#[derive(Clone, Copy, PartialEq, Eq, Structural, Debug)]
pub struct MigrationStep {
    pub target_version: u32,
    pub action: MigrationAction,
}

/// The destination column a step writes.
pub open spec fn dest_col(a: MigrationAction) -> DbCol {
    match a {
        MigrationAction::FillOutcomesByHash => DbCol::ColOutcomesByBlockHash,
        MigrationAction::FillTransactionRefcount => DbCol::ColTransactionRefCount,
    }
}

/// The sources a step must decode, at the store it runs on.
pub open spec fn step_sources_ok(s: Store, a: MigrationAction) -> bool {
    match a {
        MigrationAction::FillOutcomesByHash => outcome_sources_ok(s),
        MigrationAction::FillTransactionRefcount => chunks_decodable(
            entry_values(s.col_entries(DbCol::ColChunks)),
        ),
    }
}

/// One step ran: its derived column was rebuilt, the version records its
/// target, and every other column is untouched.
pub open spec fn step_applied(pre: Store, post: Store, step: MigrationStep) -> bool {
    &&& version_view(post) == Some(step.target_version)
    &&& (forall|c: DbCol|
        c != dest_col(step.action) && c != DbCol::ColDbVersion ==> #[trigger] post.col_assoc(c)
            == pre.col_assoc(c))
    &&& match step.action {
        MigrationAction::FillOutcomesByHash => outcome_sources_ok(pre) && outcomes_rebuilt(
            pre,
            post.col(DbCol::ColOutcomesByBlockHash),
        ),
        MigrationAction::FillTransactionRefcount => chunks_decodable(
            entry_values(pre.col_entries(DbCol::ColChunks)),
        ) && refcounts_rebuilt(pre, post.col(DbCol::ColTransactionRefCount)),
    }
}

/// Applies one migration step: its writes and the version bump are staged
/// into the same atomic batch, so the version can never run ahead of or
/// behind the data.
#[verifier::rlimit(60)]
fn apply_step(store: &mut Store, step: MigrationStep) -> (r: Result<(), StoreError>)
    requires
        old(store).wf(),
        step.action == MigrationAction::FillOutcomesByHash ==> outcome_sizes_ok(*old(store)),
        step.action == MigrationAction::FillTransactionRefcount ==> refcount_sizes_ok(
            *old(store),
        ),
    ensures
        final(store).wf(),
        match r {
            Ok(()) => !old(store).fail_next_commit && !final(store).fail_next_commit
                && step_applied(*old(store), *final(store), step),
            Err(e) => (e == StoreError::Decode || e == StoreError::Commit) && (e
                == StoreError::Decode ==> *final(store) == *old(store) && !step_sources_ok(
                *old(store),
                step.action,
            )) && (e == StoreError::Commit ==> old(store).fail_next_commit
                && !final(store).fail_next_commit && final(store).same_data(*old(store))
                && step_sources_ok(*old(store), step.action)),
        },
{
    let mut update = store.store_update();
    let staged = match step.action {
        MigrationAction::FillOutcomesByHash => stage_outcomes_by_hash(store, &mut update),
        MigrationAction::FillTransactionRefcount => stage_transaction_refcount(store, &mut update),
    };
    match staged {
        Ok(()) => {},
        Err(e) => {
            return Err(e);
        },
    }
    let ghost ws_step = update@;
    let vbytes = json_u32_to_vec(step.target_version);
    update.set(DbCol::ColDbVersion, VERSION_KEY, vbytes);
    let ghost ws = update@;
    match store.commit(update) {
        Ok(()) => {
            proof {
                let pre = *old(store);
                let dest = dest_col(step.action);
                assert(ws.drop_last() =~= ws_step);
                assert(ws.last() == (
                    DbCol::ColDbVersion,
                    VERSION_KEY,
                    dec_u32(step.target_version),
                ));
                assert(writes_col_only(ws_step, dest));
                assert(batch_applied(pre.col(dest), ws, dest) == batch_applied(
                    pre.col(dest),
                    ws_step,
                    dest,
                ));
                lemma_batch_applied_other(
                    pre.col(DbCol::ColDbVersion),
                    ws_step,
                    dest,
                    DbCol::ColDbVersion,
                );
                assert(store.col(DbCol::ColDbVersion) == pre.col(DbCol::ColDbVersion).insert(
                    VERSION_KEY,
                    dec_u32(step.target_version),
                ));
                let vcol = store.col(DbCol::ColDbVersion);
                assert(vcol[VERSION_KEY] == dec_u32(step.target_version));
                let u = choose|u: u32| vcol[VERSION_KEY] == dec_u32(u);
                lemma_dec_u32_injective(u, step.target_version);
                assert(version_view(*store) == Some(step.target_version));
                assert forall|c: DbCol| c != dest && c != DbCol::ColDbVersion
                    implies #[trigger] store.col_assoc(c) == pre.col_assoc(c) by {
                    assert(!batch_names_col(ws, c)) by {
                        if batch_names_col(ws, c) {
                            let t = choose|t: int| 0 <= t < ws.len() && (#[trigger] ws[t]).0 == c;
                            if t < ws.len() - 1 {
                                assert(ws[t] == ws_step[t]);
                                assert(ws_step[t].0 == dest);
                            } else {
                                assert(ws[t].0 == DbCol::ColDbVersion);
                            }
                        }
                    }
                }
                let dest0 = pre.col(dest);
                let dest1 = store.col(dest);
                lemma_batch_applied_all(dest0, ws_step, dest);
                assert(dest1 == batch_applied(dest0, ws_step, dest));
                match step.action {
                    MigrationAction::FillOutcomesByHash => {
                        let recs = decoded_outcomes(
                            entry_values(pre.col_entries(DbCol::ColTransactionResult)),
                        );
                        assert forall|b: u64| #[trigger] blocks_of(recs).contains(b)
                            implies dest1.contains_key(b) && decode_hash_seq_spec(
                            dest1[b],
                        ) is Some && decode_hash_seq_spec(dest1[b])->Some_0.to_set()
                            == stored_hash_set(dest0, b).union(ids_for_block(recs, b)) by {
                            assert(batch_has_key(ws_step, b));
                            let t = choose|t: int|
                                0 <= t < ws_step.len() && (#[trigger] ws_step[t]).1 == b;
                            assert(dest1.contains_key(ws_step[t].1) && dest1[ws_step[t].1]
                                == ws_step[t].2);
                        }
                        assert forall|k: u64| !blocks_of(recs).contains(k) implies (
                        #[trigger] dest1.contains_key(k) == dest0.contains_key(k) && (
                        dest0.contains_key(k) ==> dest1[k] == dest0[k])) by {
                            assert(!batch_has_key(ws_step, k)) by {
                                if batch_has_key(ws_step, k) {
                                    let t = choose|t: int|
                                        0 <= t < ws_step.len() && (#[trigger] ws_step[t]).1 == k;
                                    assert(blocks_of(recs).contains(ws_step[t].1));
                                }
                            }
                            assert(key_preserved(dest0, ws_step, dest, k));
                        }
                        assert(outcomes_rebuilt(pre, dest1));
                    },
                    MigrationAction::FillTransactionRefcount => {
                        let chs = decoded_chunks(entry_values(pre.col_entries(DbCol::ColChunks)));
                        assert forall|t: u64| #[trigger] txs_of(chs).contains(t)
                            implies dest1.contains_key(t) && dest1[t] == u64_le(
                            total_count(chs, t) as u64,
                        ) by {
                            assert(batch_has_key(ws_step, t));
                            let q = choose|q: int|
                                0 <= q < ws_step.len() && (#[trigger] ws_step[q]).1 == t;
                            assert(dest1.contains_key(ws_step[q].1) && dest1[ws_step[q].1]
                                == ws_step[q].2);
                        }
                        assert forall|k: u64| !txs_of(chs).contains(k) implies (
                        #[trigger] dest1.contains_key(k) == dest0.contains_key(k) && (
                        dest0.contains_key(k) ==> dest1[k] == dest0[k])) by {
                            assert(!batch_has_key(ws_step, k)) by {
                                if batch_has_key(ws_step, k) {
                                    let q = choose|q: int|
                                        0 <= q < ws_step.len() && (#[trigger] ws_step[q]).1 == k;
                                    assert(txs_of(chs).contains(ws_step[q].1));
                                }
                            }
                            assert(key_preserved(dest0, ws_step, dest, k));
                        }
                        assert(refcounts_rebuilt(pre, dest1));
                    },
                }
                assert(step_applied(pre, *store, step));
            }
            Ok(())
        },
        Err(e) => Err(e),
    }
}

/// The steps' target versions strictly ascend.
pub open spec fn steps_sorted(steps: Seq<MigrationStep>) -> bool {
    forall|i: int, j: int|
        0 <= i < j < steps.len() ==> (#[trigger] steps[i]).target_version < (
        #[trigger] steps[j]).target_version
}

/// Some step targets this version.
pub open spec fn is_target(steps: Seq<MigrationStep>, v: u32) -> bool {
    exists|i: int| 0 <= i < steps.len() && (#[trigger] steps[i]).target_version == v
}

/// The given steps ran in order, through the given intermediate stores.
pub open spec fn steps_chain(
    pre: Store,
    post: Store,
    steps: Seq<MigrationStep>,
    chain: Seq<Store>,
) -> bool {
    &&& chain.len() == steps.len() + 1
    &&& chain[0] == pre
    &&& chain[chain.len() - 1] == post
    &&& (forall|j: int|
        0 <= j < steps.len() ==> step_applied(#[trigger] chain[j], chain[j + 1], steps[j]))
}

/// A rebuild preserves the size bound: each occurring block's stored set
/// becomes its merged set, and merging the same ids into it again adds
/// nothing, so every merged set keeps its size.
pub proof fn lemma_outcomes_step_preserves_sizes(pre: Store, post: Store)
    requires
        outcome_sizes_ok(pre),
        outcome_sources_ok(pre),
        outcomes_rebuilt(pre, post.col(DbCol::ColOutcomesByBlockHash)),
        post.col_assoc(DbCol::ColTransactionResult) == pre.col_assoc(DbCol::ColTransactionResult),
    ensures
        outcome_sizes_ok(post),
{
    let vals = entry_values(pre.col_entries(DbCol::ColTransactionResult));
    let recs = decoded_outcomes(vals);
    let dest0 = pre.col(DbCol::ColOutcomesByBlockHash);
    let dest1 = post.col(DbCol::ColOutcomesByBlockHash);
    assert(post.col_entries(DbCol::ColTransactionResult) == pre.col_entries(
        DbCol::ColTransactionResult,
    ));
    assert forall|b: u64|
        #[trigger] blocks_of(recs).contains(b) && (dest1.contains_key(b)
            ==> decode_hash_seq_spec(dest1[b]) is Some) implies merged_set(post, b).len()
        <= u32::MAX by {
        assert(dest1.contains_key(b));
        assert(stored_hash_set(dest1, b) == stored_hash_set(dest0, b).union(
            ids_for_block(recs, b),
        ));
        assert(merged_set(post, b) =~= merged_set(pre, b));
        assert(dest0.contains_key(b) ==> decode_hash_seq_spec(dest0[b]) is Some);
        assert(merged_set(pre, b).len() <= u32::MAX);
    }
}

/// One applied step preserves both machine-limit size bounds: the chunks and
/// outcome-record columns are never written, and a rebuilt outcomes column
/// keeps every merged set's size.
proof fn lemma_sizes_preserved_by_step(pre: Store, post: Store, step: MigrationStep)
    requires
        outcome_sizes_ok(pre),
        refcount_sizes_ok(pre),
        step_applied(pre, post, step),
    ensures
        outcome_sizes_ok(post),
        refcount_sizes_ok(post),
{
    assert(post.col_assoc(DbCol::ColChunks) == pre.col_assoc(DbCol::ColChunks));
    assert(post.col_entries(DbCol::ColChunks) == pre.col_entries(DbCol::ColChunks));
    assert(refcount_sizes_ok(post));
    match step.action {
        MigrationAction::FillOutcomesByHash => {
            assert(post.col_assoc(DbCol::ColTransactionResult) == pre.col_assoc(
                DbCol::ColTransactionResult,
            ));
            lemma_outcomes_step_preserves_sizes(pre, post);
        },
        MigrationAction::FillTransactionRefcount => {
            assert(post.col_assoc(DbCol::ColTransactionResult) == pre.col_assoc(
                DbCol::ColTransactionResult,
            ));
            assert(post.col_entries(DbCol::ColTransactionResult) == pre.col_entries(
                DbCol::ColTransactionResult,
            ));
            assert(post.col_assoc(DbCol::ColOutcomesByBlockHash) == pre.col_assoc(
                DbCol::ColOutcomesByBlockHash,
            ));
            assert(post.col(DbCol::ColOutcomesByBlockHash) == pre.col(
                DbCol::ColOutcomesByBlockHash,
            ));
            assert(outcome_sizes_ok(post));
        },
    }
}

/// Orders the pending steps by target version and applies each whose target
/// exceeds the recorded version, committing its writes and version bump
/// together; it stops at the first failure, leaving the store at a wholly
/// previous, self-consistent version.
#[verifier::loop_isolation(false)]
#[verifier::rlimit(100)]
#[verifier::spinoff_prover]
pub fn run_migrations(store: &mut Store, steps: &Vec<MigrationStep>) -> (r: Result<
    u32,
    StoreError,
>)
    requires
        old(store).wf(),
        steps_sorted(steps@),
        outcome_sizes_ok(*old(store)),
        refcount_sizes_ok(*old(store)),
    ensures
        final(store).wf(),
        version_view(*old(store)) is Some ==> version_view(*final(store)) is Some && version_view(
            *final(store),
        )->Some_0 >= version_view(*old(store))->Some_0 && (version_view(*final(store))
            == version_view(*old(store)) || is_target(
            steps@,
            version_view(*final(store))->Some_0,
        )),
        (version_view(*old(store)) is Some && (forall|i: int|
            0 <= i < steps@.len() ==> (#[trigger] steps@[i]).target_version <= version_view(
                *old(store),
            )->Some_0)) ==> r == Ok::<u32, StoreError>(version_view(*old(store))->Some_0)
            && *final(store) == *old(store),
        version_view(*old(store)) is None ==> r == Err::<u32, StoreError>(StoreError::Decode)
            && *final(store) == *old(store),
        match r {
            Ok(v) => version_view(*old(store)) is Some && version_view(*final(store)) == Some(v)
                && v >= version_view(*old(store))->Some_0 && (exists|p: int, chain: Seq<Store>|
                {
                    let v0 = version_view(*old(store))->Some_0;
                    &&& 0 <= p <= steps@.len()
                    &&& (forall|i: int|
                        0 <= i < p ==> (#[trigger] steps@[i]).target_version <= v0)
                    &&& (forall|i: int|
                        p <= i < steps@.len() ==> (#[trigger] steps@[i]).target_version > v0)
                    &&& #[trigger] steps_chain(
                        *old(store),
                        *final(store),
                        steps@.subrange(p, steps@.len() as int),
                        chain,
                    )
                    &&& (p < steps@.len() ==> v == steps@[steps@.len() - 1].target_version)
                    &&& (p == steps@.len() ==> v == v0)
                }),
            Err(e) => (e == StoreError::Decode || e == StoreError::Commit) && (version_view(
                *old(store),
            ) is Some ==> (exists|p: int, k: int, chain: Seq<Store>|
                {
                    let v0 = version_view(*old(store))->Some_0;
                    let before = chain[chain.len() - 1];
                    &&& 0 <= p <= k < steps@.len()
                    &&& (forall|i: int|
                        0 <= i < p ==> (#[trigger] steps@[i]).target_version <= v0)
                    &&& (forall|i: int|
                        p <= i < steps@.len() ==> (#[trigger] steps@[i]).target_version > v0)
                    &&& #[trigger] steps_chain(
                        *old(store),
                        chain[chain.len() - 1],
                        steps@.subrange(p, k),
                        chain,
                    )
                    &&& (e == StoreError::Decode ==> *final(store) == before && !step_sources_ok(
                        before,
                        steps@[k].action,
                    ))
                    &&& (e == StoreError::Commit ==> before.fail_next_commit
                        && !final(store).fail_next_commit && final(store).same_data(before)
                        && step_sources_ok(before, steps@[k].action))
                })),
        },
{
    let cur = match get_store_version(store) {
        Ok(v) => v,
        Err(e) => {
            return Err(e);
        },
    };
    let ghost s0 = *old(store);
    let ghost v0 = cur;
    let mut cv: u32 = cur;
    let n = steps.len();
    let ghost mut p: int = 0;
    let ghost mut chain: Seq<Store> = seq![s0];
    for i in 0..n
        invariant
            store.wf(),
            version_view(*store) == Some(cv),
            cv >= v0,
            cv == v0 || is_target(steps@, cv),
            outcome_sizes_ok(*store),
            refcount_sizes_ok(*store),
            forall|j: int| 0 <= j < i ==> (#[trigger] steps@[j]).target_version <= cv,
            0 <= p <= i as int,
            forall|j: int| 0 <= j < p ==> (#[trigger] steps@[j]).target_version <= v0,
            forall|j: int| p <= j < i ==> (#[trigger] steps@[j]).target_version > v0,
            chain.len() == i - p + 1,
            chain[0] == s0,
            chain[chain.len() - 1] == *store,
            forall|j: int|
                0 <= j < i - p ==> step_applied(#[trigger] chain[j], chain[j + 1], steps@[p + j]),
            p == i as int ==> *store == s0 && cv == v0,
            p < i as int ==> cv == steps@[i - 1].target_version,
    {
        let step = steps[i];
        if step.target_version <= cv {
            proof {
                if p < i as int {
                    assert(steps@[i - 1].target_version < steps@[i as int].target_version);
                    assert(false);
                }
                p = i as int + 1;
                chain = seq![s0];
            }
        } else {
            let ghost store_pre = *store;
            match apply_step(store, step) {
                Ok(()) => {
                    cv = step.target_version;
                    proof {
                        chain = chain.push(*store);
                        assert(step_applied(store_pre, *store, steps@[i as int]));
                        assert forall|j: int| 0 <= j < (i + 1) - p implies step_applied(
                            #[trigger] chain[j],
                            chain[j + 1],
                            steps@[p + j],
                        ) by {
                            if j < i - p {
                                assert(chain[j] == chain.drop_last()[j]);
                                assert(chain[j + 1] == chain.drop_last()[j + 1]);
                            }
                        }
                        assert(is_target(steps@, cv)) by {
                            assert(steps@[i as int].target_version == cv);
                        }
                        lemma_sizes_preserved_by_step(store_pre, *store, step);
                    }
                },
                Err(e) => {
                    proof {
                        if version_view(s0) is Some && (forall|j: int|
                            0 <= j < steps@.len() ==> (#[trigger] steps@[j]).target_version
                                <= v0) {
                            assert(steps@[i as int].target_version <= v0);
                            assert(false);
                        }
                        if e == StoreError::Commit {
                            assert(version_view(*store) == Some(cv)) by {
                                assert(store.col_assoc(DbCol::ColDbVersion) == store_pre.col_assoc(
                                    DbCol::ColDbVersion,
                                ));
                            }
                        }
                        assert forall|j: int|
                            p <= j < n implies (#[trigger] steps@[j]).target_version > v0 by {
                            if j > i as int {
                                assert(steps@[i as int].target_version
                                    < steps@[j].target_version);
                            }
                        }
                        assert(steps@.subrange(p, i as int).len() == i - p);
                        assert forall|j: int| 0 <= j < i - p implies step_applied(
                            #[trigger] chain[j],
                            chain[j + 1],
                            steps@.subrange(p, i as int)[j],
                        ) by {
                            assert(steps@.subrange(p, i as int)[j] == steps@[p + j]);
                        }
                        assert(chain[chain.len() - 1] == store_pre);
                        assert(steps_chain(s0, chain[chain.len() - 1], steps@.subrange(
                            p,
                            i as int,
                        ), chain));
                        assert(steps@[i as int].action == step.action);
                    }
                    return Err(e);
                },
            }
        }
    }
    proof {
        if p < n as int {
            assert(cv == steps@[n - 1].target_version);
        }
        assert(steps_chain(s0, *store, steps@.subrange(p, n as int), chain)) by {
            assert(steps@.subrange(p, n as int).len() == n - p);
            assert forall|j: int| 0 <= j < n - p implies step_applied(
                #[trigger] chain[j],
                chain[j + 1],
                steps@.subrange(p, n as int)[j],
            ) by {
                assert(steps@.subrange(p, n as int)[j] == steps@[p + j]);
            }
        }
        if version_view(s0) is Some && (forall|j: int|
            0 <= j < steps@.len() ==> (#[trigger] steps@[j]).target_version <= v0) {
            if p < n as int {
                assert(steps@[p].target_version > v0);
                assert(false);
            }
        }
    }
    Ok(cv)
}

/// Idempotence of a completed outcomes rebuild: once each occurring block's
/// stored set holds its records' ids, merging the same ids in again changes
/// no set, so re-running the step on its own output stages values whose
/// decoded sets equal those already persisted.
pub proof fn lemma_outcomes_rebuild_fixed_point(pre: Store, post: Store)
    requires
        outcome_sources_ok(pre),
        outcomes_rebuilt(pre, post.col(DbCol::ColOutcomesByBlockHash)),
        post.col_assoc(DbCol::ColTransactionResult) == pre.col_assoc(DbCol::ColTransactionResult),
    ensures
        forall|b: u64|
            #[trigger] blocks_of(
                decoded_outcomes(entry_values(post.col_entries(DbCol::ColTransactionResult))),
            ).contains(b) ==> merged_set(post, b) == stored_hash_set(
                post.col(DbCol::ColOutcomesByBlockHash),
                b,
            ),
{
    let recs = decoded_outcomes(entry_values(pre.col_entries(DbCol::ColTransactionResult)));
    let dest0 = pre.col(DbCol::ColOutcomesByBlockHash);
    let dest1 = post.col(DbCol::ColOutcomesByBlockHash);
    assert(post.col_entries(DbCol::ColTransactionResult) == pre.col_entries(
        DbCol::ColTransactionResult,
    ));
    assert forall|b: u64| #[trigger] blocks_of(recs).contains(b) implies merged_set(post, b)
        == stored_hash_set(dest1, b) by {
        assert(stored_hash_set(dest1, b) == stored_hash_set(dest0, b).union(
            ids_for_block(recs, b),
        ));
        assert(merged_set(post, b) =~= stored_hash_set(dest1, b));
    }
}

/// Commutativity of the outcomes aggregation: feeding the same records in
/// any order yields the identical set-per-block mapping. The blocks that are
/// touched and the id set merged for each block depend only on which records
/// occur, never on the order the store iterates them in.
pub proof fn lemma_outcomes_order_irrelevant(recs1: Seq<(u64, u64)>, recs2: Seq<(u64, u64)>)
    requires
        recs1.to_multiset() == recs2.to_multiset(),
    ensures
        blocks_of(recs1) == blocks_of(recs2),
        forall|b: u64| #[trigger] ids_for_block(recs1, b) == ids_for_block(recs2, b),
{
    recs1.to_multiset_ensures();
    recs2.to_multiset_ensures();
    assert forall|x: (u64, u64)| recs1.contains(x) == recs2.contains(x) by {
        assert(recs1.contains(x) <==> recs1.to_multiset().count(x) > 0);
        assert(recs2.contains(x) <==> recs2.to_multiset().count(x) > 0);
    }
    assert forall|b: u64| blocks_of(recs1).contains(b) == blocks_of(recs2).contains(b) by {
        if blocks_of(recs1).contains(b) {
            let i = choose|i: int| 0 <= i < recs1.len() && (#[trigger] recs1[i]).1 == b;
            assert(recs1.contains(recs1[i]));
            assert(recs2.contains(recs1[i]));
            let j = choose|j: int| 0 <= j < recs2.len() && recs2[j] == recs1[i];
            assert(recs2[j].1 == b);
        }
        if blocks_of(recs2).contains(b) {
            let i = choose|i: int| 0 <= i < recs2.len() && (#[trigger] recs2[i]).1 == b;
            assert(recs2.contains(recs2[i]));
            assert(recs1.contains(recs2[i]));
            let j = choose|j: int| 0 <= j < recs1.len() && recs1[j] == recs2[i];
            assert(recs1[j].1 == b);
        }
    }
    assert(blocks_of(recs1) =~= blocks_of(recs2));
    assert forall|b: u64| #[trigger] ids_for_block(recs1, b) == ids_for_block(recs2, b) by {
        assert forall|id: u64| ids_for_block(recs1, b).contains(id) == ids_for_block(
            recs2,
            b,
        ).contains(id) by {
            if ids_for_block(recs1, b).contains(id) {
                let i = choose|i: int| 0 <= i < recs1.len() && #[trigger] recs1[i] == (id, b);
                assert(recs1.contains((id, b)));
                assert(recs2.contains((id, b)));
                let j = choose|j: int| 0 <= j < recs2.len() && recs2[j] == (id, b);
            }
            if ids_for_block(recs2, b).contains(id) {
                let i = choose|i: int| 0 <= i < recs2.len() && #[trigger] recs2[i] == (id, b);
                assert(recs2.contains((id, b)));
                assert(recs1.contains((id, b)));
                let j = choose|j: int| 0 <= j < recs1.len() && recs1[j] == (id, b);
            }
        }
        assert(ids_for_block(recs1, b) =~= ids_for_block(recs2, b));
    }
}

} // verus!
