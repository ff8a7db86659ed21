use store_migrations::kv::{DbCol, Store};
use store_migrations::migrations::{
    fill_col_outcomes_by_hash, fill_col_transaction_refcount, get_store_version, run_migrations,
    set_store_version, MigrationAction, MigrationStep, VERSION_KEY,
};
use store_migrations::codec::{borsh_u64_to_vec, decode_hash_seq, encode_hash_seq, encode_outcome,
    ExecutionOutcomeWithIdAndProof};
use store_migrations::StoreError;

fn put(store: &mut Store, col: DbCol, key: u64, value: Vec<u8>) {
    let mut update = store.store_update();
    update.set(col, key, value);
    store.commit(update).expect("commit should succeed");
}

fn put_outcome(store: &mut Store, key: u64, id: u64, block_hash: u64) {
    let bytes = encode_outcome(&ExecutionOutcomeWithIdAndProof { id, block_hash });
    put(store, DbCol::ColTransactionResult, key, bytes);
}

fn put_chunk(store: &mut Store, key: u64, txs: Vec<u64>) {
    let bytes = encode_hash_seq(&txs).expect("chunk encodes");
    put(store, DbCol::ColChunks, key, bytes);
}

fn decoded_set(store: &Store, col: DbCol, key: u64) -> Vec<u64> {
    let bytes = store.get(col, key).expect("key present");
    let mut v = decode_hash_seq(bytes.as_slice()).expect("value decodes");
    v.sort();
    v
}

#[test]
fn fresh_store_version_is_zero() {
    let store = Store::new();
    assert_eq!(get_store_version(&store), Ok(0));
}

#[test]
fn set_then_get_version() {
    let mut store = Store::new();
    set_store_version(&mut store, 7).unwrap();
    assert_eq!(get_store_version(&store), Ok(7));
    set_store_version(&mut store, 1234567).unwrap();
    assert_eq!(get_store_version(&store), Ok(1234567));
}

#[test]
fn corrupt_version_slot_is_reported() {
    let mut store = Store::new();
    put(&mut store, DbCol::ColDbVersion, VERSION_KEY, vec![0xff, 0x20]);
    assert_eq!(get_store_version(&store), Err(StoreError::Decode));
}

#[test]
fn refcount_counts_each_occurrence() {
    // chunks [C1 = {t1, t2}, C2 = {t2, t3}] give {t1: 1, t2: 2, t3: 1}
    let (t1, t2, t3) = (101u64, 102u64, 103u64);
    let mut store = Store::new();
    put_chunk(&mut store, 1, vec![t1, t2]);
    put_chunk(&mut store, 2, vec![t2, t3]);
    fill_col_transaction_refcount(&mut store).unwrap();
    let get = |s: &Store, t: u64| s.get(DbCol::ColTransactionRefCount, t).expect("count present");
    assert_eq!(get(&store, t1), borsh_u64_to_vec(1));
    assert_eq!(get(&store, t2), borsh_u64_to_vec(2));
    assert_eq!(get(&store, t3), borsh_u64_to_vec(1));
}

#[test]
fn refcount_recomputes_from_scratch() {
    // a stale persisted count is overwritten with the fresh total, not merged
    let mut store = Store::new();
    put(&mut store, DbCol::ColTransactionRefCount, 5, borsh_u64_to_vec(40));
    put_chunk(&mut store, 1, vec![5]);
    fill_col_transaction_refcount(&mut store).unwrap();
    assert_eq!(
        store.get(DbCol::ColTransactionRefCount, 5),
        Some(borsh_u64_to_vec(1))
    );
}

#[test]
fn outcomes_index_merges_with_persisted_set() {
    let mut store = Store::new();
    let prior = encode_hash_seq(&vec![11u64]).unwrap();
    put(&mut store, DbCol::ColOutcomesByBlockHash, 7, prior);
    put_outcome(&mut store, 1, 12, 7);
    put_outcome(&mut store, 2, 13, 7);
    fill_col_outcomes_by_hash(&mut store).unwrap();
    assert_eq!(decoded_set(&store, DbCol::ColOutcomesByBlockHash, 7), vec![11, 12, 13]);
}

#[test]
fn outcomes_index_order_does_not_matter() {
    let records = [(12u64, 7u64), (13, 7), (14, 8), (12, 7)];
    let mut forward = Store::new();
    let mut backward = Store::new();
    for (k, (id, b)) in records.iter().enumerate() {
        put_outcome(&mut forward, k as u64, *id, *b);
    }
    for (k, (id, b)) in records.iter().rev().enumerate() {
        put_outcome(&mut backward, k as u64, *id, *b);
    }
    fill_col_outcomes_by_hash(&mut forward).unwrap();
    fill_col_outcomes_by_hash(&mut backward).unwrap();
    for b in [7u64, 8u64] {
        assert_eq!(
            decoded_set(&forward, DbCol::ColOutcomesByBlockHash, b),
            decoded_set(&backward, DbCol::ColOutcomesByBlockHash, b)
        );
    }
}

#[test]
fn decode_failure_leaves_destination_untouched() {
    let mut store = Store::new();
    put_outcome(&mut store, 1, 12, 7);
    put(&mut store, DbCol::ColTransactionResult, 2, vec![1, 2, 3]);
    let r = fill_col_outcomes_by_hash(&mut store);
    assert_eq!(r, Err(StoreError::Decode));
    assert_eq!(store.get(DbCol::ColOutcomesByBlockHash, 7), None);
}

#[test]
fn commit_failure_is_atomic() {
    let mut store = Store::new();
    put_outcome(&mut store, 1, 12, 7);
    set_store_version(&mut store, 0).unwrap();
    store.fail_next_commit = true;
    let steps = vec![MigrationStep { target_version: 1, action: MigrationAction::FillOutcomesByHash }];
    let r = run_migrations(&mut store, &steps);
    assert_eq!(r, Err(StoreError::Commit));
    // the version is unchanged and no destination key is observable
    assert_eq!(get_store_version(&store), Ok(0));
    assert_eq!(store.get(DbCol::ColOutcomesByBlockHash, 7), None);
}

#[test]
fn end_to_end_outcomes_rebuild() {
    // version 0, one outcome (id h1, block b1), empty destination column
    let (h1, b1) = (21u64, 31u64);
    let mut store = Store::new();
    put_outcome(&mut store, 1, h1, b1);
    assert_eq!(get_store_version(&store), Ok(0));
    let steps = vec![MigrationStep { target_version: 1, action: MigrationAction::FillOutcomesByHash }];
    let v = run_migrations(&mut store, &steps).unwrap();
    assert_eq!(v, 1);
    assert_eq!(get_store_version(&store), Ok(1));
    assert_eq!(decoded_set(&store, DbCol::ColOutcomesByBlockHash, b1), vec![h1]);
}

#[test]
fn completed_run_is_a_no_op() {
    let mut store = Store::new();
    put_outcome(&mut store, 1, 21, 31);
    put_chunk(&mut store, 1, vec![41, 42]);
    let steps = vec![
        MigrationStep { target_version: 1, action: MigrationAction::FillOutcomesByHash },
        MigrationStep { target_version: 2, action: MigrationAction::FillTransactionRefcount },
    ];
    assert_eq!(run_migrations(&mut store, &steps), Ok(2));
    let set_before = decoded_set(&store, DbCol::ColOutcomesByBlockHash, 31);
    // the second run finds the version already at target and stages nothing
    assert_eq!(run_migrations(&mut store, &steps), Ok(2));
    assert_eq!(get_store_version(&store), Ok(2));
    assert_eq!(decoded_set(&store, DbCol::ColOutcomesByBlockHash, 31), set_before);
}

#[test]
fn version_is_monotone_across_runs() {
    let mut store = Store::new();
    put_outcome(&mut store, 1, 21, 31);
    put_chunk(&mut store, 1, vec![41]);
    let mut seen: Vec<u32> = Vec::new();
    seen.push(get_store_version(&store).unwrap());
    let first = vec![MigrationStep { target_version: 3, action: MigrationAction::FillOutcomesByHash }];
    run_migrations(&mut store, &first).unwrap();
    seen.push(get_store_version(&store).unwrap());
    let second = vec![
        MigrationStep { target_version: 3, action: MigrationAction::FillOutcomesByHash },
        MigrationStep { target_version: 5, action: MigrationAction::FillTransactionRefcount },
    ];
    run_migrations(&mut store, &second).unwrap();
    seen.push(get_store_version(&store).unwrap());
    assert_eq!(seen, vec![0, 3, 5]);
    for w in seen.windows(2) {
        assert!(w[0] <= w[1]);
    }
}

#[test]
fn repeated_outcomes_step_is_stable() {
    // the same action may be scheduled at two targets: the second run merges
    // ids that are already present and the decoded set does not change
    let mut store = Store::new();
    put_outcome(&mut store, 1, 12, 7);
    let steps = vec![
        MigrationStep { target_version: 1, action: MigrationAction::FillOutcomesByHash },
        MigrationStep { target_version: 2, action: MigrationAction::FillOutcomesByHash },
    ];
    assert_eq!(run_migrations(&mut store, &steps), Ok(2));
    assert_eq!(decoded_set(&store, DbCol::ColOutcomesByBlockHash, 7), vec![12]);
    assert_eq!(get_store_version(&store), Ok(2));
}
