//! End-to-end tests of the ledger graph, validation, consensus, dispatch,
//! bundling and the wire codec.

use dag::consensus::{quorum_met, Consensus};
use dag::crypto::{create_signed_transaction, generate_key_pair, verify_transaction_signature};
use dag::errors::LedgerError;
use dag::graph::{ValidationCache, DAG};
use dag::txn::{ContractRef, Transaction, TxStatus};

fn root_tx(receiver: &str, amount: u64) -> Transaction {
    let kp = generate_key_pair().expect("random source available");
    create_signed_transaction(&kp, receiver.to_string(), amount, Vec::new(), 0)
}

fn child_tx(receiver: &str, amount: u64, parents: Vec<String>) -> Transaction {
    let kp = generate_key_pair().expect("random source available");
    create_signed_transaction(&kp, receiver.to_string(), amount, parents, 0)
}

#[test]
fn factory_fields() {
    let kp = generate_key_pair().expect("random source available");
    let tx = create_signed_transaction(&kp, "alice".to_string(), 42, Vec::new(), 7);
    assert!(tx.id.starts_with("tx-"));
    assert_eq!(tx.receiver, "alice");
    assert_eq!(tx.amount, 42);
    assert_eq!(tx.priority, 7);
    assert_eq!(tx.status, TxStatus::Valid);
    assert!(tx.contract.is_none());
    assert_eq!(tx.sender, hex::encode(&tx.public_key));
    assert_eq!(tx.public_key.len(), 32);
    assert_eq!(tx.signature.len(), 64);
    assert!(verify_transaction_signature(&tx));
}

#[test]
fn root_transaction_validates() {
    let dag = DAG::new();
    let tx = root_tx("alice", 5);
    let mut cache = ValidationCache::new();
    assert!(dag.validate_transaction(&tx, &mut cache));
}

#[test]
fn flipped_signature_bit_fails_validation() {
    let dag = DAG::new();
    let mut tx = root_tx("alice", 5);
    tx.signature[0] ^= 0x01;
    let mut cache = ValidationCache::new();
    assert!(!dag.validate_transaction(&tx, &mut cache));
}

#[test]
fn missing_parent_fails_validation() {
    let dag = DAG::new();
    let tx = child_tx("bob", 1, vec!["tx-unknown".to_string()]);
    let mut cache = ValidationCache::new();
    assert!(!dag.validate_transaction(&tx, &mut cache));
}

#[test]
fn revoked_parent_propagates() {
    let mut dag = DAG::new();
    let parent = root_tx("alice", 5);
    let parent_id = parent.id.clone();
    dag.add_transaction(parent).unwrap();

    let child = child_tx("bob", 1, vec![parent_id.clone()]);
    let mut cache = ValidationCache::new();
    assert!(dag.validate_transaction(&child, &mut cache));

    dag.revoke_transaction(&parent_id).unwrap();
    let mut cache2 = ValidationCache::new();
    assert!(!dag.validate_transaction(&child, &mut cache2));
}

#[test]
fn layering_follows_deepest_parent() {
    let mut dag = DAG::new();
    let t0 = root_tx("a", 1);
    let id0 = t0.id.clone();
    dag.add_transaction(t0).unwrap();
    let t1 = child_tx("b", 1, vec![id0.clone()]);
    let id1 = t1.id.clone();
    dag.add_transaction(t1).unwrap();
    let t2 = child_tx("c", 1, vec![id1.clone()]);
    let id2 = t2.id.clone();
    dag.add_transaction(t2).unwrap();
    let t3 = child_tx("d", 1, vec![id2.clone()]);
    let id3 = t3.id.clone();
    dag.add_transaction(t3).unwrap();

    assert_eq!(dag.get_layer(&id0), Some(0));
    assert_eq!(dag.get_layer(&id1), Some(1));
    assert_eq!(dag.get_layer(&id3), Some(3));

    // Parents at layers 1 and 3: the new transaction lands on layer 4.
    let t4 = child_tx("e", 1, vec![id1.clone(), id3.clone()]);
    let id4 = t4.id.clone();
    dag.add_transaction(t4).unwrap();
    assert_eq!(dag.get_layer(&id4), Some(4));
}

#[test]
fn revoke_is_idempotent() {
    let mut dag = DAG::new();
    let tx = root_tx("alice", 9);
    let id = tx.id.clone();
    dag.add_transaction(tx).unwrap();

    assert_eq!(dag.revoke_transaction(&id), Ok(()));
    let after_first = dag.get_transaction(&id).unwrap().clone();
    assert_eq!(after_first.status, TxStatus::Revoked);

    // Revoking again succeeds and leaves status and all other fields alone.
    assert_eq!(dag.revoke_transaction(&id), Ok(()));
    let after_second = dag.get_transaction(&id).unwrap();
    assert_eq!(*after_second, after_first);
}

#[test]
fn revoke_unknown_id_not_found() {
    let mut dag = DAG::new();
    assert_eq!(
        dag.revoke_transaction(&"tx-missing".to_string()),
        Err(LedgerError::NotFound)
    );
}

#[test]
fn attach_contract_and_execute() {
    let mut dag = DAG::new();
    let tx = root_tx("alice", 3);
    let id = tx.id.clone();
    dag.add_transaction(tx).unwrap();

    // Without a contract: no-op success.
    let plain = dag.get_transaction(&id).unwrap();
    assert_eq!(dag.execute_contract(plain), Ok("No contract logic found".to_string()));

    let handle = ContractRef { name: "transfer".to_string(), payload: String::new() };
    assert_eq!(dag.attach_contract(&id, handle), Ok(()));
    let with_contract = dag.get_transaction(&id).unwrap();
    let expected = format!(
        "Transfer executed: {} -> {} (amount: {})",
        with_contract.sender, with_contract.receiver, with_contract.amount
    );
    assert_eq!(dag.execute_contract(with_contract), Ok(expected));
}

#[test]
fn transfer_of_zero_amount_is_invalid() {
    let mut dag = DAG::new();
    let tx = root_tx("alice", 0);
    let id = tx.id.clone();
    dag.add_transaction(tx).unwrap();
    let handle = ContractRef { name: "transfer".to_string(), payload: String::new() };
    dag.attach_contract(&id, handle).unwrap();
    let t = dag.get_transaction(&id).unwrap();
    assert_eq!(dag.execute_contract(t), Err(LedgerError::InvalidTransfer));
}

#[test]
fn unknown_contract_is_unsupported() {
    let mut dag = DAG::new();
    let tx = root_tx("alice", 3);
    let id = tx.id.clone();
    dag.add_transaction(tx).unwrap();
    let handle = ContractRef { name: "escrow".to_string(), payload: String::new() };
    dag.attach_contract(&id, handle).unwrap();
    let t = dag.get_transaction(&id).unwrap();
    assert_eq!(dag.execute_contract(t), Err(LedgerError::UnsupportedContract));
}

#[test]
fn attach_contract_unknown_id_not_found() {
    let mut dag = DAG::new();
    let handle = ContractRef { name: "transfer".to_string(), payload: String::new() };
    assert_eq!(
        dag.attach_contract(&"tx-missing".to_string(), handle),
        Err(LedgerError::NotFound)
    );
}

#[test]
fn failed_commit_leaves_graph_untouched() {
    let mut dag = DAG::new();
    let good = root_tx("alice", 5);
    dag.add_transaction(good).unwrap();

    let count_before = dag.transaction_count();
    let layers_before = dag.layers.clone();

    let mut bad = root_tx("mallory", 5);
    bad.signature[3] ^= 0xff;
    assert_eq!(dag.add_transaction(bad), Err(LedgerError::ValidationFailed));

    assert_eq!(dag.transaction_count(), count_before);
    assert_eq!(dag.layers, layers_before);
}

#[test]
fn duplicate_id_is_rejected() {
    let mut dag = DAG::new();
    let tx = root_tx("alice", 5);
    let copy = tx.clone();
    dag.add_transaction(tx).unwrap();
    assert_eq!(dag.add_transaction(copy), Err(LedgerError::ValidationFailed));
}

#[test]
fn quorum_threshold() {
    // With 4 validators, 3 acceptances commit (3 > 2)...
    assert!(quorum_met(3, 4));
    // ...and exactly 2 acceptances are rejected (2 is not > 2).
    assert!(!quorum_met(2, 4));
}

#[test]
fn propose_commits_on_quorum() {
    let mut dag = DAG::new();
    let engine = Consensus::new(
        "Leader".to_string(),
        vec!["Validator1".to_string(), "Validator2".to_string()],
    )
    .expect("random source available");
    let tx = create_signed_transaction(
        engine.get_key_pair(),
        "alice".to_string(),
        10,
        Vec::new(),
        0,
    );
    let id = tx.id.clone();
    assert_eq!(engine.propose_transaction(&mut dag, &tx), Ok(()));
    assert!(dag.get_transaction(&id).is_some());
}

#[test]
fn propose_rejects_without_quorum() {
    let mut dag = DAG::new();
    let engine = Consensus::new(
        "Leader".to_string(),
        vec!["Validator1".to_string(), "Validator2".to_string()],
    )
    .expect("random source available");
    let mut tx = create_signed_transaction(
        engine.get_key_pair(),
        "alice".to_string(),
        10,
        Vec::new(),
        0,
    );
    tx.signature[0] ^= 0x01;
    assert_eq!(
        engine.propose_transaction(&mut dag, &tx),
        Err(LedgerError::ConsensusRejected { votes: 0, required: 2 })
    );
    assert_eq!(dag.transaction_count(), 0);
}

#[test]
fn cyclic_ancestry_terminates_and_fails() {
    let mut a = root_tx("a", 1);
    let mut b = root_tx("b", 1);
    let a_id = a.id.clone();
    let b_id = b.id.clone();
    // The signature covers the id alone, so rewriting parents afterwards
    // leaves both signatures valid: only the cycle can make them invalid.
    a.parents = vec![b_id.clone()];
    b.parents = vec![a_id.clone()];

    let dag = DAG::from_parts(vec![a, b], vec![vec![a_id.clone()], vec![b_id.clone()]])
        .expect("parts are well-formed");
    let ta = dag.get_transaction(&a_id).unwrap().clone();
    let tb = dag.get_transaction(&b_id).unwrap().clone();
    let mut cache = ValidationCache::new();
    assert!(!dag.validate_transaction(&ta, &mut cache));
    let mut cache2 = ValidationCache::new();
    assert!(!dag.validate_transaction(&tb, &mut cache2));
}

#[test]
fn from_parts_rejects_malformed_snapshots() {
    let a = root_tx("a", 1);
    let id = a.id.clone();
    let dup = a.clone();

    // Duplicate ids.
    assert!(DAG::from_parts(vec![a.clone(), dup], vec![vec![id.clone()]]).is_err());
    // A transaction missing from every layer.
    assert!(DAG::from_parts(vec![a.clone()], Vec::new()).is_err());
    // A layer id that is not stored.
    assert!(DAG::from_parts(
        vec![a.clone()],
        vec![vec![id.clone()], vec!["tx-ghost".to_string()]]
    )
    .is_err());
    // An empty layer.
    assert!(DAG::from_parts(vec![a.clone()], vec![vec![id.clone()], Vec::new()]).is_err());
    // Well-formed parts are accepted.
    assert!(DAG::from_parts(vec![a], vec![vec![id]]).is_ok());
}

#[test]
fn bundles_of_eight_have_size_one() {
    let mut dag = DAG::new();
    for i in 0..8u64 {
        let mut tx = root_tx("r", i);
        tx.timestamp = 1000 - i; // descending creation order
        dag.add_transaction(tx).unwrap();
    }
    let bundles = dag.process_adaptive_bundles();
    assert_eq!(bundles.len(), 8);
    let mut last = 0u64;
    for bundle in &bundles {
        assert_eq!(bundle.len(), 1);
        assert!(bundle[0].timestamp >= last);
        last = bundle[0].timestamp;
    }
}

#[test]
fn bundles_of_fifty_have_size_ten() {
    let mut dag = DAG::new();
    for i in 0..50u64 {
        let mut tx = root_tx("r", i);
        tx.timestamp = 5000 - i;
        dag.add_transaction(tx).unwrap();
    }
    let bundles = dag.process_adaptive_bundles();
    assert_eq!(bundles.len(), 5);
    let mut last = 0u64;
    for bundle in &bundles {
        assert_eq!(bundle.len(), 10);
        for tx in bundle {
            assert!(tx.timestamp >= last);
            last = tx.timestamp;
        }
    }
}

#[test]
fn validation_cache_is_reusable_across_one_pass() {
    let mut dag = DAG::new();
    let parent = root_tx("alice", 5);
    let parent_id = parent.id.clone();
    dag.add_transaction(parent).unwrap();
    let c1 = child_tx("b", 1, vec![parent_id.clone()]);
    let c2 = child_tx("c", 1, vec![parent_id.clone()]);
    let mut cache = ValidationCache::new();
    assert!(dag.validate_transaction(&c1, &mut cache));
    assert!(dag.validate_transaction(&c2, &mut cache));
}

#[test]
fn bundles_of_empty_graph() {
    let dag = DAG::new();
    assert_eq!(dag.process_adaptive_bundles().len(), 0);
}

#[test]
fn bundles_of_ten_have_size_two() {
    let mut dag = DAG::new();
    for i in 0..10u64 {
        let mut tx = root_tx("r", i);
        tx.timestamp = i;
        dag.add_transaction(tx).unwrap();
    }
    let bundles = dag.process_adaptive_bundles();
    assert_eq!(bundles.len(), 5);
    for bundle in &bundles {
        assert_eq!(bundle.len(), 2);
    }
}

#[test]
fn self_parent_fails_validation() {
    let dag = DAG::new();
    let mut tx = root_tx("a", 1);
    let id = tx.id.clone();
    tx.parents = vec![id];
    let mut cache = ValidationCache::new();
    assert!(!dag.validate_transaction(&tx, &mut cache));
}

#[test]
fn verdict_is_memoized_under_the_transaction() {
    let mut dag = DAG::new();
    let parent = root_tx("alice", 5);
    let parent_id = parent.id.clone();
    dag.add_transaction(parent).unwrap();
    let child = child_tx("bob", 1, vec![parent_id]);

    let mut cache = ValidationCache::new();
    assert_eq!(cache.len(), 0);
    assert!(dag.validate_transaction(&child, &mut cache));
    // One entry for the stored parent, one for the queried child.
    assert_eq!(cache.len(), 2);

    // A repeat call is answered from the cache and adds nothing.
    assert!(dag.validate_transaction(&child, &mut cache));
    assert_eq!(cache.len(), 2);
}

#[test]
fn negative_verdicts_are_memoized_too() {
    let dag = DAG::new();
    let mut tx = root_tx("alice", 5);
    tx.signature[0] ^= 0x01;
    let mut cache = ValidationCache::new();
    assert!(!dag.validate_transaction(&tx, &mut cache));
    assert_eq!(cache.len(), 1);
    assert!(!dag.validate_transaction(&tx, &mut cache));
    assert_eq!(cache.len(), 1);
}

#[test]
fn transfer_description_names_the_parties() {
    let mut dag = DAG::new();
    let tx = root_tx("alice-the-receiver", 1234);
    let id = tx.id.clone();
    dag.add_transaction(tx).unwrap();
    let handle = ContractRef { name: "transfer".to_string(), payload: String::new() };
    dag.attach_contract(&id, handle).unwrap();
    let t = dag.get_transaction(&id).unwrap();
    let description = dag.execute_contract(t).unwrap();
    assert!(description.contains(&t.sender));
    assert!(description.contains("alice-the-receiver"));
    assert!(description.contains("1234"));
}

#[test]
fn bundles_keep_insertion_order_on_equal_timestamps() {
    let mut dag = DAG::new();
    for i in 0..12u64 {
        let mut tx = root_tx("r", i);
        tx.timestamp = 7; // all ties
        dag.add_transaction(tx).unwrap();
    }
    let flat: Vec<String> = dag
        .process_adaptive_bundles()
        .into_iter()
        .flatten()
        .map(|tx| tx.id)
        .collect();
    let stored: Vec<String> = dag.transactions.iter().map(|tx| tx.id.clone()).collect();
    assert_eq!(flat, stored);
}
