//! Tests of the wire codec: lossless round trips and rejection of damaged
//! buffers.

use dag::codec::{deserialize_graph, deserialize_transaction, serialize_graph, serialize_transaction};
use dag::graph::DAG;
use dag::crypto::{create_signed_transaction, generate_key_pair};
use dag::txn::{ContractRef, Transaction, TxStatus};

fn sample_tx() -> Transaction {
    let kp = generate_key_pair().expect("random source available");
    let mut tx = create_signed_transaction(
        &kp,
        "empf\u{e4}nger \u{2764}".to_string(),
        123_456_789,
        vec!["tx-parent-1".to_string(), "tx-parent-2".to_string()],
        200,
    );
    tx.contract = Some(ContractRef {
        name: "transfer".to_string(),
        payload: "{\"note\":\"caf\u{e9}\"}".to_string(),
    });
    tx
}

#[test]
fn round_trip_preserves_every_field() {
    let tx = sample_tx();
    let bytes = serialize_transaction(&tx);
    let back = deserialize_transaction(&bytes).expect("decodes");
    assert_eq!(back, tx);
}

#[test]
fn round_trip_of_revoked_rootless_transaction() {
    let kp = generate_key_pair().expect("random source available");
    let mut tx = create_signed_transaction(&kp, String::new(), 0, Vec::new(), 0);
    tx.status = TxStatus::Revoked;
    let bytes = serialize_transaction(&tx);
    let back = deserialize_transaction(&bytes).expect("decodes");
    assert_eq!(back, tx);
}

#[test]
fn truncated_buffer_is_rejected() {
    let tx = sample_tx();
    let mut bytes = serialize_transaction(&tx);
    bytes.pop();
    assert!(deserialize_transaction(&bytes).is_none());
}

#[test]
fn trailing_garbage_is_rejected() {
    let tx = sample_tx();
    let mut bytes = serialize_transaction(&tx);
    bytes.push(0);
    assert!(deserialize_transaction(&bytes).is_none());
}

#[test]
fn corrupted_length_prefix_is_rejected() {
    let tx = sample_tx();
    let mut bytes = serialize_transaction(&tx);
    // Blowing up the id's length prefix makes the first read overrun.
    bytes[0] = 0xff;
    assert!(deserialize_transaction(&bytes).is_none());
}

#[test]
fn empty_buffer_is_rejected() {
    assert!(deserialize_transaction(&Vec::new()).is_none());
}

#[test]
fn graph_snapshot_round_trip() {
    let mut graph = DAG::new();
    let kp = generate_key_pair().expect("random source available");
    let mut parent = create_signed_transaction(&kp, "alice".to_string(), 7, Vec::new(), 3);
    parent.contract = Some(ContractRef {
        name: "transfer".to_string(),
        payload: "{}".to_string(),
    });
    let parent_id = parent.id.clone();
    graph.add_transaction(parent).unwrap();
    let child = create_signed_transaction(&kp, "bob".to_string(), 1, vec![parent_id], 0);
    graph.add_transaction(child).unwrap();

    let bytes = serialize_graph(&graph);
    let restored = deserialize_graph(&bytes).expect("own snapshot decodes");
    assert_eq!(restored.transactions, graph.transactions);
    assert_eq!(restored.layers, graph.layers);
}

#[test]
fn damaged_graph_snapshot_is_rejected() {
    let mut graph = DAG::new();
    let kp = generate_key_pair().expect("random source available");
    let tx = create_signed_transaction(&kp, "alice".to_string(), 1, Vec::new(), 0);
    graph.add_transaction(tx).unwrap();

    let mut bytes = serialize_graph(&graph);
    bytes.pop();
    assert!(deserialize_graph(&bytes).is_err());
    assert!(deserialize_graph(&Vec::new()).is_err());
}
