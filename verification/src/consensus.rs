//! The quorum protocol that gates commits into the ledger graph.
//!
//! A proposal is terminal: it is either committed or rejected. Every
//! validator in the fixed set evaluates the transaction against its view of
//! the graph with its own fresh cache; the transaction is committed exactly
//! when acceptances strictly exceed half the validator count and the id is
//! not already stored. Validators are polled synchronously against the same
//! local graph; a deployment over remote validators would replace the
//! polling loop and must keep the same all-or-nothing outcome.

use vstd::prelude::*;

use crate::crypto::{generate_key_pair, Keypair};
use crate::errors::LedgerError;
use crate::graph::{layer_has, spec_target_layer, ValidationCache, DAG};
use crate::txn::Transaction;
use crate::validation::spec_valid_transaction;

verus! {

/// The quorum rule: strictly more acceptances than half the validator
/// count (integer floor).
pub fn quorum_met(votes: usize, validator_count: usize) -> (r: bool)
    ensures
        r == (votes > validator_count / 2),
{
    votes > validator_count / 2
}

/// The consensus engine: a leader, a validator set fixed for the engine's
/// lifetime, and the leader's signing key.
pub struct Consensus {
    pub leader_id: String,
    pub validators: Vec<String>,
    key_pair: Keypair,
}

impl Consensus {
    /// The leader's keypair.
    pub closed spec fn spec_key_pair(self) -> Keypair {
        self.key_pair
    }

    /// The leader identifier.
    pub closed spec fn spec_leader(self) -> String {
        self.leader_id
    }

    /// The validator identifiers.
    pub closed spec fn spec_validators(self) -> Seq<String> {
        self.validators@
    }

    /// A well-formed engine holds a well-formed leader keypair.
    pub open spec fn wf(self) -> bool {
        self.spec_key_pair().wf()
    }

    /// Creates an engine with a freshly generated leader keypair. Fails with
    /// [`LedgerError::KeyGenerationFailure`] exactly when the secure random
    /// source is unavailable; callers must treat that as fatal.
    pub fn new(leader_id: String, validators: Vec<String>) -> (r: Result<Consensus, LedgerError>)
        ensures
            r matches Ok(c) ==> c.wf() && c.spec_leader() == leader_id && c.spec_validators() == validators@,
            r is Err ==> r == Err::<Consensus, LedgerError>(LedgerError::KeyGenerationFailure),
    {
        match generate_key_pair() {
            Ok(kp) => Ok(Consensus { leader_id, validators, key_pair: kp }),
            Err(_) => Err(LedgerError::KeyGenerationFailure),
        }
    }

    /// The leader's keypair.
    pub fn get_key_pair(&self) -> (r: &Keypair)
        ensures
            *r == self.spec_key_pair(),
    {
        &self.key_pair
    }

    /// Proposes a transaction: polls every validator's view of the graph,
    /// counts acceptances, and on quorum commits through
    /// [`DAG::add_transaction`]. Without quorum the proposal is rejected
    /// with the vote count and the required threshold, and the graph is
    /// left untouched; a failing commit also leaves it untouched.
    pub fn propose_transaction(&self, dag: &mut DAG, tx: &Transaction) -> (r: Result<
        (),
        LedgerError,
    >)
        requires
            old(dag).wf(),
        ensures
            final(dag).wf(),
            ({
                let nv = self.spec_validators().len() as int;
                let valid = spec_valid_transaction(old(dag).tx_map(), tx@);
                let votes = if valid {
                    nv
                } else {
                    0
                };
                &&& (r is Ok <==> votes > nv / 2 && !old(dag).tx_map().contains_key(tx@.id))
                &&& (votes > nv / 2 && old(dag).tx_map().contains_key(tx@.id) ==> r == Err::<
                    (),
                    LedgerError,
                >(LedgerError::ValidationFailed))
                &&& (!(votes > nv / 2) ==> r == Err::<(), LedgerError>(
                    LedgerError::ConsensusRejected {
                        votes: if valid {
                            nv as usize
                        } else {
                            0
                        },
                        required: (nv / 2 + 1) as usize,
                    },
                ))
                &&& (r is Err ==> *final(dag) == *old(dag))
                &&& (r is Ok ==> {
                    let l = spec_target_layer(old(dag).layers_view(), tx@);
                    &&& final(dag).tx_seq() == old(dag).tx_seq().push(tx@)
                    &&& final(dag).tx_map() == old(dag).tx_map().insert(tx@.id, tx@)
                    &&& layer_has(final(dag).layers_view(), l, tx@.id)
                })
            }),
    {
        let ghost g0 = *dag;
        let ghost valid = spec_valid_transaction(g0.tx_map(), tx@);
        let n = self.validators.len();
        let mut votes: usize = 0;
        let mut i: usize = 0;
        while i < n
            invariant
                *dag == g0,
                g0.wf(),
                valid == spec_valid_transaction(g0.tx_map(), tx@),
                0 <= i <= n,
                votes == if valid {
                    i as int
                } else {
                    0
                },
            decreases n - i,
        {
            // Each validator evaluates independently with its own cache.
            let mut cache = ValidationCache::new();
            if dag.validate_transaction(tx, &mut cache) {
                votes = votes + 1;
            }
            i = i + 1;
        }
        if quorum_met(votes, n) {
            dag.add_transaction(tx.clone())
        } else {
            Err(LedgerError::ConsensusRejected { votes, required: n / 2 + 1 })
        }
    }
}

} // verus!
