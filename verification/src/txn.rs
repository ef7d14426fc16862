//! The transaction record and its mathematical view.

use vstd::prelude::*;

verus! {

/// Status of a stored transaction. The only transition is `Valid` to
/// `Revoked`, and `Revoked` is terminal.
#[derive(Clone, Copy, Debug, PartialEq, Eq, Structural)]
pub enum TxStatus {
    Valid,
    Revoked,
}

/// A reference to a named contract handler together with its payload.
#[derive(Debug, PartialEq)]
pub struct ContractRef {
    pub name: String,
    pub payload: String,
}

/// Mathematical view of a [`ContractRef`].
pub struct ContractView {
    pub name: Seq<char>,
    pub payload: Seq<char>,
}

impl View for ContractRef {
    type V = ContractView;

    open spec fn view(&self) -> ContractView {
        ContractView { name: self.name@, payload: self.payload@ }
    }
}

impl DeepView for ContractRef {
    type V = ContractView;

    open spec fn deep_view(&self) -> ContractView {
        self.view()
    }
}

/// A ledger transaction. Immutable once committed, except for `status`
/// (flipped once by revocation) and the optional `contract` attachment.
///
/// `amount` is a scaled integer: monetary values are carried in their
/// smallest unit so that no rounding can occur.
#[derive(Debug, PartialEq)]
pub struct Transaction {
    pub id: String,
    pub timestamp: u64,
    pub sender: String,
    pub receiver: String,
    pub amount: u64,
    pub signature: Vec<u8>,
    pub parents: Vec<String>,
    pub public_key: Vec<u8>,
    pub status: TxStatus,
    pub priority: u8,
    pub contract: Option<ContractRef>,
}

/// Mathematical view of a [`Transaction`].
pub struct TxView {
    pub id: Seq<char>,
    pub timestamp: u64,
    pub sender: Seq<char>,
    pub receiver: Seq<char>,
    pub amount: u64,
    pub signature: Seq<u8>,
    pub parents: Seq<Seq<char>>,
    pub public_key: Seq<u8>,
    pub status: TxStatus,
    pub priority: u8,
    pub contract: Option<ContractView>,
}

impl View for Transaction {
    type V = TxView;

    open spec fn view(&self) -> TxView {
        TxView {
            id: self.id@,
            timestamp: self.timestamp,
            sender: self.sender@,
            receiver: self.receiver@,
            amount: self.amount,
            signature: self.signature@,
            parents: self.parents.deep_view(),
            public_key: self.public_key@,
            status: self.status,
            priority: self.priority,
            contract: match self.contract {
                Some(ref c) => Some(c@),
                None => None,
            },
        }
    }
}

impl DeepView for Transaction {
    type V = TxView;

    open spec fn deep_view(&self) -> TxView {
        self.view()
    }
}

impl Clone for ContractRef {
    /// Clones preserve the value exactly.
    fn clone(&self) -> (res: Self)
        ensures
            res@ == self@,
    {
        ContractRef { name: self.name.clone(), payload: self.payload.clone() }
    }
}

/// Copies a vector of id strings, preserving the sequence of values.
pub fn clone_id_vec(v: &Vec<String>) -> (res: Vec<String>)
    ensures
        res@ == v@,
        res.deep_view() == v.deep_view(),
{
    let mut out: Vec<String> = Vec::new();
    let n = v.len();
    let mut i: usize = 0;
    while i < n
        invariant
            n == v@.len(),
            i <= n,
            out@ == v@.subrange(0, i as int),
        decreases n - i,
    {
        out.push(v[i].clone());
        i = i + 1;
    }
    assert(out@ == v@);
    assert(out.deep_view() =~= v.deep_view());
    out
}

/// Copies a byte vector.
pub fn clone_bytes(v: &Vec<u8>) -> (res: Vec<u8>)
    ensures
        res@ == v@,
{
    vstd::slice::slice_to_vec(v.as_slice())
}

/// Compares two byte vectors by contents.
pub fn bytes_equal(a: &Vec<u8>, b: &Vec<u8>) -> (r: bool)
    ensures
        r == (a@ == b@),
{
    let n = a.len();
    if n != b.len() {
        return false;
    }
    let mut i: usize = 0;
    while i < n
        invariant
            n == a@.len(),
            n == b@.len(),
            0 <= i <= n,
            forall|j: int| 0 <= j < i ==> a@[j] == b@[j],
        decreases n - i,
    {
        if a[i] != b[i] {
            return false;
        }
        i = i + 1;
    }
    proof {
        assert(a@ =~= b@);
    }
    true
}

/// Compares two id vectors by contents.
pub fn id_vec_equal(a: &Vec<String>, b: &Vec<String>) -> (r: bool)
    ensures
        r == (a.deep_view() == b.deep_view()),
{
    let n = a.len();
    if n != b.len() {
        proof {
            assert(a.deep_view().len() != b.deep_view().len());
        }
        return false;
    }
    let mut i: usize = 0;
    while i < n
        invariant
            n == a@.len(),
            n == b@.len(),
            0 <= i <= n,
            forall|j: int| 0 <= j < i ==> a.deep_view()[j] == b.deep_view()[j],
        decreases n - i,
    {
        if !(a[i] == b[i]) {
            proof {
                assert(a.deep_view()[i as int] != b.deep_view()[i as int]);
            }
            return false;
        }
        i = i + 1;
    }
    proof {
        assert(a.deep_view() =~= b.deep_view());
    }
    true
}

/// Compares two transactions field by field; true exactly when their views
/// coincide.
pub fn tx_equal(a: &Transaction, b: &Transaction) -> (r: bool)
    ensures
        r == (a@ == b@),
{
    let contracts_eq = match (&a.contract, &b.contract) {
        (None, None) => true,
        (Some(x), Some(y)) => x.name == y.name && x.payload == y.payload,
        _ => false,
    };
    proof {
        assert(contracts_eq == (a@.contract == b@.contract));
    }
    let r = a.id == b.id && a.timestamp == b.timestamp && a.sender == b.sender && a.receiver
        == b.receiver && a.amount == b.amount && bytes_equal(&a.signature, &b.signature)
        && id_vec_equal(&a.parents, &b.parents) && bytes_equal(&a.public_key, &b.public_key)
        && a.status == b.status && a.priority == b.priority && contracts_eq;
    proof {
        if r {
            assert(a@ == b@);
        }
        if a@ == b@ {
            assert(r);
        }
    }
    r
}

impl Clone for Transaction {
    /// Clones preserve the view exactly.
    fn clone(&self) -> (res: Self)
        ensures
            res@ == self@,
    {
        let res = Transaction {
            id: self.id.clone(),
            timestamp: self.timestamp,
            sender: self.sender.clone(),
            receiver: self.receiver.clone(),
            amount: self.amount,
            signature: clone_bytes(&self.signature),
            parents: clone_id_vec(&self.parents),
            public_key: clone_bytes(&self.public_key),
            status: self.status,
            priority: self.priority,
            contract: match self.contract {
                Some(ref c) => Some(c.clone()),
                None => None,
            },
        };
        assert(res@ == self@);
        res
    }
}

} // verus!
