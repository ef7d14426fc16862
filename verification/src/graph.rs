//! The ledger graph: owns the stored transactions and the layer index, and
//! exposes insertion, lookup, revocation, contract attachment and the
//! recursive validator.
//!
//! Transactions are held in insertion order; the graph's mathematical model
//! is the map from transaction id to transaction view. Layers are addressed
//! by membership, never by stored index, so empty layers may be compacted
//! out without invalidating references held elsewhere.
//!
//! The graph is the single owner of mutable ledger state: every mutation
//! takes an exclusive borrow, so two commits, or a commit and a revocation,
//! can never interleave, and readers never observe a partially applied
//! commit.

use vstd::prelude::*;
use vstd::seq_lib::seq_to_set_is_finite;

use crate::errors::LedgerError;
use crate::txn::{ContractRef, Transaction, TxStatus, TxView};
use crate::validation::{
    chain_down, id_coherent, lemma_chain_down_step, lemma_parents_validate_each,
    lemma_parents_validate_intro, lemma_validates_visiting_irrelevant, parents_validate,
    spec_valid_transaction, tx_validates, unvisited_count,
};

verus! {

broadcast use seq_to_set_is_finite;

/// No two stored transactions share an id.
pub open spec fn ids_distinct(s: Seq<TxView>) -> bool {
    forall|i: int, j: int| 0 <= i < j < s.len() ==> (#[trigger] s[i]).id != (#[trigger] s[j]).id
}

/// The map from id to transaction view induced by a stored sequence. Later
/// entries shadow earlier ones, which never happens under [`ids_distinct`].
pub open spec fn map_of(s: Seq<TxView>) -> Map<Seq<char>, TxView>
    decreases s.len(),
{
    if s.len() == 0 {
        Map::empty()
    } else {
        map_of(s.drop_last()).insert(s.last().id, s.last())
    }
}

/// The domain of [`map_of`] is finite and holds exactly the stored ids.
pub proof fn lemma_map_of_contains(s: Seq<TxView>)
    ensures
        map_of(s).dom().finite(),
        forall|k: Seq<char>|
            map_of(s).contains_key(k) <==> exists|i: int| 0 <= i < s.len() && (#[trigger] s[i]).id
                == k,
    decreases s.len(),
{
    if s.len() == 0 {
    } else {
        lemma_map_of_contains(s.drop_last());
        assert forall|k: Seq<char>| map_of(s).contains_key(k) implies exists|i: int|
            0 <= i < s.len() && (#[trigger] s[i]).id == k by {
            if k == s.last().id {
                assert(s[s.len() - 1].id == k);
            } else {
                let i = choose|i: int| 0 <= i < s.drop_last().len() && (#[trigger] s.drop_last()[i]).id == k;
                assert(s[i].id == k);
            }
        }
        assert forall|k: Seq<char>|
            (exists|i: int| 0 <= i < s.len() && (#[trigger] s[i]).id == k) implies map_of(
            s,
        ).contains_key(k) by {
            let i = choose|i: int| 0 <= i < s.len() && (#[trigger] s[i]).id == k;
            if i < s.len() - 1 {
                assert(s.drop_last()[i].id == k);
            }
        }
    }
}

/// Under distinct ids, the map sends each stored id to its own transaction.
pub proof fn lemma_map_of_index(s: Seq<TxView>, i: int)
    requires
        ids_distinct(s),
        0 <= i < s.len(),
    ensures
        map_of(s).contains_key(s[i].id),
        map_of(s)[s[i].id] == s[i],
    decreases s.len(),
{
    if i == s.len() - 1 {
    } else {
        assert(ids_distinct(s.drop_last())) by {
            assert forall|a: int, b: int| 0 <= a < b < s.drop_last().len() implies (
            #[trigger] s.drop_last()[a]).id != (#[trigger] s.drop_last()[b]).id by {
                assert(s.drop_last()[a] == s[a]);
                assert(s.drop_last()[b] == s[b]);
            }
        }
        assert(s.drop_last()[i] == s[i]);
        lemma_map_of_index(s.drop_last(), i);
        assert(s.last().id != s[i].id);
    }
}

/// Every value of [`map_of`] is keyed by its own id.
pub proof fn lemma_map_of_coherent(s: Seq<TxView>)
    ensures
        id_coherent(map_of(s)),
    decreases s.len(),
{
    if s.len() > 0 {
        lemma_map_of_coherent(s.drop_last());
    }
}

/// Pushing a transaction extends the induced map at its id.
pub proof fn lemma_map_of_push(s: Seq<TxView>, t: TxView)
    ensures
        map_of(s.push(t)) == map_of(s).insert(t.id, t),
{
    assert(s.push(t).drop_last() =~= s);
    assert(s.push(t).last() == t);
}

/// Replacing the entry at `i` with a transaction of the same id updates the
/// induced map at that id and keeps the ids distinct.
pub proof fn lemma_map_of_update(s: Seq<TxView>, i: int, t2: TxView)
    requires
        ids_distinct(s),
        0 <= i < s.len(),
        t2.id == s[i].id,
    ensures
        map_of(s.update(i, t2)) == map_of(s).insert(t2.id, t2),
        ids_distinct(s.update(i, t2)),
    decreases s.len(),
{
    let s2 = s.update(i, t2);
    assert(ids_distinct(s2)) by {
        assert forall|a: int, b: int| 0 <= a < b < s2.len() implies (#[trigger] s2[a]).id != (
        #[trigger] s2[b]).id by {
            assert(s2[a].id == s[a].id);
            assert(s2[b].id == s[b].id);
        }
    }
    if i == s.len() - 1 {
        assert(s2.drop_last() =~= s.drop_last());
        assert(s2.last() == t2);
        assert(map_of(s2) == map_of(s.drop_last()).insert(t2.id, t2));
        assert(map_of(s) == map_of(s.drop_last()).insert(s.last().id, s.last()));
        assert(map_of(s).insert(t2.id, t2) =~= map_of(s.drop_last()).insert(t2.id, t2));
    } else {
        assert(ids_distinct(s.drop_last())) by {
            assert forall|a: int, b: int| 0 <= a < b < s.drop_last().len() implies (
            #[trigger] s.drop_last()[a]).id != (#[trigger] s.drop_last()[b]).id by {
                assert(s.drop_last()[a] == s[a]);
                assert(s.drop_last()[b] == s[b]);
            }
        }
        assert(s.drop_last()[i] == s[i]);
        lemma_map_of_update(s.drop_last(), i, t2);
        assert(s2.drop_last() =~= s.drop_last().update(i, t2));
        assert(s2.last() == s.last());
        assert(s.last().id != t2.id);
        assert(map_of(s2) == map_of(s.drop_last()).insert(t2.id, t2).insert(s.last().id, s.last()));
        assert(map_of(s.drop_last()).insert(t2.id, t2).insert(s.last().id, s.last()) =~= map_of(
            s.drop_last(),
        ).insert(s.last().id, s.last()).insert(t2.id, t2));
    }
}

/// The graph map after revoking `id`: the entry's status becomes `Revoked`
/// and every other field, and every other entry, is unchanged. Revoking an
/// absent id changes nothing.
pub open spec fn spec_revoke(m: Map<Seq<char>, TxView>, id: Seq<char>) -> Map<Seq<char>, TxView> {
    if m.contains_key(id) {
        m.insert(id, TxView { status: TxStatus::Revoked, ..m[id] })
    } else {
        m
    }
}

/// Revocation is idempotent: revoking an already-revoked id changes nothing
/// further, in status or in any other field of any entry.
pub proof fn lemma_revoke_idempotent(m: Map<Seq<char>, TxView>, id: Seq<char>)
    ensures
        spec_revoke(spec_revoke(m, id), id) == spec_revoke(m, id),
{
    if m.contains_key(id) {
        assert(spec_revoke(spec_revoke(m, id), id) =~= spec_revoke(m, id));
    }
}

/// The graph map after attaching contract `c` to `id`: the entry's contract
/// is set (or overwritten), everything else unchanged. Attaching to an
/// absent id changes nothing.
pub open spec fn spec_attach(
    m: Map<Seq<char>, TxView>,
    id: Seq<char>,
    c: crate::txn::ContractView,
) -> Map<Seq<char>, TxView> {
    if m.contains_key(id) {
        m.insert(id, TxView { contract: Some(c), ..m[id] })
    } else {
        m
    }
}

/// Membership of `id` in the layer at index `l`.
pub open spec fn layer_has(lv: Seq<Seq<Seq<char>>>, l: int, id: Seq<char>) -> bool {
    0 <= l < lv.len() && lv[l].contains(id)
}

/// `id` belongs to some layer.
pub open spec fn in_some_layer(lv: Seq<Seq<Seq<char>>>, id: Seq<char>) -> bool {
    exists|l: int| layer_has(lv, l, id)
}

/// Every id placed in a layer names a stored transaction.
pub open spec fn layers_subset(s: Seq<TxView>, lv: Seq<Seq<Seq<char>>>) -> bool {
    forall|l: int, k: int|
        0 <= l < lv.len() && 0 <= k < lv[l].len() ==> map_of(s).contains_key(#[trigger] lv[l][k])
}

/// Every stored transaction sits in some layer.
pub open spec fn layers_cover(s: Seq<TxView>, lv: Seq<Seq<Seq<char>>>) -> bool {
    forall|i: int| 0 <= i < s.len() ==> in_some_layer(lv, (#[trigger] s[i]).id)
}

/// No id occupies two layer positions.
pub open spec fn layers_unique(lv: Seq<Seq<Seq<char>>>) -> bool {
    forall|l1: int, k1: int, l2: int, k2: int|
        0 <= l1 < lv.len() && 0 <= k1 < lv[l1].len() && 0 <= l2 < lv.len() && 0 <= k2 < lv[l2].len()
            && (#[trigger] lv[l1][k1]) == (#[trigger] lv[l2][k2]) ==> l1 == l2 && k1 == k2
}

/// No layer is empty.
pub open spec fn layers_nonempty(lv: Seq<Seq<Seq<char>>>) -> bool {
    forall|l: int| 0 <= l < lv.len() ==> (#[trigger] lv[l]).len() > 0
}

/// The layer index holding `id`, or zero when none does (the executable
/// lookup's default).
pub open spec fn spec_layer_slot(lv: Seq<Seq<Seq<char>>>, id: Seq<char>) -> int {
    if in_some_layer(lv, id) {
        choose|l: int| layer_has(lv, l, id)
    } else {
        0
    }
}

/// Under unique layer membership, [`spec_layer_slot`] is the one index whose
/// layer holds the id.
pub proof fn lemma_layer_slot_is(lv: Seq<Seq<Seq<char>>>, id: Seq<char>, l: int)
    requires
        layers_unique(lv),
        layer_has(lv, l, id),
    ensures
        spec_layer_slot(lv, id) == l,
{
    let l2 = choose|j: int| layer_has(lv, j, id);
    assert(layer_has(lv, l2, id));
    let k1 = choose|k: int| 0 <= k < lv[l].len() && lv[l][k] == id;
    let k2 = choose|k: int| 0 <= k < lv[l2].len() && lv[l2][k] == id;
    assert(lv[l][k1] == lv[l2][k2]);
}

/// Running maximum of parent layer plus one, folded left to right from
/// `acc`. A parent missing from every layer counts as layer zero.
pub open spec fn layer_bound_from(lv: Seq<Seq<Seq<char>>>, ps: Seq<Seq<char>>, acc: int) -> int
    decreases ps.len(),
{
    if ps.len() == 0 {
        acc
    } else {
        let c = spec_layer_slot(lv, ps[0]) + 1;
        layer_bound_from(lv, ps.drop_first(), if c > acc { c } else { acc })
    }
}

/// The layer assigned to a newly committed transaction: zero for a root,
/// one more than the maximum layer of its parents otherwise.
pub open spec fn spec_target_layer(lv: Seq<Seq<Seq<char>>>, t: TxView) -> int {
    if t.parents.len() == 0 {
        0
    } else {
        layer_bound_from(lv, t.parents, 0)
    }
}

/// The layer assigned to a transaction with exactly two parents sitting at
/// layers `l1` and `l2`: one more than the deeper of the two.
pub proof fn lemma_two_parent_layer(
    lv: Seq<Seq<Seq<char>>>,
    t: TxView,
    p1: Seq<char>,
    p2: Seq<char>,
    l1: int,
    l2: int,
)
    requires
        layers_unique(lv),
        t.parents == seq![p1, p2],
        layer_has(lv, l1, p1),
        layer_has(lv, l2, p2),
    ensures
        spec_target_layer(lv, t) == if l1 >= l2 {
            l1 + 1
        } else {
            l2 + 1
        },
{
    lemma_layer_slot_is(lv, p1, l1);
    lemma_layer_slot_is(lv, p2, l2);
    assert(t.parents[0] == p1);
    assert(t.parents.drop_first() =~= seq![p2]);
    assert(t.parents.drop_first()[0] == p2);
    assert(t.parents.drop_first().drop_first() =~= Seq::<Seq<char>>::empty());
    assert(l1 >= 0 && l2 >= 0);
    let a1: int = l1 + 1;
    let a2: int = if l2 + 1 > a1 {
        l2 + 1
    } else {
        a1
    };
    assert(layer_bound_from(lv, t.parents, 0) == layer_bound_from(lv, t.parents.drop_first(), a1));
    assert(layer_bound_from(lv, t.parents.drop_first(), a1) == layer_bound_from(
        lv,
        t.parents.drop_first().drop_first(),
        a2,
    ));
    assert(layer_bound_from(lv, t.parents.drop_first().drop_first(), a2) == a2);
}

/// The layering invariant: each stored transaction sits at a layer one more
/// than the maximum layer of its parents, or at layer zero for a root.
pub open spec fn layers_consistent(s: Seq<TxView>, lv: Seq<Seq<Seq<char>>>) -> bool {
    forall|i: int|
        0 <= i < s.len() ==> spec_layer_slot(lv, (#[trigger] s[i]).id) == spec_target_layer(
            lv,
            s[i],
        )
}

/// Ids other than the new one keep their layer slot across the insertion.
proof fn lemma_slot_stable(
    s0: Seq<TxView>,
    lv0: Seq<Seq<Seq<char>>>,
    t: TxView,
    l: int,
    lv1: Seq<Seq<Seq<char>>>,
    id: Seq<char>,
)
    requires
        ids_distinct(s0),
        layers_subset(s0, lv0),
        layers_cover(s0, lv0),
        layers_unique(lv0),
        layers_nonempty(lv0),
        !map_of(s0).contains_key(t.id),
        0 <= l <= lv0.len(),
        l < lv0.len() ==> lv1 == lv0.update(l, lv0[l].push(t.id)),
        l == lv0.len() ==> lv1 == lv0.push(seq![t.id]),
        id != t.id,
    ensures
        spec_layer_slot(lv1, id) == spec_layer_slot(lv0, id),
{
    lemma_layers_after_insert(s0, lv0, t, l, lv1);
    assert forall|j: int| layer_has(lv0, j, id) implies layer_has(lv1, j, id) by {
        let k = choose|k: int| 0 <= k < lv0[j].len() && lv0[j][k] == id;
        if j == l {
            assert(lv1[j][k] == id);
        } else {
            assert(lv1[j] == lv0[j]);
        }
    }
    assert forall|j: int| layer_has(lv1, j, id) implies layer_has(lv0, j, id) by {
        let k = choose|k: int| 0 <= k < lv1[j].len() && lv1[j][k] == id;
        if j == l {
            if l < lv0.len() {
                assert(lv1[j] == lv0[l].push(t.id));
                assert(k < lv0[l].len());
                assert(lv0[l][k] == id);
            } else {
                assert(lv1[j] == seq![t.id]);
            }
        } else {
            assert(lv1[j] == lv0[j]);
        }
    }
    if in_some_layer(lv0, id) {
        let j = choose|j: int| layer_has(lv0, j, id);
        lemma_layer_slot_is(lv0, id, j);
        lemma_layer_slot_is(lv1, id, j);
    } else {
        assert(!in_some_layer(lv1, id));
    }
}

/// A parent fold over ids other than the new one is unchanged by the
/// insertion.
proof fn lemma_bound_stable(
    s0: Seq<TxView>,
    lv0: Seq<Seq<Seq<char>>>,
    t: TxView,
    l: int,
    lv1: Seq<Seq<Seq<char>>>,
    ps: Seq<Seq<char>>,
    acc: int,
)
    requires
        ids_distinct(s0),
        layers_subset(s0, lv0),
        layers_cover(s0, lv0),
        layers_unique(lv0),
        layers_nonempty(lv0),
        !map_of(s0).contains_key(t.id),
        0 <= l <= lv0.len(),
        l < lv0.len() ==> lv1 == lv0.update(l, lv0[l].push(t.id)),
        l == lv0.len() ==> lv1 == lv0.push(seq![t.id]),
        forall|i: int| 0 <= i < ps.len() ==> #[trigger] ps[i] != t.id,
    ensures
        layer_bound_from(lv1, ps, acc) == layer_bound_from(lv0, ps, acc),
    decreases ps.len(),
{
    if ps.len() > 0 {
        lemma_slot_stable(s0, lv0, t, l, lv1, ps[0]);
        assert forall|i: int| 0 <= i < ps.drop_first().len() implies #[trigger] ps.drop_first()[i]
            != t.id by {
            assert(ps.drop_first()[i] == ps[i + 1]);
        }
        let c = spec_layer_slot(lv0, ps[0]) + 1;
        lemma_bound_stable(
            s0,
            lv0,
            t,
            l,
            lv1,
            ps.drop_first(),
            if c > acc {
                c
            } else {
                acc
            },
        );
    }
}

/// Commits preserve the layering invariant: when a fresh transaction whose
/// id no stored transaction (and not the transaction itself) names as a
/// parent is placed at its target layer, every stored transaction still
/// sits one layer above its deepest parent, and so does the new one.
pub proof fn lemma_commit_preserves_layer_consistency(
    s0: Seq<TxView>,
    lv0: Seq<Seq<Seq<char>>>,
    t: TxView,
    lv1: Seq<Seq<Seq<char>>>,
)
    requires
        ids_distinct(s0),
        layers_subset(s0, lv0),
        layers_cover(s0, lv0),
        layers_unique(lv0),
        layers_nonempty(lv0),
        layers_consistent(s0, lv0),
        !map_of(s0).contains_key(t.id),
        forall|i: int| 0 <= i < s0.len() ==> !(#[trigger] s0[i]).parents.contains(t.id),
        !t.parents.contains(t.id),
        0 <= spec_target_layer(lv0, t) <= lv0.len(),
        spec_target_layer(lv0, t) < lv0.len() ==> lv1 == lv0.update(
            spec_target_layer(lv0, t),
            lv0[spec_target_layer(lv0, t)].push(t.id),
        ),
        spec_target_layer(lv0, t) == lv0.len() ==> lv1 == lv0.push(seq![t.id]),
    ensures
        layers_consistent(s0.push(t), lv1),
{
    let l = spec_target_layer(lv0, t);
    let s1 = s0.push(t);
    lemma_layers_after_insert(s0, lv0, t, l, lv1);
    assert forall|i: int| 0 <= i < s1.len() implies spec_layer_slot(lv1, (#[trigger] s1[i]).id)
        == spec_target_layer(lv1, s1[i]) by {
        if i < s0.len() {
            assert(s1[i] == s0[i]);
            assert(s0[i].id != t.id) by {
                lemma_map_of_contains(s0);
            }
            lemma_slot_stable(s0, lv0, t, l, lv1, s0[i].id);
            assert forall|q: int| 0 <= q < s0[i].parents.len() implies #[trigger] s0[i].parents[q]
                != t.id by {
                if s0[i].parents[q] == t.id {
                    assert(s0[i].parents.contains(t.id));
                }
            }
            if s0[i].parents.len() > 0 {
                lemma_bound_stable(s0, lv0, t, l, lv1, s0[i].parents, 0);
            }
        } else {
            assert(s1[i] == t);
            assert(layer_has(lv1, l, t.id));
            lemma_layer_slot_is(lv1, t.id, l);
            assert forall|q: int| 0 <= q < t.parents.len() implies #[trigger] t.parents[q]
                != t.id by {
                if t.parents[q] == t.id {
                    assert(t.parents.contains(t.id));
                }
            }
            if t.parents.len() > 0 {
                lemma_bound_stable(s0, lv0, t, l, lv1, t.parents, 0);
            }
        }
    }
}

/// The ledger graph: the stored transactions, in insertion order, and the
/// sequence of layers, each a collection of transaction ids at that depth.
#[derive(Debug)]
pub struct DAG {
    pub transactions: Vec<Transaction>,
    pub layers: Vec<Vec<String>>,
}

impl DAG {
    /// The stored transactions as mathematical views, in insertion order.
    pub open spec fn tx_seq(self) -> Seq<TxView> {
        self.transactions.deep_view()
    }

    /// The graph as a map from id to transaction view.
    pub open spec fn tx_map(self) -> Map<Seq<char>, TxView> {
        map_of(self.tx_seq())
    }

    /// The layers as sequences of id sequences.
    pub open spec fn layers_view(self) -> Seq<Seq<Seq<char>>> {
        self.layers.deep_view()
    }

    /// Well-formedness: ids are unique; every id placed in a layer is
    /// stored; every stored transaction sits in exactly one layer position;
    /// and no layer is empty.
    pub open spec fn wf(self) -> bool {
        let s = self.tx_seq();
        let lv = self.layers_view();
        &&& ids_distinct(s)
        &&& layers_subset(s, lv)
        &&& layers_cover(s, lv)
        &&& layers_unique(lv)
        &&& layers_nonempty(lv)
    }

    /// Creates an empty graph.
    pub fn new() -> (r: DAG)
        ensures
            r.wf(),
            r.tx_seq() == Seq::<TxView>::empty(),
            r.tx_map() == Map::<Seq<char>, TxView>::empty(),
            r.layers_view() == Seq::<Seq<Seq<char>>>::empty(),
    {
        let r = DAG { transactions: Vec::new(), layers: Vec::new() };
        proof {
            assert(r.tx_seq() =~= Seq::<TxView>::empty());
            assert(r.layers_view() =~= Seq::<Seq<Seq<char>>>::empty());
            assert(r.tx_map() =~= Map::<Seq<char>, TxView>::empty());
        }
        r
    }

    /// Index of the stored transaction with the given id, if any.
    fn find_index(&self, id: &String) -> (r: Option<usize>)
        requires
            ids_distinct(self.tx_seq()),
        ensures
            match r {
                Some(i) => {
                    &&& i < self.transactions.len()
                    &&& self.tx_seq()[i as int].id == id@
                    &&& self.tx_map().contains_key(id@)
                    &&& self.tx_map()[id@] == self.tx_seq()[i as int]
                },
                None => !self.tx_map().contains_key(id@),
            },
    {
        let n = self.transactions.len();
        let mut i: usize = 0;
        while i < n
            invariant
                n == self.transactions.len(),
                0 <= i <= n,
                ids_distinct(self.tx_seq()),
                forall|j: int| 0 <= j < i ==> (#[trigger] self.tx_seq()[j]).id != id@,
            decreases n - i,
        {
            if self.transactions[i].id == *id {
                proof {
                    lemma_map_of_index(self.tx_seq(), i as int);
                }
                return Some(i);
            }
            i = i + 1;
        }
        proof {
            lemma_map_of_contains(self.tx_seq());
        }
        None
    }

    /// Looks a stored transaction up by id.
    pub fn get_transaction(&self, id: &String) -> (r: Option<&Transaction>)
        requires
            self.wf(),
        ensures
            match r {
                Some(t) => self.tx_map().contains_key(id@) && t@ == self.tx_map()[id@],
                None => !self.tx_map().contains_key(id@),
            },
    {
        match self.find_index(id) {
            Some(i) => Some(&self.transactions[i]),
            None => None,
        }
    }

    /// Number of stored transactions.
    pub fn transaction_count(&self) -> (r: usize)
        ensures
            r == self.tx_seq().len(),
    {
        self.transactions.len()
    }

    /// The index of the layer holding the given id: a linear scan over the
    /// layer sequence, by membership.
    pub fn get_layer(&self, tx_id: &String) -> (r: Option<usize>)
        ensures
            match r {
                Some(l) => layer_has(self.layers_view(), l as int, tx_id@),
                None => !in_some_layer(self.layers_view(), tx_id@),
            },
    {
        let n = self.layers.len();
        let mut l: usize = 0;
        while l < n
            invariant
                n == self.layers.len(),
                0 <= l <= n,
                forall|j: int| 0 <= j < l ==> !(#[trigger] self.layers_view()[j]).contains(tx_id@),
            decreases n - l,
        {
            if contains_id(&self.layers[l], tx_id) {
                return Some(l);
            }
            l = l + 1;
        }
        None
    }
}

impl DAG {
    /// One step of the recursive ancestry check: validates `tx` against the
    /// graph with the given visiting stack, memoizing verdicts for stored
    /// ancestors in `cache`. The cache only grows, and every entry it gains
    /// is a stored ancestor of `tx` with its true verdict.
    fn validate_rec(&self, tx: &Transaction, visiting: &Vec<String>, cache: &mut ValidationCache) -> (r: bool)
        requires
            ids_distinct(self.tx_seq()),
            old(cache).wf_for(self.tx_map()),
            chain_down(self.tx_map(), visiting.deep_view(), tx@),
        ensures
            final(cache).wf_for(self.tx_map()),
            r == tx_validates(self.tx_map(), tx@, visiting.deep_view().to_set()),
            old(cache).entries_view().len() <= final(cache).entries_view().len(),
            forall|i: int|
                0 <= i < old(cache).entries_view().len() ==> final(cache).entries_view()[i] == (
                #[trigger] old(cache).entries_view()[i]),
            forall|i: int|
                old(cache).entries_view().len() <= i < final(cache).entries_view().len() ==> {
                    let e = #[trigger] final(cache).entries_view()[i];
                    &&& self.tx_map().contains_key(e.0.id)
                    &&& e.0 == self.tx_map()[e.0.id]
                    &&& crate::validation::ancestor_id_of(self.tx_map(), tx@, e.0.id)
                },
        decreases unvisited_count(self.tx_map(), visiting.deep_view().to_set()),
    {
        let ghost m = self.tx_map();
        let ghost vs = visiting.deep_view();
        let ghost vset = vs.to_set();
        proof {
            lemma_map_of_contains(self.tx_seq());
            lemma_map_of_coherent(self.tx_seq());
            assert(vset.subset_of(m.dom())) by {
                assert forall|y: Seq<char>| vset.contains(y) implies m.contains_key(y) by {
                    let ix = choose|ix: int| 0 <= ix < vs.len() && vs[ix] == y;
                    assert(m.contains_key(vs[ix]));
                }
            }
        }
        let n = tx.parents.len();
        let mut k: usize = 0;
        while k < n
            invariant
                ids_distinct(self.tx_seq()),
                m == self.tx_map(),
                vs == visiting.deep_view(),
                vset == vs.to_set(),
                m.dom().finite(),
                id_coherent(m),
                vset.subset_of(m.dom()),
                cache.wf_for(m),
                chain_down(m, vs, tx@),
                n == tx@.parents.len(),
                0 <= k <= n,
                old(cache).entries_view().len() <= cache.entries_view().len(),
                forall|i: int|
                    0 <= i < old(cache).entries_view().len() ==> #[trigger] cache.entries_view()[i]
                        == old(cache).entries_view()[i],
                forall|i: int|
                    old(cache).entries_view().len() <= i < cache.entries_view().len() ==> {
                        let e = #[trigger] cache.entries_view()[i];
                        &&& m.contains_key(e.0.id)
                        &&& e.0 == m[e.0.id]
                        &&& crate::validation::ancestor_id_of(m, tx@, e.0.id)
                    },
                forall|i: int|
                    0 <= i < k ==> {
                        &&& m.contains_key(#[trigger] tx@.parents[i])
                        &&& m[tx@.parents[i]].status == TxStatus::Valid
                        &&& !vset.contains(tx@.parents[i])
                        &&& tx_validates(m, m[tx@.parents[i]], vset.insert(tx@.parents[i]))
                    },
            decreases n - k,
        {
            let p_id = &tx.parents[k];
            proof {
                assert(tx@.parents[k as int] == p_id@);
                assert(tx@.parents.contains(p_id@)) by {
                    assert(tx@.parents[k as int] == p_id@);
                }
            }
            match self.find_index(p_id) {
                None => {
                    proof {
                        if parents_validate(m, tx@.parents, vset) {
                            lemma_parents_validate_each(m, tx@.parents, vset);
                            assert(m.contains_key(tx@.parents[k as int]));
                        }
                    }
                    return false;
                },
                Some(pi) => {
                    let parent = &self.transactions[pi];
                    proof {
                        assert(parent@ == m[p_id@]);
                    }
                    if parent.status == TxStatus::Revoked {
                        proof {
                            if parents_validate(m, tx@.parents, vset) {
                                lemma_parents_validate_each(m, tx@.parents, vset);
                                assert(m[tx@.parents[k as int]].status == TxStatus::Valid);
                            }
                        }
                        return false;
                    }
                    if contains_id(visiting, p_id) {
                        // Fail closed: this parent is already being visited,
                        // so the ancestry loops back on itself.
                        proof {
                            assert(vset.contains(p_id@));
                            if parents_validate(m, tx@.parents, vset) {
                                lemma_parents_validate_each(m, tx@.parents, vset);
                                assert(!vset.contains(tx@.parents[k as int]));
                            }
                        }
                        return false;
                    }
                    proof {
                        lemma_chain_down_step(m, vs, tx@, p_id@);
                    }
                    let cached = cache.lookup_tx(parent);
                    match cached {
                        Some(b) => {
                            proof {
                                lemma_validates_visiting_irrelevant(m, p_id@, vset.insert(p_id@));
                            }
                            if !b {
                                proof {
                                    if parents_validate(m, tx@.parents, vset) {
                                        lemma_parents_validate_each(m, tx@.parents, vset);
                                    }
                                }
                                return false;
                            }
                        },
                        None => {
                            let mut deeper = crate::txn::clone_id_vec(visiting);
                            deeper.push(p_id.clone());
                            proof {
                                assert(deeper.deep_view() =~= vs.push(p_id@));
                                m.dom().lemma_set_insert_diff_decreases(vset, p_id@);
                            }
                            let ghost pre_rec = cache.entries_view();
                            let verdict = self.validate_rec(parent, &deeper, cache);
                            let ghost post_call = cache.entries_view();
                            cache.record_tx(parent, verdict);
                            proof {
                                lemma_validates_visiting_irrelevant(m, p_id@, vset.insert(p_id@));
                                let now = cache.entries_view();
                                let base = old(cache).entries_view().len() as int;
                                assert(now == post_call.push((parent@, verdict)));
                                crate::validation::lemma_reaches_self(m, p_id@);
                                assert(crate::validation::ancestor_id_of(m, tx@, p_id@)) by {
                                    assert(tx@.parents.contains(p_id@));
                                }
                                assert forall|i: int|
                                    0 <= i < base implies #[trigger] now[i] == old(
                                    cache,
                                ).entries_view()[i] by {
                                    assert(now[i] == post_call[i]);
                                    assert(post_call[i] == pre_rec[i]);
                                }
                                // Entries gained below the parent, and the
                                // parent's own entry, are ancestors of this
                                // frame's transaction too.
                                assert forall|i: int| base <= i < now.len() implies {
                                    let e = #[trigger] now[i];
                                    &&& m.contains_key(e.0.id)
                                    &&& e.0 == m[e.0.id]
                                    &&& crate::validation::ancestor_id_of(m, tx@, e.0.id)
                                } by {
                                    if i == now.len() - 1 {
                                        assert(now[i] == (parent@, verdict));
                                        assert(now[i].0.id == p_id@);
                                    } else {
                                        assert(now[i] == post_call[i]);
                                        if i < pre_rec.len() {
                                            assert(post_call[i] == pre_rec[i]);
                                        } else {
                                            let x = post_call[i].0.id;
                                            assert(crate::validation::ancestor_id_of(
                                                m,
                                                m[p_id@],
                                                x,
                                            ));
                                            let q = choose|q: Seq<char>|
                                                #[trigger] m[p_id@].parents.contains(q)
                                                    && crate::validation::reaches(m, q, x);
                                            crate::validation::lemma_reaches_through_parent(
                                                m,
                                                p_id@,
                                                q,
                                                x,
                                            );
                                        }
                                    }
                                }
                            }
                            if !verdict {
                                proof {
                                    if parents_validate(m, tx@.parents, vset) {
                                        lemma_parents_validate_each(m, tx@.parents, vset);
                                    }
                                }
                                return false;
                            }
                        },
                    }
                    proof {
                        assert(tx_validates(m, m[p_id@], vset.insert(p_id@)));
                    }
                },
            }
            k = k + 1;
        }
        proof {
            lemma_parents_validate_intro(m, tx@.parents, vset);
        }
        let sig = crate::crypto::verify_transaction_signature(tx);
        sig
    }

    /// The recursive ancestry check with memoization: returns true exactly
    /// when every parent exists in the graph, has status `Valid`, and itself
    /// validates recursively, and the transaction's own signature verifies
    /// against its carried public key; ancestry that loops back on itself is
    /// treated as invalid.
    ///
    /// The verdict is cached under the transaction's id, tied to the
    /// transaction itself so that reuse is sound even for ids the graph does
    /// not store; a call whose verdict is already cached returns it from the
    /// cache and leaves the cache untouched. Entries are only ever added,
    /// and every added entry is the queried transaction or a stored ancestor
    /// of it. The cache may be reused across calls as long as the graph is
    /// unchanged.
    pub fn validate_transaction(&self, tx: &Transaction, validation_cache: &mut ValidationCache) -> (r: bool)
        requires
            self.wf(),
            old(validation_cache).wf_for(self.tx_map()),
        ensures
            final(validation_cache).wf_for(self.tx_map()),
            r == spec_valid_transaction(self.tx_map(), tx@),
            exists|i: int|
                0 <= i < final(validation_cache).entries_view().len() && #[trigger] final(validation_cache).entries_view()[i] == (tx@, r),
            (exists|i: int|
                0 <= i < old(validation_cache).entries_view().len() && (#[trigger] old(validation_cache).entries_view()[i]).0 == tx@) ==> *final(validation_cache) == *old(validation_cache),
            old(validation_cache).entries_view().len() <= final(validation_cache).entries_view().len(),
            forall|i: int|
                0 <= i < old(validation_cache).entries_view().len() ==> #[trigger] final(validation_cache).entries_view()[i] == old(validation_cache).entries_view()[i],
            forall|i: int|
                old(validation_cache).entries_view().len() <= i < final(validation_cache).entries_view().len() ==> {
                    let e = #[trigger] final(validation_cache).entries_view()[i];
                    e.0 == tx@ || (self.tx_map().contains_key(e.0.id)
                        && e.0 == self.tx_map()[e.0.id]
                        && crate::validation::ancestor_id_of(self.tx_map(), tx@, e.0.id))
                },
    {
        match validation_cache.lookup_tx(tx) {
            Some(b) => {
                proof {
                    let i = choose|i: int|
                        0 <= i < validation_cache.entries_view().len()
                            && #[trigger] validation_cache.entries_view()[i] == (tx@, b);
                    assert(validation_cache.entries_view()[i].1 == tx_validates(
                        self.tx_map(),
                        tx@,
                        Set::empty(),
                    ));
                }
                b
            },
            None => {
                let visiting: Vec<String> = Vec::new();
                proof {
                    assert(visiting.deep_view() =~= Seq::<Seq<char>>::empty());
                    assert(visiting.deep_view().to_set() =~= Set::<Seq<char>>::empty());
                }
                let r = self.validate_rec(tx, &visiting, validation_cache);
                validation_cache.record_tx(tx, r);
                proof {
                    let last = validation_cache.entries_view().len() - 1;
                    assert(validation_cache.entries_view()[last] == (tx@, r));
                }
                r
            },
        }
    }
}

/// Whether the vector holds the given id.
pub(crate) fn contains_id(v: &Vec<String>, id: &String) -> (r: bool)
    ensures
        r == v.deep_view().contains(id@),
{
    let n = v.len();
    let mut i: usize = 0;
    while i < n
        invariant
            n == v.len(),
            0 <= i <= n,
            forall|j: int| 0 <= j < i ==> v.deep_view()[j] != id@,
        decreases n - i,
    {
        if v[i] == *id {
            assert(v.deep_view()[i as int] == id@);
            return true;
        }
        i = i + 1;
    }
    false
}

/// After appending a fresh transaction and placing its id at layer `l`
/// (growing the layer sequence by one when `l` is past the end), every
/// well-formedness part carries over and the new id sits at layer `l`.
proof fn lemma_layers_after_insert(
    s0: Seq<TxView>,
    lv0: Seq<Seq<Seq<char>>>,
    t: TxView,
    l: int,
    lv1: Seq<Seq<Seq<char>>>,
)
    requires
        ids_distinct(s0),
        layers_subset(s0, lv0),
        layers_cover(s0, lv0),
        layers_unique(lv0),
        layers_nonempty(lv0),
        !map_of(s0).contains_key(t.id),
        0 <= l <= lv0.len(),
        l < lv0.len() ==> lv1 == lv0.update(l, lv0[l].push(t.id)),
        l == lv0.len() ==> lv1 == lv0.push(seq![t.id]),
    ensures
        ids_distinct(s0.push(t)),
        layers_subset(s0.push(t), lv1),
        layers_cover(s0.push(t), lv1),
        layers_unique(lv1),
        layers_nonempty(lv1),
        layer_has(lv1, l, t.id),
{
    let s1 = s0.push(t);
    lemma_map_of_contains(s0);
    lemma_map_of_push(s0, t);
    assert forall|a: int, b: int| 0 <= a < b < s1.len() implies (#[trigger] s1[a]).id != (
    #[trigger] s1[b]).id by {
        assert(s1[a] == s0[a]);
        if b == s1.len() - 1 {
            if s0[a].id == t.id {
                assert(map_of(s0).contains_key(t.id));
            }
        } else {
            assert(s1[b] == s0[b]);
        }
    }
    let newk = if l < lv0.len() {
        lv0[l].len() as int
    } else {
        0
    };
    assert(lv1[l][newk] == t.id);
    assert(layer_has(lv1, l, t.id));
    assert forall|lx: int, kx: int|
        0 <= lx < lv1.len() && 0 <= kx < lv1[lx].len() && !(lx == l && kx == newk) implies {
        &&& 0 <= lx < lv0.len()
        &&& 0 <= kx < lv0[lx].len()
        &&& lv1[lx][kx] == lv0[lx][kx]
    } by {
        if lx == l {
            if l == lv0.len() {
                assert(lv1[l].len() == 1);
            }
        }
    }
    assert forall|lx: int, kx: int| 0 <= lx < lv1.len() && 0 <= kx < lv1[lx].len() implies map_of(
        s1,
    ).contains_key(#[trigger] lv1[lx][kx]) by {
        if lx == l && kx == newk {
            assert(lv1[lx][kx] == t.id);
        } else {
            assert(map_of(s0).contains_key(lv1[lx][kx]));
        }
    }
    assert forall|i: int| 0 <= i < s1.len() implies in_some_layer(
        lv1,
        (#[trigger] s1[i]).id,
    ) by {
        if i < s0.len() {
            assert(s1[i] == s0[i]);
            assert(in_some_layer(lv0, s0[i].id));
            let lx = choose|lx: int| layer_has(lv0, lx, s0[i].id);
            let kx = choose|kx: int| 0 <= kx < lv0[lx].len() && lv0[lx][kx] == s0[i].id;
            if lx == l && l < lv0.len() {
                assert(lv1[l][kx] == lv0[l][kx]);
            } else {
                assert(lv1[lx][kx] == lv0[lx][kx]);
            }
            assert(layer_has(lv1, lx, s0[i].id));
        } else {
            assert(s1[i] == t);
        }
    }
    assert forall|l1: int, k1: int, l2: int, k2: int|
        0 <= l1 < lv1.len() && 0 <= k1 < lv1[l1].len() && 0 <= l2 < lv1.len() && 0 <= k2
            < lv1[l2].len() && (#[trigger] lv1[l1][k1]) == (#[trigger] lv1[l2][k2]) implies l1 == l2
        && k1 == k2 by {
        let n1 = l1 == l && k1 == newk;
        let n2 = l2 == l && k2 == newk;
        if n1 && !n2 {
            assert(map_of(s0).contains_key(lv0[l2][k2]));
            assert(lv1[l2][k2] == t.id);
        } else if !n1 && n2 {
            assert(map_of(s0).contains_key(lv0[l1][k1]));
            assert(lv1[l1][k1] == t.id);
        } else if !n1 && !n2 {
            assert(lv0[l1][k1] == lv0[l2][k2]);
        }
    }
    assert forall|lx: int| 0 <= lx < lv1.len() implies (#[trigger] lv1[lx]).len() > 0 by {
        if lx != l || l < lv0.len() {
            if lx == l {
                assert(lv1[l].len() == lv0[l].len() + 1);
            } else {
                assert(lv1[lx] == lv0[lx]);
            }
        }
    }
}

/// Every layer is nonempty when each layer of `lv` has at least one id.
proof fn lemma_filter_nonempty_identity(lv: Seq<Seq<Seq<char>>>)
    requires
        forall|l: int| 0 <= l < lv.len() ==> (#[trigger] lv[l]).len() > 0,
    ensures
        lv.filter(|lay: Seq<Seq<char>>| lay.len() > 0) == lv,
    decreases lv.len(),
{
    reveal(Seq::filter);
    if lv.len() > 0 {
        assert forall|l: int| 0 <= l < lv.drop_last().len() implies (
        #[trigger] lv.drop_last()[l]).len() > 0 by {
            assert(lv.drop_last()[l] == lv[l]);
        }
        lemma_filter_nonempty_identity(lv.drop_last());
        assert(lv.last().len() > 0);
        assert(lv.filter(|lay: Seq<Seq<char>>| lay.len() > 0) =~= lv);
    }
}

impl DAG {
    /// Commits a transaction: re-validates it with a fresh cache and, on
    /// success, stores it, computes its layer as one more than the maximum
    /// layer of its parents (zero for a root), grows the layer sequence if
    /// needed, inserts the id into that layer, and compacts empty layers
    /// (of which a well-formed graph has none). Fails with
    /// `ValidationFailed`, leaving the graph untouched, exactly when the
    /// transaction does not validate or its id is already stored.
    pub fn add_transaction(&mut self, tx: Transaction) -> (r: Result<(), LedgerError>)
        requires
            old(self).wf(),
        ensures
            final(self).wf(),
            r is Ok <==> spec_valid_transaction(old(self).tx_map(), tx@) && !old(self).tx_map().contains_key(tx@.id),
            r is Err ==> *final(self) == *old(self) && r == Err::<(), LedgerError>(
                LedgerError::ValidationFailed,
            ),
            r is Ok ==> {
                let l = spec_target_layer(old(self).layers_view(), tx@);
                &&& final(self).tx_seq() == old(self).tx_seq().push(tx@)
                &&& final(self).tx_map() == old(self).tx_map().insert(tx@.id, tx@)
                &&& final(self).layers_view() == (if l < old(self).layers_view().len() {
                    old(self).layers_view().update(
                        l,
                        old(self).layers_view()[l].push(tx@.id),
                    )
                } else {
                    old(self).layers_view().push(seq![tx@.id])
                })
                &&& layer_has(final(self).layers_view(), l, tx@.id)
            },
    {
        let mut cache = ValidationCache::new();
        if !self.validate_transaction(&tx, &mut cache) {
            return Err(LedgerError::ValidationFailed);
        }
        if self.find_index(&tx.id).is_some() {
            return Err(LedgerError::ValidationFailed);
        }
        let ghost g0 = *self;
        let ghost m = self.tx_map();
        let ghost lv0 = self.layers_view();
        proof {
            lemma_map_of_contains(self.tx_seq());
            if tx@.parents.len() > 0 {
                assert(parents_validate(m, tx@.parents, Set::empty()));
                lemma_parents_validate_each(m, tx@.parents, Set::empty());
                assert(tx@.parents.skip(0) =~= tx@.parents);
                assert(spec_target_layer(lv0, tx@) == layer_bound_from(lv0, tx@.parents, 0));
            }
        }
        let np = tx.parents.len();
        let mut layer: usize = 0;
        let mut k: usize = 0;
        while k < np
            invariant
                *self == g0,
                g0.wf(),
                m == g0.tx_map(),
                lv0 == g0.layers_view(),
                np == tx@.parents.len(),
                0 <= k <= np,
                layer as int <= lv0.len(),
                np == 0 ==> layer == 0,
                forall|i: int| 0 <= i < np ==> m.contains_key(#[trigger] tx@.parents[i]),
                np > 0 ==> spec_target_layer(lv0, tx@) == layer_bound_from(
                    lv0,
                    tx@.parents.skip(k as int),
                    layer as int,
                ),
            decreases np - k,
        {
            let p_id = &tx.parents[k];
            proof {
                assert(tx@.parents[k as int] == p_id@);
                lemma_map_of_contains(self.tx_seq());
                let idx = choose|idx: int|
                    0 <= idx < g0.tx_seq().len() && (#[trigger] g0.tx_seq()[idx]).id == p_id@;
                assert(in_some_layer(lv0, g0.tx_seq()[idx].id));
            }
            let cap = self.layers.len();
            let slot_plus: usize = match self.get_layer(p_id) {
                Some(s) => {
                    proof {
                        lemma_layer_slot_is(lv0, p_id@, s as int);
                        assert((s as int) < lv0.len());
                        assert(lv0.len() == cap as int);
                    }
                    s + 1
                },
                None => 1,
            };
            let ghost layer_before = layer;
            if slot_plus > layer {
                layer = slot_plus;
            }
            proof {
                assert(slot_plus as int == spec_layer_slot(lv0, p_id@) + 1);
                let rest = tx@.parents.skip(k as int);
                assert(rest.len() > 0);
                assert(rest[0] == tx@.parents[k as int]);
                assert(layer_bound_from(lv0, rest, layer_before as int) == layer_bound_from(
                    lv0,
                    rest.drop_first(),
                    layer as int,
                ));
                assert(rest.drop_first() =~= tx@.parents.skip(k as int + 1));
            }
            k = k + 1;
        }
        proof {
            if np > 0 {
                assert(tx@.parents.skip(np as int) =~= Seq::<Seq<char>>::empty());
            }
            assert(layer as int == spec_target_layer(lv0, tx@));
        }
        let ghost txv = tx@;
        let ghost grew = layer as int == lv0.len();
        if self.layers.len() == layer {
            self.layers.push(Vec::new());
        }
        proof {
            if grew {
                assert(self.layers@[lv0.len() as int].deep_view() =~= Seq::<Seq<char>>::empty());
                assert(self.layers_view() =~= lv0.push(Seq::<Seq<char>>::empty()));
            } else {
                assert(self.layers_view() == lv0);
            }
        }
        let ghost lmid = self.layers@;
        let ghost lvg = self.layers_view();
        let mut bucket = self.layers.remove(layer);
        bucket.push(tx.id.clone());
        self.layers.insert(layer, bucket);
        proof {
            assert(self.layers@ == lmid.remove(layer as int).insert(layer as int, self.layers@[layer as int]));
            assert(self.layers@[layer as int]@ == lmid[layer as int]@.push(tx.id));
            assert(self.layers_view() =~= lvg.update(layer as int, lvg[layer as int].push(txv.id)))
                by {
                assert forall|j: int|
                    0 <= j < self.layers@.len() && j != layer as int implies self.layers@[j]
                    == lmid[j] by {
                    assert(lmid.remove(layer as int).insert(layer as int, self.layers@[layer as int])[j] == lmid[j]);
                }
                assert(self.layers_view()[layer as int] =~= lvg[layer as int].push(txv.id));
            }
            if grew {
                assert(lvg.update(layer as int, lvg[layer as int].push(txv.id)) =~= lv0.push(
                    seq![txv.id],
                ));
            } else {
                assert(lvg.update(layer as int, lvg[layer as int].push(txv.id)) == lv0.update(
                    layer as int,
                    lv0[layer as int].push(txv.id),
                ));
            }
        }
        let ghost lv1 = self.layers_view();
        self.transactions.push(tx);
        proof {
            assert(self.tx_seq() =~= g0.tx_seq().push(txv));
            lemma_map_of_push(g0.tx_seq(), txv);
            lemma_layers_after_insert(g0.tx_seq(), lv0, txv, layer as int, lv1);
        }
        self.optimize_layers();
        Ok(())
    }

    /// Drops every empty layer from the layer sequence. Safe because layer
    /// identity is by membership, not position; on a well-formed graph no
    /// layer is empty, so nothing changes.
    pub fn optimize_layers(&mut self)
        requires
            old(self).wf(),
        ensures
            *final(self) == *old(self),
            final(self).layers_view() == old(self).layers_view().filter(
                |lay: Seq<Seq<char>>| lay.len() > 0,
            ),
    {
        let ghost lv = self.layers_view();
        let mut l: usize = 0;
        while l < self.layers.len()
            invariant
                *self == *old(self),
                old(self).wf(),
                0 <= l <= self.layers.len(),
            decreases self.layers.len() - l,
        {
            if self.layers[l].len() == 0 {
                proof {
                    assert(self.layers_view()[l as int].len() > 0);
                    assert(self.layers_view()[l as int].len() == self.layers@[l as int]@.len());
                }
                let _ = self.layers.remove(l);
            } else {
                l = l + 1;
            }
        }
        proof {
            lemma_filter_nonempty_identity(lv);
        }
    }

    /// Sets the status of the named transaction to `Revoked`. Idempotent:
    /// revoking an already-revoked transaction succeeds and changes nothing.
    /// Fails with `NotFound` exactly when the id is not stored; the graph is
    /// then untouched.
    pub fn revoke_transaction(&mut self, tx_id: &String) -> (r: Result<(), LedgerError>)
        requires
            old(self).wf(),
        ensures
            final(self).wf(),
            r is Ok <==> old(self).tx_map().contains_key(tx_id@),
            r is Err ==> *final(self) == *old(self) && r == Err::<(), LedgerError>(LedgerError::NotFound),
            final(self).tx_map() == spec_revoke(old(self).tx_map(), tx_id@),
            final(self).layers_view() == old(self).layers_view(),
            final(self).tx_seq().len() == old(self).tx_seq().len(),
    {
        match self.find_index(tx_id) {
            None => Err(LedgerError::NotFound),
            Some(i) => {
                let ghost s0 = self.tx_seq();
                let old_t = self.transactions.remove(i);
                let new_t = Transaction { status: TxStatus::Revoked, ..old_t };
                self.transactions.insert(i, new_t);
                proof {
                    self.lemma_after_entry_update(*old(self), i as int, s0[i as int]);
                    lemma_map_of_update(
                        s0,
                        i as int,
                        TxView { status: TxStatus::Revoked, ..s0[i as int] },
                    );
                }
                Ok(())
            },
        }
    }

    /// Attaches (or overwrites) the contract handle of the named
    /// transaction. Fails with `NotFound` exactly when the id is not stored;
    /// the graph is then untouched. The handle's contents are not inspected.
    pub fn attach_contract(&mut self, tx_id: &String, handle: ContractRef) -> (r: Result<
        (),
        LedgerError,
    >)
        requires
            old(self).wf(),
        ensures
            final(self).wf(),
            r is Ok <==> old(self).tx_map().contains_key(tx_id@),
            r is Err ==> *final(self) == *old(self) && r == Err::<(), LedgerError>(LedgerError::NotFound),
            final(self).tx_map() == spec_attach(old(self).tx_map(), tx_id@, handle@),
            final(self).layers_view() == old(self).layers_view(),
            final(self).tx_seq().len() == old(self).tx_seq().len(),
    {
        match self.find_index(tx_id) {
            None => Err(LedgerError::NotFound),
            Some(i) => {
                let ghost s0 = self.tx_seq();
                let old_t = self.transactions.remove(i);
                let new_t = Transaction { contract: Some(handle), ..old_t };
                self.transactions.insert(i, new_t);
                proof {
                    self.lemma_after_entry_update(*old(self), i as int, s0[i as int]);
                    lemma_map_of_update(
                        s0,
                        i as int,
                        self.tx_seq()[i as int],
                    );
                }
                Ok(())
            },
        }
    }

    /// After replacing the stored entry at `i` with one of the same id, the
    /// stored sequence is the old one updated at `i`, and well-formedness of
    /// everything but the transaction contents carries over.
    proof fn lemma_after_entry_update(self, older: DAG, i: int, t0: TxView)
        requires
            older.wf(),
            0 <= i < older.tx_seq().len(),
            t0 == older.tx_seq()[i],
            self.layers == older.layers,
            self.transactions@ == older.transactions@.remove(i).insert(i, self.transactions@[i]),
            self.transactions@[i]@.id == t0.id,
            0 <= i < self.transactions@.len(),
        ensures
            self.tx_seq() == older.tx_seq().update(i, self.tx_seq()[i]),
            self.wf(),
    {
        assert(self.tx_seq() =~= older.tx_seq().update(i, self.tx_seq()[i])) by {
            assert forall|j: int| 0 <= j < self.transactions@.len() implies self.transactions@[j]
                == older.transactions@.remove(i).insert(i, self.transactions@[i])[j] by {}
            assert forall|j: int|
                0 <= j < self.tx_seq().len() && j != i implies #[trigger] self.tx_seq()[j]
                == older.tx_seq()[j] by {
                if j < i {
                    assert(older.transactions@.remove(i).insert(i, self.transactions@[i])[j]
                        == older.transactions@[j]);
                } else {
                    assert(older.transactions@.remove(i).insert(i, self.transactions@[i])[j]
                        == older.transactions@[j]);
                }
            }
        }
        let s2 = self.tx_seq();
        let s = older.tx_seq();
        lemma_map_of_update(s, i, s2[i]);
        assert(ids_distinct(s2));
        assert(map_of(s2) == map_of(s).insert(s2[i].id, s2[i]));
        lemma_map_of_contains(s);
        lemma_map_of_contains(s2);
        assert(map_of(s).contains_key(t0.id)) by {
            assert(s[i].id == t0.id);
        }
        assert(map_of(s2).dom() =~= map_of(s).dom());
        assert forall|j: int| 0 <= j < s2.len() implies in_some_layer(
            self.layers_view(),
            (#[trigger] s2[j]).id,
        ) by {
            assert(s2[j].id == s[j].id);
        }
    }
}

/// Whether a transaction with the given id is stored.
fn has_tx_id(txs: &Vec<Transaction>, id: &String) -> (r: bool)
    ensures
        r == exists|i: int|
            0 <= i < txs.deep_view().len() && (#[trigger] txs.deep_view()[i]).id == id@,
{
    let n = txs.len();
    let mut i: usize = 0;
    while i < n
        invariant
            n == txs@.len(),
            0 <= i <= n,
            forall|j: int| 0 <= j < i ==> (#[trigger] txs.deep_view()[j]).id != id@,
        decreases n - i,
    {
        if txs[i].id == *id {
            proof {
                assert(txs.deep_view()[i as int].id == id@);
            }
            return true;
        }
        i = i + 1;
    }
    false
}

/// Decides [`ids_distinct`] for a stored-transaction list.
fn check_ids_distinct(txs: &Vec<Transaction>) -> (r: bool)
    ensures
        r == ids_distinct(txs.deep_view()),
{
    let n = txs.len();
    let ghost dv = txs.deep_view();
    let mut i: usize = 0;
    while i < n
        invariant
            dv == txs.deep_view(),
            n == txs@.len(),
            0 <= i <= n,
            forall|a: int, b: int| 0 <= a < b < n && a < i ==> (#[trigger] dv[a]).id != (
            #[trigger] dv[b]).id,
        decreases n - i,
    {
        let mut j: usize = i + 1;
        while j < n
            invariant
                dv == txs.deep_view(),
                n == txs@.len(),
                0 <= i < n,
                i < j <= n,
                forall|a: int, b: int| 0 <= a < b < n && a < i ==> (#[trigger] dv[a]).id != (
                #[trigger] dv[b]).id,
                forall|b: int| i < b < j ==> (#[trigger] dv[b]).id != dv[i as int].id,
            decreases n - j,
        {
            if txs[i].id == txs[j].id {
                proof {
                    assert(dv[i as int].id == dv[j as int].id);
                }
                return false;
            }
            j = j + 1;
        }
        i = i + 1;
    }
    true
}

/// Decides [`layers_subset`] for raw parts.
fn check_layers_subset(txs: &Vec<Transaction>, layers: &Vec<Vec<String>>) -> (r: bool)
    ensures
        r == layers_subset(txs.deep_view(), layers.deep_view()),
{
    proof {
        lemma_map_of_contains(txs.deep_view());
    }
    let nl = layers.len();
    let ghost lv = layers.deep_view();
    let mut l: usize = 0;
    while l < nl
        invariant
            lv == layers.deep_view(),
            nl == layers@.len(),
            0 <= l <= nl,
            forall|a: int, k: int|
                0 <= a < l && 0 <= k < lv[a].len() ==> map_of(txs.deep_view()).contains_key(
                    #[trigger] lv[a][k],
                ),
        decreases nl - l,
    {
        let row = layers[l].len();
        let mut k: usize = 0;
        while k < row
            invariant
                lv == layers.deep_view(),
                nl == layers@.len(),
                0 <= l < nl,
                row == layers@[l as int]@.len(),
                0 <= k <= row,
                forall|a: int, kk: int|
                    0 <= a < l && 0 <= kk < lv[a].len() ==> map_of(txs.deep_view()).contains_key(
                        #[trigger] lv[a][kk],
                    ),
                forall|kk: int|
                    0 <= kk < k ==> map_of(txs.deep_view()).contains_key(
                        #[trigger] lv[l as int][kk],
                    ),
        decreases row - k,
        {
            let present = has_tx_id(txs, &layers[l][k]);
            proof {
                lemma_map_of_contains(txs.deep_view());
            }
            if !present {
                proof {
                    assert(!map_of(txs.deep_view()).contains_key(lv[l as int][k as int]));
                    assert(!layers_subset(txs.deep_view(), lv));
                }
                return false;
            }
            k = k + 1;
        }
        l = l + 1;
    }
    true
}

/// Decides [`layers_cover`] for raw parts.
fn check_layers_cover(txs: &Vec<Transaction>, layers: &Vec<Vec<String>>) -> (r: bool)
    ensures
        r == layers_cover(txs.deep_view(), layers.deep_view()),
{
    let n = txs.len();
    let ghost lv = layers.deep_view();
    let mut i: usize = 0;
    while i < n
        invariant
            lv == layers.deep_view(),
            n == txs@.len(),
            0 <= i <= n,
            forall|a: int| 0 <= a < i ==> in_some_layer(lv, (#[trigger] txs.deep_view()[a]).id),
        decreases n - i,
    {
        let nl = layers.len();
        let mut l: usize = 0;
        let mut found = false;
        while l < nl && !found
            invariant
                lv == layers.deep_view(),
                nl == layers@.len(),
                n == txs@.len(),
                0 <= i < n,
                0 <= l <= nl,
                !found ==> forall|a: int|
                    0 <= a < l ==> !(#[trigger] lv[a]).contains(txs.deep_view()[i as int].id),
                found ==> in_some_layer(lv, txs.deep_view()[i as int].id),
            decreases nl - l,
        {
            if contains_id(&layers[l], &txs[i].id) {
                proof {
                    assert(layer_has(lv, l as int, txs.deep_view()[i as int].id));
                }
                found = true;
            }
            l = l + 1;
        }
        if !found {
            proof {
                assert(!in_some_layer(lv, txs.deep_view()[i as int].id));
            }
            return false;
        }
        i = i + 1;
    }
    true
}

/// Decides [`layers_unique`] for a layer sequence.
fn check_layers_unique(layers: &Vec<Vec<String>>) -> (r: bool)
    ensures
        r == layers_unique(layers.deep_view()),
{
    let nl = layers.len();
    let ghost lv = layers.deep_view();
    let mut l1: usize = 0;
    while l1 < nl
        invariant
            lv == layers.deep_view(),
            nl == layers@.len(),
            0 <= l1 <= nl,
            forall|a: int, b: int, c: int, d: int|
                0 <= a < l1 && 0 <= b < lv[a].len() && 0 <= c < lv.len() && 0 <= d < lv[c].len()
                    && (#[trigger] lv[a][b]) == (#[trigger] lv[c][d]) ==> a == c && b == d,
        decreases nl - l1,
    {
        let row1 = layers[l1].len();
        let mut k1: usize = 0;
        while k1 < row1
            invariant
                lv == layers.deep_view(),
                nl == layers@.len(),
                0 <= l1 < nl,
                row1 == layers@[l1 as int]@.len(),
                0 <= k1 <= row1,
                forall|a: int, b: int, c: int, d: int|
                    0 <= a < l1 && 0 <= b < lv[a].len() && 0 <= c < lv.len() && 0 <= d
                        < lv[c].len() && (#[trigger] lv[a][b]) == (#[trigger] lv[c][d]) ==> a == c
                        && b == d,
                forall|b: int, c: int, d: int|
                    0 <= b < k1 && 0 <= c < lv.len() && 0 <= d < lv[c].len() && (
                    #[trigger] lv[l1 as int][b]) == (#[trigger] lv[c][d]) ==> l1 as int == c && b
                        == d,
            decreases row1 - k1,
        {
            let mut l2: usize = 0;
            while l2 < nl
                invariant
                    lv == layers.deep_view(),
                    nl == layers@.len(),
                    0 <= l1 < nl,
                    row1 == layers@[l1 as int]@.len(),
                    0 <= k1 < row1,
                    0 <= l2 <= nl,
                    forall|c: int, d: int|
                        0 <= c < l2 && 0 <= d < lv[c].len() && (#[trigger] lv[c][d])
                            == lv[l1 as int][k1 as int] ==> l1 as int == c && k1 as int == d,
                decreases nl - l2,
            {
                let row2 = layers[l2].len();
                let mut k2: usize = 0;
                while k2 < row2
                    invariant
                        lv == layers.deep_view(),
                        nl == layers@.len(),
                        0 <= l1 < nl,
                        row1 == layers@[l1 as int]@.len(),
                        0 <= k1 < row1,
                        0 <= l2 < nl,
                        row2 == layers@[l2 as int]@.len(),
                        0 <= k2 <= row2,
                        forall|c: int, d: int|
                            0 <= c < l2 && 0 <= d < lv[c].len() && (#[trigger] lv[c][d])
                                == lv[l1 as int][k1 as int] ==> l1 as int == c && k1 as int == d,
                        forall|d: int|
                            0 <= d < k2 && (#[trigger] lv[l2 as int][d])
                                == lv[l1 as int][k1 as int] ==> l1 as int == l2 as int
                                && k1 as int == d,
                    decreases row2 - k2,
                {
                    if (l1 != l2 || k1 != k2) && layers[l1][k1] == layers[l2][k2] {
                        proof {
                            assert(lv[l1 as int][k1 as int] == lv[l2 as int][k2 as int]);
                        }
                        return false;
                    }
                    k2 = k2 + 1;
                }
                l2 = l2 + 1;
            }
            k1 = k1 + 1;
        }
        l1 = l1 + 1;
    }
    true
}

/// Decides [`layers_nonempty`] for a layer sequence.
fn check_layers_nonempty(layers: &Vec<Vec<String>>) -> (r: bool)
    ensures
        r == layers_nonempty(layers.deep_view()),
{
    let nl = layers.len();
    let mut l: usize = 0;
    while l < nl
        invariant
            nl == layers@.len(),
            0 <= l <= nl,
            forall|a: int| 0 <= a < l ==> (#[trigger] layers.deep_view()[a]).len() > 0,
        decreases nl - l,
    {
        if layers[l].len() == 0 {
            proof {
                assert(layers.deep_view()[l as int].len() == 0);
            }
            return false;
        }
        l = l + 1;
    }
    true
}

/// Whether raw snapshot parts form a well-formed graph.
pub open spec fn parts_wf(s: Seq<TxView>, lv: Seq<Seq<Seq<char>>>) -> bool {
    &&& ids_distinct(s)
    &&& layers_subset(s, lv)
    &&& layers_cover(s, lv)
    &&& layers_unique(lv)
    &&& layers_nonempty(lv)
}

impl DAG {
    /// Rebuilds a graph from a snapshot's raw parts: the stored transaction
    /// list and the layer sequence. Accepts exactly the well-formed parts
    /// and fails with `ValidationFailed` otherwise; nothing about ancestry
    /// or layer arithmetic is assumed of snapshot input.
    pub fn from_parts(transactions: Vec<Transaction>, layers: Vec<Vec<String>>) -> (r: Result<
        DAG,
        LedgerError,
    >)
        ensures
            r matches Ok(g) ==> {
                &&& g.wf()
                &&& g.tx_seq() == transactions.deep_view()
                &&& g.layers_view() == layers.deep_view()
            },
            r is Ok <==> parts_wf(transactions.deep_view(), layers.deep_view()),
            r is Err ==> r == Err::<DAG, LedgerError>(LedgerError::ValidationFailed),
    {
        if !check_ids_distinct(&transactions) {
            return Err(LedgerError::ValidationFailed);
        }
        if !check_layers_subset(&transactions, &layers) {
            return Err(LedgerError::ValidationFailed);
        }
        if !check_layers_cover(&transactions, &layers) {
            return Err(LedgerError::ValidationFailed);
        }
        if !check_layers_unique(&layers) {
            return Err(LedgerError::ValidationFailed);
        }
        if !check_layers_nonempty(&layers) {
            return Err(LedgerError::ValidationFailed);
        }
        Ok(DAG { transactions, layers })
    }
}

/// A memo of prior validation verdicts, keyed by transaction id and tied to
/// the transaction each verdict was computed for, reusable across one
/// validation pass over an unchanged graph.
pub struct ValidationCache {
    entries: Vec<(Transaction, bool)>,
}

impl ValidationCache {
    /// The recorded entries: transaction views paired with verdicts.
    pub closed spec fn entries_view(self) -> Seq<(TxView, bool)> {
        Seq::new(self.entries@.len(), |i: int| (self.entries@[i].0@, self.entries@[i].1))
    }

    /// Every entry records the true top-level verdict of its transaction
    /// against graph `m`.
    pub open spec fn wf_for(self, m: Map<Seq<char>, TxView>) -> bool {
        forall|i: int|
            0 <= i < self.entries_view().len() ==> (#[trigger] self.entries_view()[i]).1
                == tx_validates(m, self.entries_view()[i].0, Set::empty())
    }

    /// A fresh, empty cache. An empty cache is well-formed for every graph.
    pub fn new() -> (r: ValidationCache)
        ensures
            r.entries_view().len() == 0,
            forall|m: Map<Seq<char>, TxView>| r.wf_for(m),
    {
        ValidationCache { entries: Vec::new() }
    }

    /// The memoized verdict for this very transaction, if one was recorded:
    /// the fast path scans by id and confirms the entry is for the same
    /// transaction before reusing it.
    fn lookup_tx(&self, tx: &Transaction) -> (r: Option<bool>)
        ensures
            r matches Some(b) ==> exists|i: int|
                0 <= i < self.entries_view().len() && #[trigger] self.entries_view()[i] == (
                tx@,
                b,
                ),
            r is None ==> forall|i: int|
                0 <= i < self.entries_view().len() ==> (#[trigger] self.entries_view()[i]).0
                    != tx@,
    {
        let n = self.entries.len();
        let mut i: usize = 0;
        while i < n
            invariant
                n == self.entries.len(),
                0 <= i <= n,
                forall|j: int| 0 <= j < i ==> (#[trigger] self.entries_view()[j]).0 != tx@,
            decreases n - i,
        {
            if self.entries[i].0.id == tx.id {
                if crate::txn::tx_equal(&self.entries[i].0, tx) {
                    let b = self.entries[i].1;
                    assert(self.entries_view()[i as int] == (tx@, b));
                    return Some(b);
                }
            }
            proof {
                assert(self.entries_view()[i as int].0 != tx@);
            }
            i = i + 1;
        }
        None
    }

    /// Number of recorded entries.
    pub fn len(&self) -> (r: usize)
        ensures
            r == self.entries_view().len(),
    {
        self.entries.len()
    }

    /// Records a verdict for the transaction.
    fn record_tx(&mut self, tx: &Transaction, b: bool)
        ensures
            final(self).entries_view() == old(self).entries_view().push((tx@, b)),
    {
        self.entries.push((tx.clone(), b));
        assert(self.entries_view() =~= old(self).entries_view().push((tx@, b)));
    }
}

} // verus!
