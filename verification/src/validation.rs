//! The mathematical meaning of transaction validation.
//!
//! A transaction validates against a graph when its own signature verifies
//! and every parent is stored, has status `Valid`, and validates in turn.
//! Because the parent references are attacker-influenced input, the
//! definition carries a set of ids currently being visited and fails closed
//! when a parent is revisited before completing: ancestry that loops back on
//! itself never validates, and the definition is well-founded even on
//! malformed graphs.
//!
//! The lemmas here show that the visiting set does not change the verdict as
//! long as every visited id lies on the path down to the transaction under
//! scrutiny. This is what lets the executable traversal reuse memoized
//! results across branches of one validation pass.

use vstd::prelude::*;
use vstd::seq_lib::seq_to_set_is_finite;

use crate::crypto::signature_ok;
use crate::txn::{TxStatus, TxView};

verus! {

broadcast use seq_to_set_is_finite;

/// Number of stored ids not yet on the visiting set: the measure that bounds
/// the recursion of [`tx_validates`].
pub open spec fn unvisited_count(m: Map<Seq<char>, TxView>, visiting: Set<Seq<char>>) -> nat {
    m.dom().difference(visiting).len()
}

/// Every stored transaction is keyed by its own id.
pub open spec fn id_coherent(m: Map<Seq<char>, TxView>) -> bool {
    forall|k: Seq<char>| m.contains_key(k) ==> (#[trigger] m[k]).id == k
}

/// A transaction validates against graph `m`: its signature verifies and all
/// parents are stored, valid, unvisited, and validate recursively with the
/// parent added to the visiting set.
pub open spec fn tx_validates(m: Map<Seq<char>, TxView>, t: TxView, visiting: Set<Seq<char>>) -> bool
    decreases unvisited_count(m, visiting), t.parents.len() + 1,
        when m.dom().finite() && visiting.finite()
{
    parents_validate(m, t.parents, visiting) && signature_ok(t)
}

/// Each id in `ps` names a stored, valid, unvisited transaction that
/// validates in turn.
pub open spec fn parents_validate(
    m: Map<Seq<char>, TxView>,
    ps: Seq<Seq<char>>,
    visiting: Set<Seq<char>>,
) -> bool
    decreases unvisited_count(m, visiting), ps.len(),
        when m.dom().finite() && visiting.finite()
    via parents_validate_decreases
{
    ps.len() == 0 || {
        let p = ps[0];
        &&& m.contains_key(p)
        &&& m[p].status == TxStatus::Valid
        &&& !visiting.contains(p)
        &&& tx_validates(m, m[p], visiting.insert(p))
        &&& parents_validate(m, ps.drop_first(), visiting)
    }
}

#[via_fn]
proof fn parents_validate_decreases(
    m: Map<Seq<char>, TxView>,
    ps: Seq<Seq<char>>,
    visiting: Set<Seq<char>>,
) {
    if ps.len() > 0 {
        let p = ps[0];
        if m.contains_key(p) && !visiting.contains(p) {
            m.dom().lemma_set_insert_diff_decreases(visiting, p);
        }
    }
}

/// Top-level validity: validation started with nothing on the visiting set.
pub open spec fn spec_valid_transaction(m: Map<Seq<char>, TxView>, t: TxView) -> bool {
    tx_validates(m, t, Set::empty())
}

/// The ids in `c` form a parent-linked chain inside `m`: every element is
/// stored and each element's successor is one of its parents.
pub open spec fn chain_links(m: Map<Seq<char>, TxView>, c: Seq<Seq<char>>) -> bool {
    &&& forall|i: int| 0 <= i < c.len() ==> m.contains_key(#[trigger] c[i])
    &&& forall|i: int| 0 <= i && i + 1 < c.len() ==> (#[trigger] m[c[i]]).parents.contains(c[i + 1])
}

/// `b` is an ancestor of (or equal to) `a`: some parent-linked chain inside
/// `m` leads from `a` to `b`.
pub open spec fn reaches(m: Map<Seq<char>, TxView>, a: Seq<char>, b: Seq<char>) -> bool {
    exists|c: Seq<Seq<char>>|
        #[trigger] chain_links(m, c) && c.len() >= 1 && c.first() == a && c.last() == b
}

/// `x` lies on a parent chain below `t`: some parent of `t` reaches it.
pub open spec fn ancestor_id_of(m: Map<Seq<char>, TxView>, t: TxView, x: Seq<char>) -> bool {
    exists|q: Seq<char>| #[trigger] t.parents.contains(q) && reaches(m, q, x)
}

/// Every stored id reaches itself, by the one-element chain.
pub proof fn lemma_reaches_self(m: Map<Seq<char>, TxView>, p: Seq<char>)
    requires
        m.contains_key(p),
    ensures
        reaches(m, p, p),
{
    let c = seq![p];
    assert(chain_links(m, c)) by {
        assert(c[0] == p);
    }
    assert(c.first() == p && c.last() == p);
}

/// Reachability extends through a parent edge.
pub proof fn lemma_reaches_through_parent(
    m: Map<Seq<char>, TxView>,
    p: Seq<char>,
    q: Seq<char>,
    x: Seq<char>,
)
    requires
        m.contains_key(p),
        m[p].parents.contains(q),
        reaches(m, q, x),
    ensures
        reaches(m, p, x),
{
    let c = choose|c: Seq<Seq<char>>|
        #[trigger] chain_links(m, c) && c.len() >= 1 && c.first() == q && c.last() == x;
    let d = seq![p] + c;
    assert forall|i: int| 0 <= i < d.len() implies m.contains_key(#[trigger] d[i]) by {
        if i > 0 {
            assert(d[i] == c[i - 1]);
        }
    }
    assert forall|i: int| 0 <= i && i + 1 < d.len() implies (#[trigger] m[d[i]]).parents.contains(
        d[i + 1],
    ) by {
        if i == 0 {
            assert(d[0] == p);
            assert(d[1] == c[0]);
        } else {
            assert(d[i] == c[i - 1]);
            assert(d[i + 1] == c[i]);
        }
    }
    assert(chain_links(m, d));
    assert(d.first() == p && d.last() == c.last());
}

/// Unfolds [`parents_validate`] into a statement about every element.
pub proof fn lemma_parents_validate_each(
    m: Map<Seq<char>, TxView>,
    ps: Seq<Seq<char>>,
    v: Set<Seq<char>>,
)
    requires
        m.dom().finite(),
        v.finite(),
        parents_validate(m, ps, v),
    ensures
        forall|i: int|
            0 <= i < ps.len() ==> {
                &&& m.contains_key(#[trigger] ps[i])
                &&& m[ps[i]].status == TxStatus::Valid
                &&& !v.contains(ps[i])
                &&& tx_validates(m, m[ps[i]], v.insert(ps[i]))
            },
    decreases ps.len(),
{
    if ps.len() > 0 {
        lemma_parents_validate_each(m, ps.drop_first(), v);
        assert forall|i: int| 0 <= i < ps.len() implies {
            &&& m.contains_key(#[trigger] ps[i])
            &&& m[ps[i]].status == TxStatus::Valid
            &&& !v.contains(ps[i])
            &&& tx_validates(m, m[ps[i]], v.insert(ps[i]))
        } by {
            if i > 0 {
                assert(ps[i] == ps.drop_first()[i - 1]);
            }
        }
    }
}

/// Folds a statement about every element back into [`parents_validate`].
pub proof fn lemma_parents_validate_intro(
    m: Map<Seq<char>, TxView>,
    ps: Seq<Seq<char>>,
    v: Set<Seq<char>>,
)
    requires
        m.dom().finite(),
        v.finite(),
        forall|i: int|
            0 <= i < ps.len() ==> {
                &&& m.contains_key(#[trigger] ps[i])
                &&& m[ps[i]].status == TxStatus::Valid
                &&& !v.contains(ps[i])
                &&& tx_validates(m, m[ps[i]], v.insert(ps[i]))
            },
    ensures
        parents_validate(m, ps, v),
    decreases ps.len(),
{
    if ps.len() > 0 {
        assert forall|i: int| 0 <= i < ps.drop_first().len() implies {
            &&& m.contains_key(#[trigger] ps.drop_first()[i])
            &&& m[ps.drop_first()[i]].status == TxStatus::Valid
            &&& !v.contains(ps.drop_first()[i])
            &&& tx_validates(m, m[ps.drop_first()[i]], v.insert(ps.drop_first()[i]))
        } by {
            assert(ps.drop_first()[i] == ps[i + 1]);
        }
        lemma_parents_validate_intro(m, ps.drop_first(), v);
        assert(m.contains_key(ps[0]) && tx_validates(m, m[ps[0]], v.insert(ps[0])));
    }
}

/// Shrinking the visiting set can only help: whatever validates with a
/// larger visiting set validates with a smaller one.
pub proof fn lemma_parents_validate_monotone(
    m: Map<Seq<char>, TxView>,
    ps: Seq<Seq<char>>,
    v1: Set<Seq<char>>,
    v2: Set<Seq<char>>,
)
    requires
        m.dom().finite(),
        v1.finite(),
        v2.finite(),
        v1.subset_of(v2),
        parents_validate(m, ps, v2),
    ensures
        parents_validate(m, ps, v1),
    decreases unvisited_count(m, v2), ps.len(),
{
    if ps.len() > 0 {
        let p = ps[0];
        assert(m.contains_key(p) && m[p].status == TxStatus::Valid && !v2.contains(p)
            && tx_validates(m, m[p], v2.insert(p)) && parents_validate(m, ps.drop_first(), v2));
        assert(parents_validate(m, m[p].parents, v2.insert(p)) && signature_ok(m[p]));
        assert(!v1.contains(p));
        m.dom().lemma_set_insert_diff_decreases(v2, p);
        assert(v1.insert(p).subset_of(v2.insert(p)));
        lemma_parents_validate_monotone(m, m[p].parents, v1.insert(p), v2.insert(p));
        assert(tx_validates(m, m[p], v1.insert(p)));
        lemma_parents_validate_monotone(m, ps.drop_first(), v1, v2);
        assert(parents_validate(m, ps, v1));
    }
}

/// [`lemma_parents_validate_monotone`] lifted to a whole transaction.
pub proof fn lemma_tx_validates_monotone(
    m: Map<Seq<char>, TxView>,
    t: TxView,
    v1: Set<Seq<char>>,
    v2: Set<Seq<char>>,
)
    requires
        m.dom().finite(),
        v1.finite(),
        v2.finite(),
        v1.subset_of(v2),
        tx_validates(m, t, v2),
    ensures
        tx_validates(m, t, v1),
{
    lemma_parents_validate_monotone(m, t.parents, v1, v2);
}

/// Walking any parent-linked chain below a validating transaction never
/// revisits an id: all chain elements avoid the visiting set, are pairwise
/// distinct, and the chain's end validates with the whole chain visited.
pub proof fn lemma_validates_chain(
    m: Map<Seq<char>, TxView>,
    t: TxView,
    w: Set<Seq<char>>,
    c: Seq<Seq<char>>,
)
    requires
        m.dom().finite(),
        w.finite(),
        tx_validates(m, t, w),
        c.len() >= 1,
        t.parents.contains(c[0]),
        chain_links(m, c),
    ensures
        forall|i: int| 0 <= i < c.len() ==> !w.contains(#[trigger] c[i]),
        forall|i: int, j: int| 0 <= i < j < c.len() ==> c[i] != c[j],
        tx_validates(m, m[c.last()], w.union(c.to_set())),
    decreases c.len(),
{
    let p = c[0];
    lemma_parents_validate_each(m, t.parents, w);
    let k = choose|k: int| 0 <= k < t.parents.len() && t.parents[k] == p;
    assert(t.parents[k] == p);
    assert(tx_validates(m, m[p], w.insert(p)));
    if c.len() == 1 {
        assert(w.union(c.to_set()) =~= w.insert(p));
    } else {
        let c2 = c.drop_first();
        assert forall|i: int| 0 <= i < c2.len() implies m.contains_key(#[trigger] c2[i]) by {
            assert(c2[i] == c[i + 1]);
        }
        assert forall|i: int| 0 <= i && i + 1 < c2.len() implies (#[trigger] m[c2[i]])
            .parents
            .contains(c2[i + 1]) by {
            assert(c2[i] == c[i + 1]);
            assert(c2[i + 1] == c[i + 2]);
        }
        assert(m[p].parents.contains(c[1]));
        assert(c2[0] == c[1]);
        lemma_validates_chain(m, m[p], w.insert(p), c2);
        assert forall|i: int| 0 <= i < c.len() implies !w.contains(#[trigger] c[i]) by {
            if i > 0 {
                assert(c[i] == c2[i - 1]);
                assert(!w.insert(p).contains(c2[i - 1]));
            }
        }
        assert forall|i: int, j: int| 0 <= i < j < c.len() implies c[i] != c[j] by {
            if i == 0 {
                assert(c[j] == c2[j - 1]);
                assert(!w.insert(p).contains(c2[j - 1]));
            } else {
                assert(c[i] == c2[i - 1]);
                assert(c[j] == c2[j - 1]);
            }
        }
        assert(c.last() == c2.last());
        assert(w.insert(p).union(c2.to_set()) =~= w.union(c.to_set())) by {
            assert forall|x: Seq<char>| c.to_set().contains(x) implies p == x
                || c2.to_set().contains(x) by {
                let ix = choose|ix: int| 0 <= ix < c.len() && c[ix] == x;
                if ix > 0 {
                    assert(c2[ix - 1] == x);
                }
            }
            assert forall|x: Seq<char>| c2.to_set().contains(x) implies c.to_set().contains(x) by {
                let ix = choose|ix: int| 0 <= ix < c2.len() && c2[ix] == x;
                assert(c[ix + 1] == x);
            }
            assert(c.to_set().contains(p));
        }
    }
}

/// If a transaction validates with an empty visiting set, it also validates
/// with any visiting set made only of ids that lie on a chain down to it.
pub proof fn lemma_validates_extend(m: Map<Seq<char>, TxView>, t_id: Seq<char>, v: Set<Seq<char>>)
    requires
        m.dom().finite(),
        v.finite(),
        v.subset_of(m.dom()),
        m.contains_key(t_id),
        tx_validates(m, m[t_id], Set::empty()),
        forall|y: Seq<char>| v.contains(y) ==> reaches(m, y, t_id),
    ensures
        tx_validates(m, m[t_id], v),
    decreases unvisited_count(m, v),
{
    let t = m[t_id];
    lemma_parents_validate_each(m, t.parents, Set::empty());
    assert forall|i: int| 0 <= i < t.parents.len() implies {
        &&& m.contains_key(#[trigger] t.parents[i])
        &&& m[t.parents[i]].status == TxStatus::Valid
        &&& !v.contains(t.parents[i])
        &&& tx_validates(m, m[t.parents[i]], v.insert(t.parents[i]))
    } by {
        let p = t.parents[i];
        assert(m.contains_key(p));
        assert(tx_validates(m, m[p], Set::empty().insert(p)));
        if v.contains(p) {
            // p would be both an ancestor of t and one of t's parents: the
            // chain from t back to itself revisits p, contradicting validity.
            let cp = choose|cp: Seq<Seq<char>>|
                #[trigger] chain_links(m, cp) && cp.len() >= 1 && cp.first() == p && cp.last()
                    == t_id;
            let d = cp.push(p);
            assert forall|ix: int| 0 <= ix < d.len() implies m.contains_key(#[trigger] d[ix]) by {
                if ix < cp.len() {
                    assert(d[ix] == cp[ix]);
                }
            }
            assert forall|ix: int| 0 <= ix && ix + 1 < d.len() implies (#[trigger] m[d[ix]])
                .parents
                .contains(d[ix + 1]) by {
                if ix + 1 < cp.len() {
                    assert(d[ix] == cp[ix]);
                    assert(d[ix + 1] == cp[ix + 1]);
                } else {
                    assert(d[ix] == cp.last());
                    assert(m[t_id].parents.contains(p));
                }
            }
            assert(d[0] == cp[0]);
            assert(t.parents.contains(d[0]));
            lemma_validates_chain(m, t, Set::empty(), d);
            assert(d[0] == d[d.len() - 1]);
            assert(false);
        }
        lemma_tx_validates_monotone(m, m[p], Set::empty(), Set::empty().insert(p));
        assert forall|y: Seq<char>| v.insert(p).contains(y) implies reaches(m, y, p) by {
            if y == p {
                let single = seq![p];
                assert(chain_links(m, single)) by {
                    assert(single[0] == p);
                }
                assert(single.first() == p && single.last() == p);
                assert(reaches(m, y, p));
            } else {
                let cy = choose|cy: Seq<Seq<char>>|
                    #[trigger] chain_links(m, cy) && cy.len() >= 1 && cy.first() == y && cy.last()
                        == t_id;
                let dy = cy.push(p);
                assert forall|ix: int| 0 <= ix < dy.len() implies m.contains_key(
                    #[trigger] dy[ix],
                ) by {
                    if ix < cy.len() {
                        assert(dy[ix] == cy[ix]);
                    }
                }
                assert forall|ix: int| 0 <= ix && ix + 1 < dy.len() implies (#[trigger] m[dy[ix]])
                    .parents
                    .contains(dy[ix + 1]) by {
                    if ix + 1 < cy.len() {
                        assert(dy[ix] == cy[ix]);
                        assert(dy[ix + 1] == cy[ix + 1]);
                    } else {
                        assert(dy[ix] == cy.last());
                        assert(m[t_id].parents.contains(p));
                    }
                }
                assert(chain_links(m, dy));
                assert(dy[0] == cy[0]);
                assert(dy.first() == y);
                assert(dy.last() == p);
                assert(reaches(m, y, p));
            }
        }
        m.dom().lemma_set_insert_diff_decreases(v, p);
        lemma_validates_extend(m, p, v.insert(p));
    }
    lemma_parents_validate_intro(m, t.parents, v);
}

/// The verdict of validation does not depend on a visiting set whose ids all
/// lie on chains down to the transaction under scrutiny.
pub proof fn lemma_validates_visiting_irrelevant(
    m: Map<Seq<char>, TxView>,
    t_id: Seq<char>,
    v: Set<Seq<char>>,
)
    requires
        m.dom().finite(),
        v.finite(),
        v.subset_of(m.dom()),
        m.contains_key(t_id),
        forall|y: Seq<char>| v.contains(y) ==> reaches(m, y, t_id),
    ensures
        tx_validates(m, m[t_id], v) == tx_validates(m, m[t_id], Set::empty()),
{
    if tx_validates(m, m[t_id], Set::empty()) {
        lemma_validates_extend(m, t_id, v);
    }
    if tx_validates(m, m[t_id], v) {
        assert(Set::<Seq<char>>::empty().subset_of(v));
        lemma_tx_validates_monotone(m, m[t_id], Set::empty(), v);
    }
}

/// Root validity: a parentless transaction validates exactly when its own
/// signature verifies.
pub proof fn lemma_root_validity(m: Map<Seq<char>, TxView>, t: TxView)
    requires
        m.dom().finite(),
        t.parents.len() == 0,
    ensures
        spec_valid_transaction(m, t) == signature_ok(t),
{
    assert(parents_validate(m, t.parents, Set::empty()));
}

/// Ancestor propagation: a transaction whose direct parent is stored with
/// status `Revoked` fails validation, however good its own signature.
pub proof fn lemma_revoked_parent_invalid(
    m: Map<Seq<char>, TxView>,
    t: TxView,
    p_id: Seq<char>,
)
    requires
        m.dom().finite(),
        t.parents.contains(p_id),
        m.contains_key(p_id),
        m[p_id].status == TxStatus::Revoked,
    ensures
        !spec_valid_transaction(m, t),
{
    if spec_valid_transaction(m, t) {
        lemma_parents_validate_each(m, t.parents, Set::empty());
        let k = choose|k: int| 0 <= k < t.parents.len() && t.parents[k] == p_id;
        assert(m[t.parents[k]].status == TxStatus::Valid);
    }
}

/// A transaction with a parent missing from the graph fails validation.
pub proof fn lemma_missing_parent_invalid(
    m: Map<Seq<char>, TxView>,
    t: TxView,
    p_id: Seq<char>,
)
    requires
        m.dom().finite(),
        t.parents.contains(p_id),
        !m.contains_key(p_id),
    ensures
        !spec_valid_transaction(m, t),
{
    if spec_valid_transaction(m, t) {
        lemma_parents_validate_each(m, t.parents, Set::empty());
        let k = choose|k: int| 0 <= k < t.parents.len() && t.parents[k] == p_id;
        assert(m.contains_key(t.parents[k]));
    }
}

/// Cycle safety: two stored transactions that name each other as parents
/// both fail validation. Termination of validation itself is structural: the
/// definition is well-founded for every graph, cyclic or not.
pub proof fn lemma_mutual_parents_invalid(
    m: Map<Seq<char>, TxView>,
    a_id: Seq<char>,
    b_id: Seq<char>,
)
    requires
        m.dom().finite(),
        m.contains_key(a_id),
        m.contains_key(b_id),
        m[a_id].parents.contains(b_id),
        m[b_id].parents.contains(a_id),
    ensures
        !spec_valid_transaction(m, m[a_id]),
        !spec_valid_transaction(m, m[b_id]),
{
    lemma_mutual_parents_invalid_one(m, a_id, b_id);
    lemma_mutual_parents_invalid_one(m, b_id, a_id);
}

proof fn lemma_mutual_parents_invalid_one(
    m: Map<Seq<char>, TxView>,
    a_id: Seq<char>,
    b_id: Seq<char>,
)
    requires
        m.dom().finite(),
        m.contains_key(a_id),
        m.contains_key(b_id),
        m[a_id].parents.contains(b_id),
        m[b_id].parents.contains(a_id),
    ensures
        !spec_valid_transaction(m, m[a_id]),
{
    if spec_valid_transaction(m, m[a_id]) {
        let v0 = Set::<Seq<char>>::empty();
        lemma_parents_validate_each(m, m[a_id].parents, v0);
        let k = choose|k: int| 0 <= k < m[a_id].parents.len() && m[a_id].parents[k] == b_id;
        assert(tx_validates(m, m[b_id], v0.insert(b_id)));
        lemma_parents_validate_each(m, m[b_id].parents, v0.insert(b_id));
        let k2 = choose|k2: int| 0 <= k2 < m[b_id].parents.len() && m[b_id].parents[k2] == a_id;
        assert(tx_validates(m, m[a_id], v0.insert(b_id).insert(a_id)));
        lemma_parents_validate_each(m, m[a_id].parents, v0.insert(b_id).insert(a_id));
        assert(!v0.insert(b_id).insert(a_id).contains(m[a_id].parents[k]));
    }
}

/// The relation between the executable traversal's visiting stack and the
/// graph: every stacked id is stored, consecutive ids are linked child to
/// parent, and the transaction currently under scrutiny is the stored
/// transaction of the last stacked id (the stack is empty at the root call).
pub open spec fn chain_down(m: Map<Seq<char>, TxView>, vs: Seq<Seq<char>>, t: TxView) -> bool {
    &&& forall|i: int| 0 <= i < vs.len() ==> m.contains_key(#[trigger] vs[i])
    &&& forall|i: int| 0 <= i && i + 1 < vs.len() ==> (#[trigger] m[vs[i]]).parents.contains(
        vs[i + 1],
    )
    &&& vs.len() > 0 ==> vs.last() == t.id && m[vs.last()] == t
}

/// Extending the visiting stack with a parent of the current transaction
/// keeps the chain intact, and every id on the extended stack lies on a
/// chain down to that parent.
pub proof fn lemma_chain_down_step(
    m: Map<Seq<char>, TxView>,
    vs: Seq<Seq<char>>,
    t: TxView,
    p: Seq<char>,
)
    requires
        id_coherent(m),
        chain_down(m, vs, t),
        t.parents.contains(p),
        m.contains_key(p),
    ensures
        chain_down(m, vs.push(p), m[p]),
        forall|y: Seq<char>| vs.push(p).to_set().contains(y) ==> reaches(m, y, p),
        vs.push(p).to_set() == vs.to_set().insert(p),
{
    let d = vs.push(p);
    assert forall|i: int| 0 <= i < d.len() implies m.contains_key(#[trigger] d[i]) by {
        if i < vs.len() {
            assert(d[i] == vs[i]);
        }
    }
    assert forall|i: int| 0 <= i && i + 1 < d.len() implies (#[trigger] m[d[i]]).parents.contains(
        d[i + 1],
    ) by {
        if i + 1 < vs.len() {
            assert(d[i] == vs[i]);
            assert(d[i + 1] == vs[i + 1]);
        } else {
            assert(d[i] == vs.last());
            assert(m[vs.last()] == t);
        }
    }
    assert(d.last() == p);
    assert(m[p].id == p);
    assert forall|y: Seq<char>| d.to_set().contains(y) implies reaches(m, y, p) by {
        let ix = choose|ix: int| 0 <= ix < d.len() && d[ix] == y;
        let c = d.subrange(ix, d.len() as int);
        assert forall|q: int| 0 <= q < c.len() implies m.contains_key(#[trigger] c[q]) by {
            assert(c[q] == d[ix + q]);
        }
        assert forall|q: int| 0 <= q && q + 1 < c.len() implies (#[trigger] m[c[q]])
            .parents
            .contains(c[q + 1]) by {
            assert(c[q] == d[ix + q]);
            assert(c[q + 1] == d[ix + q + 1]);
        }
        assert(chain_links(m, c));
        assert(c.first() == y && c.last() == p);
    }
    assert(d.to_set() =~= vs.to_set().insert(p)) by {
        assert forall|x: Seq<char>| d.to_set().contains(x) implies vs.to_set().insert(p).contains(
            x,
        ) by {
            let ix = choose|ix: int| 0 <= ix < d.len() && d[ix] == x;
            if ix < vs.len() {
                assert(vs[ix] == x);
            }
        }
        assert forall|x: Seq<char>| vs.to_set().insert(p).contains(x) implies d.to_set().contains(
            x,
        ) by {
            if x == p {
                assert(d[d.len() - 1] == x);
            } else {
                let ix = choose|ix: int| 0 <= ix < vs.len() && vs[ix] == x;
                assert(d[ix] == x);
            }
        }
    }
}

} // verus!
