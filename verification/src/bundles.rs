//! Deterministic read-only batching of stored transactions.
//!
//! All stored transactions are sorted by ascending timestamp and split into
//! bundles: of size one when fewer than ten are stored, of size
//! `count / 5` otherwise, the last bundle possibly smaller.

use vstd::prelude::*;
use vstd::multiset::Multiset;
use vstd::seq_lib::group_to_multiset_ensures;

use crate::graph::DAG;
use crate::txn::{Transaction, TxView};

verus! {

broadcast use group_to_multiset_ensures;

/// Timestamps never decrease along the sequence.
pub open spec fn sorted_by_timestamp(s: Seq<TxView>) -> bool {
    forall|i: int, j: int|
        0 <= i < j < s.len() ==> (#[trigger] s[i]).timestamp <= (#[trigger] s[j]).timestamp
}

/// The index of the first transaction attaining the minimum timestamp.
pub open spec fn first_min_index(s: Seq<TxView>) -> int
    recommends
        s.len() > 0,
    decreases s.len(),
{
    if s.len() <= 1 {
        0
    } else {
        let r = first_min_index(s.drop_first()) + 1;
        if s[0].timestamp <= s[r].timestamp {
            0
        } else {
            r
        }
    }
}

/// [`first_min_index`] names an in-range index whose timestamp is minimal,
/// with everything before it strictly larger.
pub proof fn lemma_first_min_index(s: Seq<TxView>)
    requires
        s.len() > 0,
    ensures
        0 <= first_min_index(s) < s.len(),
        forall|b: int|
            0 <= b < s.len() ==> s[first_min_index(s)].timestamp <= (#[trigger] s[b]).timestamp,
        forall|b: int|
            0 <= b < first_min_index(s) ==> (#[trigger] s[b]).timestamp
                > s[first_min_index(s)].timestamp,
    decreases s.len(),
{
    if s.len() > 1 {
        lemma_first_min_index(s.drop_first());
        let r = first_min_index(s.drop_first()) + 1;
        assert(s[r] == s.drop_first()[r - 1]);
        assert forall|b: int| 0 <= b < s.len() implies s[first_min_index(s)].timestamp <= (
        #[trigger] s[b]).timestamp by {
            if b > 0 {
                assert(s[b] == s.drop_first()[b - 1]);
            }
        }
        assert forall|b: int| 0 <= b < first_min_index(s) implies (#[trigger] s[b]).timestamp
            > s[first_min_index(s)].timestamp by {
            if b > 0 {
                assert(s[b] == s.drop_first()[b - 1]);
            }
        }
    }
}

/// The stable sort by timestamp: repeatedly pull out the first transaction
/// attaining the minimum, so that equal timestamps keep their stored order.
pub open spec fn spec_sort_by_timestamp(s: Seq<TxView>) -> Seq<TxView>
    decreases s.len(),
{
    if s.len() == 0 {
        Seq::empty()
    } else {
        proof {
            lemma_first_min_index(s);
        }
        let j = first_min_index(s);
        seq![s[j]] + spec_sort_by_timestamp(s.remove(j))
    }
}

/// Copies the transactions of `src` in the index range `[from, from + len)`.
fn clone_tx_range(src: &Vec<Transaction>, from: usize, len: usize) -> (r: Vec<Transaction>)
    requires
        from + len <= src@.len(),
    ensures
        r.deep_view() == src.deep_view().subrange(from as int, from as int + len as int),
{
    let n = src.len();
    let mut out: Vec<Transaction> = Vec::new();
    let mut i: usize = 0;
    while i < len
        invariant
            n == src@.len(),
            from + len <= n,
            0 <= i <= len,
            out.deep_view() =~= src.deep_view().subrange(from as int, from as int + i as int),
        decreases len - i,
    {
        out.push(src[from + i].clone());
        proof {
            let dv = src.deep_view();
            assert(out.deep_view() =~= dv.subrange(from as int, from as int + i as int).push(
                dv[from as int + i as int],
            ));
            assert(dv.subrange(from as int, from as int + i as int).push(
                dv[from as int + i as int],
            ) =~= dv.subrange(from as int, from as int + i as int + 1));
        }
        i = i + 1;
    }
    proof {
        assert(out.deep_view() =~= src.deep_view().subrange(from as int, from as int + len as int));
    }
    out
}

/// Sorts transactions by ascending timestamp, stably: the result is the
/// stable sort of the input, holding exactly the input transactions.
fn sort_by_timestamp(src: &Vec<Transaction>) -> (r: Vec<Transaction>)
    ensures
        r.deep_view() == spec_sort_by_timestamp(src.deep_view()),
        r.deep_view().to_multiset() == src.deep_view().to_multiset(),
        sorted_by_timestamp(r.deep_view()),
{
    let total = src.len();
    let mut remaining = clone_tx_range(src, 0, total);
    proof {
        assert(remaining.deep_view() =~= src.deep_view());
    }
    let mut out: Vec<Transaction> = Vec::new();
    proof {
        assert(Seq::<TxView>::empty() + spec_sort_by_timestamp(src.deep_view())
            =~= spec_sort_by_timestamp(src.deep_view()));
    }
    while remaining.len() > 0
        invariant
            out.deep_view().to_multiset().add(remaining.deep_view().to_multiset())
                == src.deep_view().to_multiset(),
            sorted_by_timestamp(out.deep_view()),
            spec_sort_by_timestamp(src.deep_view()) == out.deep_view() + spec_sort_by_timestamp(
                remaining.deep_view(),
            ),
            forall|a: int, b: int|
                0 <= a < out.deep_view().len() && 0 <= b < remaining.deep_view().len() ==> (
                #[trigger] out.deep_view()[a]).timestamp <= (
                #[trigger] remaining.deep_view()[b]).timestamp,
        decreases remaining.len(),
    {
        let n = remaining.len();
        let mut j: usize = 0;
        let mut k: usize = 1;
        while k < n
            invariant
                n == remaining@.len(),
                0 <= j < n,
                1 <= k <= n,
                forall|b: int|
                    0 <= b < k ==> (#[trigger] remaining.deep_view()[j as int]).timestamp
                        <= remaining.deep_view()[b].timestamp,
                forall|b: int|
                    0 <= b < j ==> (#[trigger] remaining.deep_view()[b]).timestamp
                        > remaining.deep_view()[j as int].timestamp,
            decreases n - k,
        {
            if remaining[k].timestamp < remaining[j].timestamp {
                proof {
                    assert forall|b: int| 0 <= b < k implies (
                    #[trigger] remaining.deep_view()[b]).timestamp
                        > remaining.deep_view()[k as int].timestamp by {
                        assert(remaining.deep_view()[j as int].timestamp
                            <= remaining.deep_view()[b].timestamp);
                    }
                }
                j = k;
            }
            k = k + 1;
        }
        let ghost out0 = out.deep_view();
        let ghost rem0 = remaining.deep_view();
        proof {
            lemma_first_min_index(rem0);
            let f = first_min_index(rem0);
            if (j as int) < f {
                assert(rem0[j as int].timestamp > rem0[f].timestamp);
                assert(rem0[j as int].timestamp <= rem0[f].timestamp);
            }
            if (j as int) > f {
                assert(rem0[f].timestamp > rem0[j as int].timestamp);
                assert(rem0[f].timestamp <= rem0[j as int].timestamp);
            }
            assert(j as int == f);
        }
        let picked = remaining.remove(j);
        out.push(picked);
        proof {
            assert(spec_sort_by_timestamp(rem0) == seq![rem0[j as int]]
                + spec_sort_by_timestamp(rem0.remove(j as int)));
            assert(out0 + (seq![rem0[j as int]] + spec_sort_by_timestamp(
                rem0.remove(j as int),
            )) =~= out0.push(rem0[j as int]) + spec_sort_by_timestamp(rem0.remove(j as int)));
            assert(remaining.deep_view() =~= rem0.remove(j as int));
            assert(out.deep_view() =~= out0.push(picked@));
            assert(picked@ == rem0[j as int]);
            assert(out.deep_view().to_multiset() =~= out0.to_multiset().insert(picked@));
            assert(remaining.deep_view().to_multiset() =~= rem0.to_multiset().remove(picked@));
            assert(rem0.to_multiset().contains(picked@)) by {
                assert(rem0.contains(picked@));
            }
            assert(out0.to_multiset().insert(picked@).add(rem0.to_multiset().remove(picked@))
                =~= out0.to_multiset().add(rem0.to_multiset()));
            assert forall|a: int, b: int|
                0 <= a < out.deep_view().len() && 0 <= b
                    < remaining.deep_view().len() implies (
            #[trigger] out.deep_view()[a]).timestamp <= (
            #[trigger] remaining.deep_view()[b]).timestamp by {
                let bb = if b < j as int {
                    b
                } else {
                    b + 1
                };
                assert(remaining.deep_view()[b] == rem0[bb]);
                if a < out0.len() {
                    assert(out.deep_view()[a] == out0[a]);
                } else {
                    assert(out.deep_view()[a] == picked@);
                }
            }
            assert forall|a: int, b: int|
                0 <= a < b < out.deep_view().len() implies (
            #[trigger] out.deep_view()[a]).timestamp <= (
            #[trigger] out.deep_view()[b]).timestamp by {
                if b == out.deep_view().len() - 1 {
                    assert(out.deep_view()[a] == out0[a]);
                    assert(out.deep_view()[b] == picked@);
                }
            }
        }
    }
    proof {
        assert(remaining.deep_view() =~= Seq::<TxView>::empty());
        assert(remaining.deep_view().to_multiset() =~= Multiset::<TxView>::empty());
        assert(out.deep_view().to_multiset().add(Multiset::<TxView>::empty())
            =~= out.deep_view().to_multiset());
        assert(spec_sort_by_timestamp(Seq::<TxView>::empty()) =~= Seq::<TxView>::empty());
        assert(out.deep_view() + Seq::<TxView>::empty() =~= out.deep_view());
    }
    out
}

impl DAG {
    /// Deterministic, read-only batching of the stored transactions for a
    /// downstream consumer: all of them, sorted by ascending timestamp,
    /// partitioned into bundles of size one when fewer than ten are stored
    /// and `count / 5` otherwise; the last bundle may be smaller, and no
    /// bundle is empty.
    pub fn process_adaptive_bundles(&self) -> (r: Vec<Vec<Transaction>>)
        ensures
            ({
                let flat = r.deep_view().flatten();
                let total = self.tx_seq().len() as int;
                let bsize: int = if total < 10 {
                    1
                } else {
                    total / 5
                };
                &&& flat == spec_sort_by_timestamp(self.tx_seq())
                &&& flat.to_multiset() == self.tx_seq().to_multiset()
                &&& flat.len() == total
                &&& sorted_by_timestamp(flat)
                &&& forall|i: int|
                    0 <= i < r.deep_view().len() ==> (#[trigger] r.deep_view()[i])
                        == flat.subrange(
                        i * bsize,
                        if (i + 1) * bsize <= total {
                            (i + 1) * bsize
                        } else {
                            total
                        },
                    )
                &&& forall|i: int| 0 <= i < r.deep_view().len() ==> (
                #[trigger] r.deep_view()[i]).len() > 0
            }),
    {
        broadcast use Seq::group_seq_flatten;

        let sorted = sort_by_timestamp(&self.transactions);
        proof {
            assert(self.transactions.deep_view() == self.tx_seq());
            sorted.deep_view().to_multiset_ensures();
            self.tx_seq().to_multiset_ensures();
        }
        let total = sorted.len();
        let bundle_size: usize = if total < 10 {
            1
        } else {
            total / 5
        };
        let ghost sv = sorted.deep_view();
        let ghost bs = bundle_size as int;
        let mut r: Vec<Vec<Transaction>> = Vec::new();
        let mut pos: usize = 0;
        proof {
            assert(r.deep_view().flatten() =~= Seq::<TxView>::empty());
            assert(sv.subrange(0, 0) =~= Seq::<TxView>::empty());
        }
        while pos < total
            invariant
                total == sv.len(),
                bs == bundle_size as int,
                bs >= 1,
                0 <= pos <= total,
                sorted.deep_view() == sv,
                total == sorted@.len(),
                r.deep_view().flatten() == sv.subrange(0, pos as int),
                pos as int == if r.deep_view().len() * bs <= total as int {
                    r.deep_view().len() * bs
                } else {
                    total as int
                },
                forall|i: int|
                    0 <= i < r.deep_view().len() ==> (#[trigger] r.deep_view()[i])
                        == sv.subrange(
                        i * bs,
                        if (i + 1) * bs <= total as int {
                            (i + 1) * bs
                        } else {
                            total as int
                        },
                    ),
                forall|i: int| 0 <= i < r.deep_view().len() ==> (
                #[trigger] r.deep_view()[i]).len() > 0,
            decreases total - pos,
        {
            let take: usize = if total - pos < bundle_size {
                total - pos
            } else {
                bundle_size
            };
            let ghost i = r.deep_view().len();
            proof {
                assert(pos as int == i * bs) by {
                    assert(pos < total);
                }
                assert((i + 1) * bs == i * bs + bs) by (nonlinear_arith);
            }
            let chunk = clone_tx_range(&sorted, pos, take);
            let ghost r0 = r.deep_view();
            let ghost flat0 = r.deep_view().flatten();
            r.push(chunk);
            proof {
                assert(r.deep_view() =~= r0.push(chunk.deep_view()));
                r0.lemma_flatten_push(chunk.deep_view());
                assert(r.deep_view().flatten() == r0.flatten() + chunk.deep_view());
                assert(r.deep_view().flatten() =~= sv.subrange(0, pos as int + take as int));
                assert forall|ix: int|
                    0 <= ix < r.deep_view().len() implies (#[trigger] r.deep_view()[ix])
                    == sv.subrange(
                    ix * bs,
                    if (ix + 1) * bs <= total as int {
                        (ix + 1) * bs
                    } else {
                        total as int
                    },
                ) by {
                    if ix < i {
                        assert(r.deep_view()[ix] == r0[ix]);
                    } else {
                        assert(r.deep_view()[ix] == chunk.deep_view());
                        assert((ix + 1) * bs == ix * bs + bs) by (nonlinear_arith);
                    }
                }
            }
            pos = pos + take;
            proof {
                assert((i + 1) * bs == i * bs + bs) by (nonlinear_arith);
            }
        }
        proof {
            assert(sv.subrange(0, total as int) =~= sv);
        }
        r
    }
}

} // verus!
