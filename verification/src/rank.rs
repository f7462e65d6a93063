//! Ranking: the positions of the best `top_k` keys, best first, equal keys
//! in their original order; a stable sort by descending key, cut to `top_k`.

use vstd::prelude::*;

verus! {

broadcast use vstd::seq_lib::lemma_seq_contains_after_push;

/// Position `a` ranks before position `b`: a larger key, or an equal key
/// earlier in the input.
pub open spec fn ranks_before(keys: Seq<u64>, a: int, b: int) -> bool {
    keys[a] > keys[b] || (keys[a] == keys[b] && a < b)
}

/// The smaller of two naturals.
pub open spec fn min_nat(a: nat, b: nat) -> nat {
    if a < b {
        a
    } else {
        b
    }
}

/// `r` lists the positions of the best `top_k` keys, best first: as many as
/// there are (at most `top_k`), in ranking order, and every position left
/// out ranks after every position listed.
pub open spec fn is_top_ranking(keys: Seq<u64>, top_k: nat, r: Seq<usize>) -> bool {
    &&& r.len() == min_nat(top_k, keys.len())
    &&& forall|i: int| 0 <= i < r.len() ==> (#[trigger] r[i]) < keys.len()
    &&& forall|i: int, j: int|
        0 <= i < j < r.len() ==> ranks_before(keys, #[trigger] r[i] as int, #[trigger] r[j] as int)
    &&& forall|p: usize, i: int|
        #![trigger r.contains(p), r[i]]
        p < keys.len() && !r.contains(p) && 0 <= i < r.len() ==> ranks_before(
            keys,
            r[i] as int,
            p as int,
        )
}

/// Law: ranking is by the keys themselves: a strictly larger key ranks
/// first, an equal key ranks first exactly when it comes earlier, and of two
/// distinct positions exactly one ranks before the other.
pub proof fn lemma_ranks_before_by_key(keys: Seq<u64>, a: int, b: int)
    ensures
        keys[a] > keys[b] ==> ranks_before(keys, a, b) && !ranks_before(keys, b, a),
        keys[a] == keys[b] ==> (ranks_before(keys, a, b) <==> a < b),
        a != b ==> (ranks_before(keys, a, b) <==> !ranks_before(keys, b, a)),
        ranks_before(keys, a, b) ==> keys[a] >= keys[b],
{
}

/// Law: a top ranking lists keys in descending order, equal keys by
/// position, and no key left out is larger than a key listed.
pub proof fn lemma_top_ranking_descends(keys: Seq<u64>, top_k: nat, r: Seq<usize>)
    requires
        is_top_ranking(keys, top_k, r),
    ensures
        forall|i: int, j: int|
            0 <= i < j < r.len() ==> keys[#[trigger] r[i] as int] > keys[#[trigger] r[j] as int] || (
            keys[r[i] as int] == keys[r[j] as int] && r[i] < r[j]),
        forall|p: usize, i: int|
            #![trigger r.contains(p), r[i]]
            p < keys.len() && !r.contains(p) && 0 <= i < r.len() ==> keys[r[i] as int] >= keys[p as int],
{
    assert forall|i: int, j: int| 0 <= i < j < r.len() implies keys[#[trigger] r[i] as int] > keys[#[trigger] r[j] as int] || (
        keys[r[i] as int] == keys[r[j] as int] && r[i] < r[j]) by {
        lemma_ranks_before_by_key(keys, r[i] as int, r[j] as int);
    }
    assert forall|p: usize, i: int|
        #![trigger r.contains(p), r[i]]
        p < keys.len() && !r.contains(p) && 0 <= i < r.len() implies keys[r[i] as int] >= keys[p as int] by {
        lemma_ranks_before_by_key(keys, r[i] as int, p as int);
    }
}

/// The positions of the `top_k` largest keys, largest first; equal keys keep
/// their order of appearance.
pub fn rank(keys: &[u64], top_k: usize) -> (r: Vec<usize>)
    ensures
        is_top_ranking(keys@, top_k as nat, r@),
        r.len() == min_nat(top_k as nat, keys.len() as nat),
        forall|i: int, j: int|
            0 <= i < j < r.len() ==> keys@[#[trigger] r[i] as int] > keys@[#[trigger] r[j] as int] || (
            keys@[r[i] as int] == keys@[r[j] as int] && r[i] < r[j]),
        forall|p: usize, i: int|
            #![trigger r@.contains(p), r[i]]
            p < keys.len() && !r@.contains(p) && 0 <= i < r.len() ==> keys@[r[i] as int] >= keys@[p as int],
{
    let mut order: Vec<usize> = Vec::new();
    let mut p: usize = 0;
    while p < keys.len()
        invariant
            p <= keys.len(),
            order.len() == min_nat(top_k as nat, p as nat),
            forall|i: int| 0 <= i < order.len() ==> (#[trigger] order[i]) < p,
            forall|i: int, j: int|
                0 <= i < j < order.len() ==> ranks_before(
                    keys@,
                    #[trigger] order[i] as int,
                    #[trigger] order[j] as int,
                ),
            forall|q: usize, i: int|
                #![trigger order@.contains(q), order@[i]]
                q < p && !order@.contains(q) && 0 <= i < order.len()
                    ==> ranks_before(keys@, order@[i] as int, q as int),
            order.len() < top_k ==> forall|q: usize| q < p ==> #[trigger] order@.contains(q),
        decreases keys.len() - p,
    {
        let mut j: usize = 0;
        while j < order.len() && keys[order[j]] >= keys[p]
            invariant
                p < keys.len(),
                j <= order.len(),
                forall|i: int| 0 <= i < order.len() ==> (#[trigger] order[i]) < p,
                forall|i: int| 0 <= i < j ==> ranks_before(keys@, #[trigger] order[i] as int, p as int),
            decreases order.len() - j,
        {
            j += 1;
        }
        let ghost old_order = order@;
        if j < top_k {
            order.insert(j, p);
            proof {
                assert forall|i: int| 0 <= i < order.len() implies (#[trigger] order[i]) < p + 1 by {
                    if i < j {
                        assert(order[i] == old_order[i]);
                    } else if i > j {
                        assert(order[i] == old_order[i - 1]);
                    }
                }
                if j < old_order.len() {
                    assert(keys@[old_order[j as int] as int] < keys@[p as int]);
                }
                assert forall|a: int, b: int| 0 <= a < b < order.len() implies ranks_before(
                    keys@,
                    #[trigger] order[a] as int,
                    #[trigger] order[b] as int,
                ) by {
                    if b < j {
                        assert(order[a] == old_order[a] && order[b] == old_order[b]);
                    } else if b == j {
                        assert(order[a] == old_order[a]);
                    } else if a == j {
                        assert(order[b] == old_order[b - 1]);
                        if b - 1 > j {
                            assert(ranks_before(keys@, old_order[j as int] as int, old_order[b - 1] as int));
                        }
                    } else if a < j {
                        assert(order[a] == old_order[a] && order[b] == old_order[b - 1]);
                    } else {
                        assert(order[a] == old_order[a - 1] && order[b] == old_order[b - 1]);
                    }
                }
            }
            if order.len() > top_k {
                let ghost full = order@;
                let ghost e = order@.last();
                order.pop();
                proof {
                    assert(order@ =~= full.drop_last());
                    assert forall|q: usize, i: int|
                        #![trigger order@.contains(q), order@[i]]
                        q < p + 1 && !order@.contains(q) && 0 <= i < order.len()
                            implies ranks_before(keys@, order@[i] as int, q as int) by {
                        assert(order[i] == full[i]);
                        if q == e {
                            assert(ranks_before(keys@, full[i] as int, full[full.len() - 1] as int));
                        } else {
                            assert(!full.contains(q)) by {
                                if full.contains(q) {
                                    let w = choose|w: int| 0 <= w < full.len() && full[w] == q;
                                    assert(order[w] == full[w]);
                                }
                            }
                            assert(full[j as int] == p);
                            assert(q < p);
                            assert(!old_order.contains(q)) by {
                                if old_order.contains(q) {
                                    let w = choose|w: int| 0 <= w < old_order.len() && old_order[w] == q;
                                    if w < j {
                                        assert(full[w] == q);
                                    } else {
                                        assert(full[w + 1] == q);
                                    }
                                }
                            }
                            assert(ranks_before(keys@, full[i] as int, e as int));
                            assert(ranks_before(keys@, old_order[old_order.len() - 1] as int, q as int));
                            assert(full[full.len() - 1] == old_order[old_order.len() - 1]);
                        }
                    }
                }
            } else {
                proof {
                    assert forall|q: usize| q < p + 1 implies #[trigger] order@.contains(q) by {
                        if q == p {
                            assert(order[j as int] == p);
                        } else {
                            assert(old_order.contains(q));
                            let w = choose|w: int| 0 <= w < old_order.len() && old_order[w] == q;
                            if w < j {
                                assert(order[w] == q);
                            } else {
                                assert(order[w + 1] == q);
                            }
                        }
                    }
                }
            }
        } else {
            proof {
                assert forall|q: usize, i: int|
                    #![trigger order@.contains(q), order@[i]]
                    q < p + 1 && !order@.contains(q) && 0 <= i < order.len()
                        implies ranks_before(keys@, order@[i] as int, q as int) by {
                    if q < p {
                    }
                }
            }
        }
        p += 1;
    }
    proof {
        assert forall|q: usize, i: int|
            #![trigger order@.contains(q), order@[i]]
            q < keys@.len() && !order@.contains(q) && 0 <= i < order.len()
                implies ranks_before(keys@, order@[i] as int, q as int) by {}
        lemma_top_ranking_descends(keys@, top_k as nat, order@);
    }
    order
}

proof fn lemma_top_ranking_prefix_agree(keys: Seq<u64>, top_k: nat, r1: Seq<usize>, r2: Seq<usize>, n: int)
    requires
        is_top_ranking(keys, top_k, r1),
        is_top_ranking(keys, top_k, r2),
        0 <= n <= r1.len(),
    ensures
        forall|i: int| 0 <= i < n ==> r1[i] == r2[i],
    decreases n,
{
    if n > 0 {
        let i = n - 1;
        lemma_top_ranking_prefix_agree(keys, top_k, r1, r2, i);
        let a = r1[i];
        let b = r2[i];
        if a != b {
            assert(ranks_before(keys, a as int, b as int)) by {
                if r1.contains(b) {
                    let j = choose|j: int| 0 <= j < r1.len() && r1[j] == b;
                    if j < i {
                        assert(r2[j] == r1[j]);
                        assert(ranks_before(keys, r2[j] as int, r2[i] as int));
                    }
                    assert(j != i);
                }
            }
            assert(ranks_before(keys, b as int, a as int)) by {
                if r2.contains(a) {
                    let j = choose|j: int| 0 <= j < r2.len() && r2[j] == a;
                    if j < i {
                        assert(r1[j] == r2[j]);
                        assert(ranks_before(keys, r1[j] as int, r1[i] as int));
                    }
                    assert(j != i);
                }
            }
        }
    }
}

/// Law: the ranking is determined by the keys and `top_k`: two rankings
/// that both meet the contract of `rank` are the same list.
pub proof fn lemma_top_ranking_unique(keys: Seq<u64>, top_k: nat, r1: Seq<usize>, r2: Seq<usize>)
    requires
        is_top_ranking(keys, top_k, r1),
        is_top_ranking(keys, top_k, r2),
    ensures
        r1 == r2,
{
    lemma_top_ranking_prefix_agree(keys, top_k, r1, r2, r1.len() as int);
    assert(r1 =~= r2);
}

} // verus!
