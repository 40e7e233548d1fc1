//! How the links of a level change when a node is added at the end.
use crate::store::skip_list::layout::{Level, NodeV};
use crate::store::skip_list::model::{
    bwd_ok, fwd_ok, ht, is_next, is_prev, level_ok, no_next, no_prev, node_links_ok,
};
use vstd::prelude::*;

verus! {

/// Nodes with the same heights among the first `m` have the same "next" links.
pub proof fn lemma_fwd_same<V>(
    offs1: Seq<u64>,
    n1: Seq<NodeV<V>>,
    offs2: Seq<u64>,
    n2: Seq<NodeV<V>>,
    m: int,
    i: int,
    k: int,
    f: u64,
)
    requires
        fwd_ok(offs1, n1, m, i, k, f),
        -1 <= k,
        forall|t: int| 0 <= t < m ==> #[trigger] ht(n1, t) == ht(n2, t),
        forall|t: int| 0 <= t < m ==> #[trigger] offs1[t] == offs2[t],
    ensures
        fwd_ok(offs2, n2, m, i, k, f),
{
    if no_next(n1, m, i, k) && f == 0 {
        assert forall|t: int| k < t < m && 0 <= t implies #[trigger] ht(n2, t) <= i by {
            assert(ht(n1, t) <= i);
        }
    } else {
        let j = choose|j: int| #[trigger] is_next(n1, m, i, k, j) && f == offs1[j];
        assert forall|t: int| k < t < j implies #[trigger] ht(n2, t) <= i by {
            assert(ht(n1, t) <= i);
        }
        assert(is_next(n2, m, i, k, j) && f == offs2[j]);
    }
}

/// Nodes with the same heights before `k` have the same "previous" links.
pub proof fn lemma_bwd_same<V>(
    offs1: Seq<u64>,
    n1: Seq<NodeV<V>>,
    offs2: Seq<u64>,
    n2: Seq<NodeV<V>>,
    i: int,
    k: int,
    b: u64,
)
    requires
        bwd_ok(offs1, n1, i, k, b),
        forall|t: int| 0 <= t < k ==> #[trigger] ht(n1, t) == ht(n2, t),
        forall|t: int| 0 <= t < k ==> #[trigger] offs1[t] == offs2[t],
    ensures
        bwd_ok(offs2, n2, i, k, b),
{
    if no_prev(n1, i, k) && b == 0 {
        assert forall|t: int| 0 <= t < k implies #[trigger] ht(n2, t) <= i by {
            assert(ht(n1, t) <= i);
        }
    } else {
        let j = choose|j: int| #[trigger] is_prev(n1, i, k, j) && b == offs1[j];
        assert forall|t: int| j < t < k implies #[trigger] ht(n2, t) <= i by {
            assert(ht(n1, t) <= i);
        }
        assert(is_prev(n2, i, k, j) && b == offs2[j]);
    }
}

/// Level `i` holds the same where the heights, the offsets and the links of
/// level `i` are the same.
pub proof fn lemma_level_same<V>(
    offs1: Seq<u64>,
    n1: Seq<NodeV<V>>,
    offs2: Seq<u64>,
    n2: Seq<NodeV<V>>,
    m: int,
    heads: Seq<Level>,
    i: int,
)
    requires
        level_ok(offs1, n1, m, heads, i),
        forall|t: int| 0 <= t < m ==> #[trigger] ht(n1, t) == ht(n2, t),
        forall|t: int| 0 <= t < m ==> #[trigger] offs1[t] == offs2[t],
        forall|t: int| 0 <= t < m && i < ht(n1, t) ==> #[trigger] n1[t].levels[i] == n2[t].levels[i],
    ensures
        level_ok(offs2, n2, m, heads, i),
{
    lemma_fwd_same(offs1, n1, offs2, n2, m, i, -1, heads[i].forward);
    lemma_bwd_same(offs1, n1, offs2, n2, i, m, heads[i].backward);
    assert forall|k: int| 0 <= k < m implies #[trigger] node_links_ok(offs2, n2, m, i, k) by {
        assert(node_links_ok(offs1, n1, m, i, k));
        if i < ht(n2, k) {
            assert(n1[k].levels[i] == n2[k].levels[i]);
            lemma_fwd_same(offs1, n1, offs2, n2, m, i, k, n1[k].levels[i].forward);
            lemma_bwd_same(offs1, n1, offs2, n2, i, k, n1[k].levels[i].backward);
        }
    }
}

/// A "next" link stays right when a node not on level `i` is added at the end.
pub proof fn lemma_fwd_grow<V>(offs: Seq<u64>, n: Seq<NodeV<V>>, m: int, i: int, k: int, f: u64)
    requires
        fwd_ok(offs, n, m, i, k, f),
        -1 <= k,
        ht(n, m) <= i,
        0 <= m,
    ensures
        fwd_ok(offs, n, m + 1, i, k, f),
{
    if no_next(n, m, i, k) && f == 0 {
        assert forall|t: int| k < t < m + 1 && 0 <= t implies #[trigger] ht(n, t) <= i by {
            if t < m {
                assert(ht(n, t) <= i);
            }
        }
    } else {
        let j = choose|j: int| #[trigger] is_next(n, m, i, k, j) && f == offs[j];
        assert(is_next(n, m + 1, i, k, j));
    }
}

/// A "previous" link from the end stays right when a node not on level `i` is
/// added at the end.
pub proof fn lemma_bwd_grow<V>(offs: Seq<u64>, n: Seq<NodeV<V>>, i: int, m: int, b: u64)
    requires
        bwd_ok(offs, n, i, m, b),
        ht(n, m) <= i,
        0 <= m,
    ensures
        bwd_ok(offs, n, i, m + 1, b),
{
    if no_prev(n, i, m) && b == 0 {
        assert forall|t: int| 0 <= t < m + 1 implies #[trigger] ht(n, t) <= i by {
            if t < m {
                assert(ht(n, t) <= i);
            }
        }
    } else {
        let j = choose|j: int| #[trigger] is_prev(n, i, m, j) && b == offs[j];
        assert forall|t: int| j < t < m + 1 implies #[trigger] ht(n, t) <= i by {
            if t < m {
                assert(ht(n, t) <= i);
            }
        }
        assert(is_prev(n, i, m + 1, j));
    }
}

/// Level `i` stays right when a node not on it is added at the end.
pub proof fn lemma_level_grow<V>(offs: Seq<u64>, n: Seq<NodeV<V>>, m: int, heads: Seq<Level>, i: int)
    requires
        level_ok(offs, n, m, heads, i),
        ht(n, m) <= i,
        0 <= m,
    ensures
        level_ok(offs, n, m + 1, heads, i),
{
    lemma_fwd_grow(offs, n, m, i, -1, heads[i].forward);
    lemma_bwd_grow(offs, n, i, m, heads[i].backward);
    assert forall|k: int| 0 <= k < m + 1 implies #[trigger] node_links_ok(offs, n, m + 1, i, k) by {
        if k < m {
            assert(node_links_ok(offs, n, m, i, k));
            if i < ht(n, k) {
                lemma_fwd_grow(offs, n, m, i, k, n[k].levels[i].forward);
            }
        }
    }
}

/// Where no node before the new one is on level `i`, the new node becomes both
/// the first and the last one there.
pub proof fn lemma_level_link_first<V>(
    offs: Seq<u64>,
    n: Seq<NodeV<V>>,
    m: int,
    heads: Seq<Level>,
    i: int,
)
    requires
        level_ok(offs, n, m, heads, i),
        0 <= i < heads.len(),
        0 <= m < n.len(),
        m < offs.len(),
        heads[i].backward == 0,
        forall|t: int| 0 <= t < m ==> 1 <= #[trigger] offs[t],
        i < ht(n, m),
        n[m].levels[i] == (Level { backward: 0, forward: 0 }),
    ensures
        level_ok(offs, n, m + 1, heads.update(i, Level { backward: offs[m], forward: offs[m] }), i),
{
    let h2 = heads.update(i, Level { backward: offs[m], forward: offs[m] });
    if exists|j: int| #[trigger] is_prev(n, i, m, j) && heads[i].backward == offs[j] {
        let j = choose|j: int| #[trigger] is_prev(n, i, m, j) && heads[i].backward == offs[j];
        assert(false);
    }
    assert(no_prev(n, i, m));
    assert(is_next(n, m + 1, i, -1, m));
    assert(is_prev(n, i, m + 1, m));
    assert forall|k: int| 0 <= k < m + 1 implies #[trigger] node_links_ok(offs, n, m + 1, i, k) by {
        if k < m {
            assert(ht(n, k) <= i);
        } else {
            assert(no_next(n, m + 1, i, k));
        }
    }
}

/// Where node `last` is the last one on level `i` before the new node, the new
/// node comes after it there and becomes the last one.
pub proof fn lemma_level_link_after<V>(
    offs: Seq<u64>,
    n: Seq<NodeV<V>>,
    n2: Seq<NodeV<V>>,
    m: int,
    heads: Seq<Level>,
    i: int,
    last: int,
)
    requires
        level_ok(offs, n, m, heads, i),
        0 <= i < heads.len(),
        0 <= m < n.len(),
        m < offs.len(),
        is_prev(n, i, m, last),
        heads[i].backward == offs[last],
        i < ht(n, m),
        n[m].levels[i] == (Level { backward: offs[last], forward: 0 }),
        n2.len() == n.len(),
        forall|t: int| 0 <= t < n.len() ==> #[trigger] ht(n2, t) == ht(n, t),
        forall|t: int| 0 <= t < n.len() && t != last ==> #[trigger] n2[t] == n[t],
        n2[last].levels[i] == (Level { backward: n[last].levels[i].backward, forward: offs[m] }),
    ensures
        level_ok(
            offs,
            n2,
            m + 1,
            heads.update(i, Level { backward: offs[m], forward: heads[i].forward }),
            i,
        ),
{
    let h2 = heads.update(i, Level { backward: offs[m], forward: heads[i].forward });
    // the start's link: the first node on level i comes no later than `last`
    let f0 = heads[i].forward;
    if no_next(n, m, i, -1) && f0 == 0 {
        assert(ht(n, last) <= i);
    }
    let x = choose|j: int| #[trigger] is_next(n, m, i, -1, j) && f0 == offs[j];
    assert forall|t: int| -1 < t < x implies #[trigger] ht(n2, t) <= i by {
        assert(ht(n, t) <= i);
    }
    assert(is_next(n2, m + 1, i, -1, x));
    assert forall|t: int| m < t < m + 1 implies #[trigger] ht(n2, t) <= i by {}
    assert(is_prev(n2, i, m + 1, m));
    assert forall|k: int| 0 <= k < m + 1 implies #[trigger] node_links_ok(offs, n2, m + 1, i, k) by {
        if k < m && i < ht(n2, k) {
            assert(node_links_ok(offs, n, m, i, k));
            let lk = n2[k].levels[i];
            // the link back is the same as before
            lemma_bwd_same(offs, n, offs, n2, i, k, n[k].levels[i].backward);
            if k == last {
                assert forall|t: int| last < t < m implies #[trigger] ht(n2, t) <= i by {
                    assert(ht(n, t) <= i);
                }
                assert(is_next(n2, m + 1, i, last, m));
            } else {
                assert(n2[k] == n[k]);
                if k > last {
                    assert(ht(n, k) <= i);
                }
                let fk = n[k].levels[i].forward;
                if no_next(n, m, i, k) && fk == 0 {
                    assert(ht(n, last) <= i);
                }
                let y = choose|j: int| #[trigger] is_next(n, m, i, k, j) && fk == offs[j];
                assert forall|t: int| k < t < y implies #[trigger] ht(n2, t) <= i by {
                    assert(ht(n, t) <= i);
                }
                assert(is_next(n2, m + 1, i, k, y));
            }
        } else if k == m {
            assert(no_next(n2, m + 1, i, m));
            assert forall|t: int| last < t < m implies #[trigger] ht(n2, t) <= i by {
                assert(ht(n, t) <= i);
            }
            assert(is_prev(n2, i, m, last));
            assert(n2[m] == n[m]);
        }
    }
}

} // verus!
