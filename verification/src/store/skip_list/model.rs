//! What a skip list in a store is: the nodes in list order, where each one is
//! stored, and which links each level must hold.
use crate::codec::Record;
use crate::store::skip_list::layout::{enc_meta, enc_node, lemma_dec_meta, lemma_dec_node, Level, MetaV, NodeV, MAX_LEVEL, META_SIZE};
use vstd::prelude::*;

verus! {

/// A skip list as it lies in a store: its metadata, and the offset and record of
/// each node, in list order.
pub struct Shape<V> {
    pub meta: MetaV,
    pub offs: Seq<u64>,
    pub nodes: Seq<NodeV<V>>,
}

/// The number of levels of node `k`.
pub open spec fn ht<V>(nodes: Seq<NodeV<V>>, k: int) -> int {
    nodes[k].levels.len() as int
}

/// On level `i`, node `j` comes next after node `k` (`k` is -1 for the list's start)
/// among the first `m` nodes.
pub open spec fn is_next<V>(nodes: Seq<NodeV<V>>, m: int, i: int, k: int, j: int) -> bool {
    &&& k < j < m
    &&& 0 <= j
    &&& i < ht(nodes, j)
    &&& forall|t: int| k < t < j ==> #[trigger] ht(nodes, t) <= i
}

/// On level `i`, no node comes after node `k` among the first `m` nodes.
pub open spec fn no_next<V>(nodes: Seq<NodeV<V>>, m: int, i: int, k: int) -> bool {
    forall|t: int| k < t < m && 0 <= t ==> #[trigger] ht(nodes, t) <= i
}

/// `f` is the link on level `i` from node `k` (or from the start) to the next node.
pub open spec fn fwd_ok<V>(offs: Seq<u64>, nodes: Seq<NodeV<V>>, m: int, i: int, k: int, f: u64) -> bool {
    ||| no_next(nodes, m, i, k) && f == 0
    ||| exists|j: int| #[trigger] is_next(nodes, m, i, k, j) && f == offs[j]
}

/// On level `i`, node `j` comes just before node `k` (`k` may be the node count,
/// for the list's end).
pub open spec fn is_prev<V>(nodes: Seq<NodeV<V>>, i: int, k: int, j: int) -> bool {
    &&& 0 <= j < k
    &&& i < ht(nodes, j)
    &&& forall|t: int| j < t < k ==> #[trigger] ht(nodes, t) <= i
}

/// On level `i`, no node comes before node `k`.
pub open spec fn no_prev<V>(nodes: Seq<NodeV<V>>, i: int, k: int) -> bool {
    forall|t: int| 0 <= t < k ==> #[trigger] ht(nodes, t) <= i
}

/// `b` is the link on level `i` from node `k` (or from the end) to the node before.
pub open spec fn bwd_ok<V>(offs: Seq<u64>, nodes: Seq<NodeV<V>>, i: int, k: int, b: u64) -> bool {
    ||| no_prev(nodes, i, k) && b == 0
    ||| exists|j: int| #[trigger] is_prev(nodes, i, k, j) && b == offs[j]
}

/// Node `k`'s links on level `i`, if it has that level.
pub open spec fn node_links_ok<V>(offs: Seq<u64>, nodes: Seq<NodeV<V>>, m: int, i: int, k: int) -> bool {
    i < ht(nodes, k) ==> {
        &&& fwd_ok(offs, nodes, m, i, k, nodes[k].levels[i].forward)
        &&& bwd_ok(offs, nodes, i, k, nodes[k].levels[i].backward)
    }
}

/// All links on level `i`, those of the metadata included.
pub open spec fn level_ok<V>(offs: Seq<u64>, nodes: Seq<NodeV<V>>, m: int, heads: Seq<Level>, i: int) -> bool {
    &&& fwd_ok(offs, nodes, m, i, -1, heads[i].forward)
    &&& bwd_ok(offs, nodes, i, m, heads[i].backward)
    &&& forall|k: int| 0 <= k < m ==> #[trigger] node_links_ok(offs, nodes, m, i, k)
}

/// The end of node `k`'s record.
pub open spec fn node_end<T: Record>(sh: Shape<T::V>, k: int) -> int {
    sh.offs[k] + enc_node::<T>(sh.nodes[k]).len()
}

/// Node `k` is stored at its offset, away from the metadata.
pub open spec fn node_stored<T: Record>(s: Seq<u8>, off: int, sh: Shape<T::V>, k: int) -> bool {
    &&& 1 <= ht(sh.nodes, k) <= MAX_LEVEL
    &&& k + 1 <= sh.offs[k]
    &&& node_end::<T>(sh, k) <= s.len()
    &&& s.subrange(sh.offs[k] as int, node_end::<T>(sh, k)) == enc_node::<T>(sh.nodes[k])
    &&& (node_end::<T>(sh, k) <= off || off + META_SIZE <= sh.offs[k])
}

/// The records of nodes `j` and `k` do not overlap.
pub open spec fn apart<T: Record>(sh: Shape<T::V>, j: int, k: int) -> bool {
    node_end::<T>(sh, j) <= sh.offs[k] || node_end::<T>(sh, k) <= sh.offs[j]
}

/// The bytes `s` hold, from `off`, the records of `sh`: its metadata and each of
/// its nodes, none overlapping another.
pub open spec fn records_ok<T: Record>(s: Seq<u8>, off: int, sh: Shape<T::V>) -> bool {
    let m = sh.offs.len() as int;
    &&& sh.nodes.len() == m
    &&& sh.meta.heads.len() == MAX_LEVEL
    &&& s.len() <= u64::MAX
    &&& 0 <= off
    &&& off + META_SIZE <= s.len()
    &&& s.subrange(off, off + META_SIZE) == enc_meta(sh.meta)
    &&& forall|k: int| 0 <= k < m ==> #[trigger] node_stored::<T>(s, off, sh, k)
    &&& forall|j: int, k: int| 0 <= j < k < m ==> #[trigger] apart::<T>(sh, j, k)
}

/// The links of every level.
pub open spec fn links_ok<V>(offs: Seq<u64>, nodes: Seq<NodeV<V>>, m: int, heads: Seq<Level>) -> bool {
    forall|i: int| 0 <= i < MAX_LEVEL ==> #[trigger] level_ok(offs, nodes, m, heads, i)
}

/// The bytes `s` hold, from `off`, the skip list `sh`.
pub open spec fn stored<T: Record>(s: Seq<u8>, off: int, sh: Shape<T::V>) -> bool {
    let m = sh.offs.len() as int;
    &&& records_ok::<T>(s, off, sh)
    &&& sh.meta.len == m
    &&& sh.meta.level <= MAX_LEVEL
    &&& forall|k: int| 0 <= k < m ==> #[trigger] ht(sh.nodes, k) <= sh.meta.level
    &&& links_ok(sh.offs, sh.nodes, m, sh.meta.heads)
}

/// The bytes `s` hold a skip list of `T` values from `off`.
pub open spec fn is_list<T: Record>(s: Seq<u8>, off: int) -> bool {
    exists|sh: Shape<T::V>| stored::<T>(s, off, sh)
}

/// The skip list that the bytes `s` hold from `off`.
pub open spec fn shape_of<T: Record>(s: Seq<u8>, off: int) -> Shape<T::V> {
    choose|sh: Shape<T::V>| stored::<T>(s, off, sh)
}

/// The data of the list's nodes, in list order.
pub open spec fn list_of<T: Record>(s: Seq<u8>, off: int) -> Seq<T::V> {
    shape_of::<T>(s, off).nodes.map_values(|n: NodeV<T::V>| n.data)
}

/// Byte `p` belongs to one of the list's records.
pub open spec fn in_footprint<T: Record>(s: Seq<u8>, off: int, p: int) -> bool {
    let sh = shape_of::<T>(s, off);
    ||| off <= p < off + META_SIZE
    ||| exists|k: int| 0 <= k < sh.offs.len() && sh.offs[k] <= p < #[trigger] node_end::<T>(sh, k)
}

/// The nodes' heights are all at least 1.
pub open spec fn all_up<V>(nodes: Seq<NodeV<V>>, m: int) -> bool {
    forall|k: int| 0 <= k < m ==> 1 <= #[trigger] ht(nodes, k)
}

/// On level 0 every node comes right after the one before it.
pub proof fn lemma_level0_next<V>(nodes: Seq<NodeV<V>>, m: int, k: int, j: int)
    requires
        all_up(nodes, m),
        -1 <= k,
        is_next(nodes, m, 0, k, j),
    ensures
        j == k + 1,
{
    if j > k + 1 {
        assert(ht(nodes, k + 1) <= 0);
        assert(1 <= ht(nodes, k + 1));
    }
}

/// The link from node `k` (or the start) on level 0 leads to node `k + 1`, if any.
pub proof fn lemma_level0_link<V>(offs: Seq<u64>, nodes: Seq<NodeV<V>>, m: int, k: int, f: u64)
    requires
        all_up(nodes, m),
        -1 <= k < m,
        fwd_ok(offs, nodes, m, 0, k, f),
        forall|t: int| 0 <= t < m ==> 1 <= #[trigger] offs[t],
    ensures
        k + 1 < m ==> f == offs[k + 1],
        k + 1 == m ==> f == 0,
{
    if k + 1 < m {
        if no_next(nodes, m, 0, k) {
            assert(ht(nodes, k + 1) <= 0);
            assert(1 <= ht(nodes, k + 1));
        }
        let j = choose|j: int| #[trigger] is_next(nodes, m, 0, k, j) && f == offs[j];
        lemma_level0_next(nodes, m, k, j);
    } else {
        if exists|j: int| #[trigger] is_next(nodes, m, 0, k, j) && f == offs[j] {
            let j = choose|j: int| #[trigger] is_next(nodes, m, 0, k, j) && f == offs[j];
            assert(false);
        }
    }
}

/// The nodes of a stored list all have at least one level.
pub proof fn lemma_stored_up<T: Record>(s: Seq<u8>, off: int, sh: Shape<T::V>)
    requires
        stored::<T>(s, off, sh),
    ensures
        all_up(sh.nodes, sh.offs.len() as int),
        forall|t: int| 0 <= t < sh.offs.len() ==> 1 <= #[trigger] sh.offs[t],
{
    assert forall|k: int| 0 <= k < sh.offs.len() implies 1 <= #[trigger] ht(sh.nodes, k) by {
        assert(node_stored::<T>(s, off, sh, k));
    }
    assert forall|t: int| 0 <= t < sh.offs.len() implies 1 <= #[trigger] sh.offs[t] by {
        assert(node_stored::<T>(s, off, sh, t));
    }
}

/// The bytes determine the list they hold.
pub proof fn lemma_stored_unique<T: Record>(s: Seq<u8>, off: int, a: Shape<T::V>, b: Shape<T::V>)
    requires
        stored::<T>(s, off, a),
        stored::<T>(s, off, b),
    ensures
        a == b,
{
    lemma_dec_meta(s, off, a.meta);
    lemma_dec_meta(s, off, b.meta);
    assert(a.meta.heads =~= b.meta.heads);
    let m = a.offs.len() as int;
    lemma_stored_up::<T>(s, off, a);
    lemma_stored_up::<T>(s, off, b);
    assert(a.meta == b.meta);
    assert forall|k: int| 0 <= k < m implies a.offs[k] == b.offs[k] && a.nodes[k] == b.nodes[k] by {
        lemma_stored_unique_at::<T>(s, off, a, b, k);
    }
    assert(a.offs =~= b.offs);
    assert forall|k: int| 0 <= k < m implies #[trigger] a.nodes[k] == b.nodes[k] by {
        lemma_stored_unique_at::<T>(s, off, a, b, k);
    }
    assert(a.nodes =~= b.nodes);
}

proof fn lemma_stored_unique_at<T: Record>(
    s: Seq<u8>,
    off: int,
    a: Shape<T::V>,
    b: Shape<T::V>,
    k: int,
)
    requires
        stored::<T>(s, off, a),
        stored::<T>(s, off, b),
        a.meta == b.meta,
        0 <= k < a.offs.len(),
        all_up(a.nodes, a.offs.len() as int),
        all_up(b.nodes, b.offs.len() as int),
        forall|t: int| 0 <= t < a.offs.len() ==> 1 <= #[trigger] a.offs[t],
        forall|t: int| 0 <= t < b.offs.len() ==> 1 <= #[trigger] b.offs[t],
    ensures
        a.offs[k] == b.offs[k],
        a.nodes[k] == b.nodes[k],
    decreases k,
{
    let m = a.offs.len() as int;
    assert(level_ok(a.offs, a.nodes, m, a.meta.heads, 0));
    assert(level_ok(b.offs, b.nodes, m, b.meta.heads, 0));
    assert(node_stored::<T>(s, off, a, k));
    assert(node_stored::<T>(s, off, b, k));
    if k == 0 {
        lemma_level0_link(a.offs, a.nodes, m, -1, a.meta.heads[0].forward);
        lemma_level0_link(b.offs, b.nodes, m, -1, b.meta.heads[0].forward);
    } else {
        lemma_stored_unique_at::<T>(s, off, a, b, k - 1);
        assert(node_links_ok(a.offs, a.nodes, m, 0, k - 1));
        assert(node_links_ok(b.offs, b.nodes, m, 0, k - 1));
        lemma_level0_link(a.offs, a.nodes, m, k - 1, a.nodes[k - 1].levels[0].forward);
        lemma_level0_link(b.offs, b.nodes, m, k - 1, b.nodes[k - 1].levels[0].forward);
    }
    assert(node_stored::<T>(s, off, a, k));
    assert(node_stored::<T>(s, off, b, k));
    lemma_dec_node::<T>(s, a.offs[k] as int, a.nodes[k]);
    lemma_dec_node::<T>(s, b.offs[k] as int, b.nodes[k]);
}

/// A list is the one its bytes hold.
pub proof fn lemma_shape_of<T: Record>(s: Seq<u8>, off: int, sh: Shape<T::V>)
    requires
        stored::<T>(s, off, sh),
    ensures
        is_list::<T>(s, off),
        shape_of::<T>(s, off) == sh,
{
    let c = shape_of::<T>(s, off);
    lemma_stored_unique::<T>(s, off, c, sh);
}

/// A list stays where the bytes of its records stay.
pub proof fn lemma_stored_frame<T: Record>(s: Seq<u8>, t: Seq<u8>, off: int, sh: Shape<T::V>)
    requires
        stored::<T>(s, off, sh),
        t.len() <= u64::MAX,
        s.len() <= t.len(),
        forall|p: int| off <= p < off + META_SIZE ==> #[trigger] t[p] == s[p],
        forall|k: int, p: int|
            0 <= k < sh.offs.len() && sh.offs[k] <= p < node_end::<T>(sh, k) ==> #[trigger] t[p]
                == s[p] && #[trigger] node_end::<T>(sh, k) == node_end::<T>(sh, k),
    ensures
        stored::<T>(t, off, sh),
{
    lemma_records_frame::<T>(s, t, off, sh);
}

/// The records stay where their bytes stay.
pub proof fn lemma_records_frame<T: Record>(s: Seq<u8>, t: Seq<u8>, off: int, sh: Shape<T::V>)
    requires
        records_ok::<T>(s, off, sh),
        t.len() <= u64::MAX,
        s.len() <= t.len(),
        forall|p: int| off <= p < off + META_SIZE ==> #[trigger] t[p] == s[p],
        forall|k: int, p: int|
            0 <= k < sh.offs.len() && sh.offs[k] <= p < node_end::<T>(sh, k) ==> #[trigger] t[p]
                == s[p] && #[trigger] node_end::<T>(sh, k) == node_end::<T>(sh, k),
    ensures
        records_ok::<T>(t, off, sh),
{
    assert(t.subrange(off, off + META_SIZE) =~= s.subrange(off, off + META_SIZE));
    assert forall|k: int| 0 <= k < sh.offs.len() implies #[trigger] node_stored::<T>(t, off, sh, k) by {
        assert(node_stored::<T>(s, off, sh, k));
        let e = node_end::<T>(sh, k);
        assert forall|p: int| sh.offs[k] <= p < e implies t[p] == s[p] by {
            assert(t[p] == s[p] && node_end::<T>(sh, k) == node_end::<T>(sh, k));
        }
        assert(t.subrange(sh.offs[k] as int, e) =~= s.subrange(sh.offs[k] as int, e));
    }
}

/// The list, its data and its footprint stay the same where the bytes of its
/// footprint stay the same.
pub proof fn lemma_frame<T: Record>(s: Seq<u8>, t: Seq<u8>, off: int)
    requires
        is_list::<T>(s, off),
        t.len() <= u64::MAX,
        s.len() <= t.len(),
        forall|p: int| 0 <= p < s.len() && #[trigger] in_footprint::<T>(s, off, p) ==> t[p] == s[p],
    ensures
        is_list::<T>(t, off),
        shape_of::<T>(t, off) == shape_of::<T>(s, off),
        list_of::<T>(t, off) == list_of::<T>(s, off),
        forall|p: int| #[trigger] in_footprint::<T>(t, off, p) == in_footprint::<T>(s, off, p),
{
    let sh = shape_of::<T>(s, off);
    assert forall|p: int| off <= p < off + META_SIZE implies #[trigger] t[p] == s[p] by {
        assert(in_footprint::<T>(s, off, p));
    }
    assert forall|k: int, p: int|
        0 <= k < sh.offs.len() && sh.offs[k] <= p < node_end::<T>(sh, k) implies #[trigger] t[p]
            == s[p] && #[trigger] node_end::<T>(sh, k) == node_end::<T>(sh, k) by {
        assert(node_stored::<T>(s, off, sh, k));
        assert(in_footprint::<T>(s, off, p));
    }
    lemma_stored_frame::<T>(s, t, off, sh);
    lemma_shape_of::<T>(t, off, sh);
}

/// The footprint lies inside the store.
pub proof fn lemma_footprint_inside<T: Record>(s: Seq<u8>, off: int, p: int)
    requires
        is_list::<T>(s, off),
        in_footprint::<T>(s, off, p),
    ensures
        0 <= p < s.len(),
{
    let sh = shape_of::<T>(s, off);
    if !(off <= p < off + META_SIZE) {
        let k = choose|k: int| 0 <= k < sh.offs.len() && sh.offs[k] <= p < #[trigger] node_end::<T>(sh, k);
        assert(node_stored::<T>(s, off, sh, k));
    }
}

} // verus!
