//! The steps of appending a node: the node is written at the store's end, then
//! linked in level by level, then the metadata is rewritten.
use crate::codec::Record;
use crate::store::skip_list::layout::{
    enc_meta, enc_node, lemma_enc_meta_len, lemma_enc_node_len, Level, MetaV, NodeV, MAX_LEVEL,
    META_SIZE,
};
use crate::store::skip_list::links::{
    lemma_level_grow, lemma_level_link_after, lemma_level_link_first, lemma_level_same,
};
use crate::store::skip_list::model::{apart, ht, in_footprint, is_list, is_prev, level_ok, list_of, node_end, node_stored, records_ok, shape_of, lemma_records_frame, lemma_shape_of, lemma_stored_up, stored, Shape};
use crate::store::store_io::{lemma_written_inside, written};
use vstd::prelude::*;

verus! {

/// The nodes `after` begin with nodes of the same data and the same number
/// of levels as those of `before`: only their links may differ.
pub open spec fn nodes_kept<V>(before: Seq<NodeV<V>>, after: Seq<NodeV<V>>) -> bool {
    forall|k: int|
        0 <= k < before.len() ==> #[trigger] after[k].data == before[k].data && after[k].levels.len()
            == before[k].levels.len()
}

/// The state of an append once the new node `nv` is written at `o` and its
/// levels below `j` are linked in; `cur` are the nodes as they now stand.
pub open spec fn stage_ok<T: Record>(
    s0: Seq<u8>,
    s: Seq<u8>,
    off: int,
    sh: Shape<T::V>,
    o: u64,
    nv: NodeV<T::V>,
    cur: Seq<NodeV<T::V>>,
    heads: Seq<Level>,
    j: int,
) -> bool {
    let m = sh.offs.len() as int;
    let offs2 = sh.offs.push(o);
    let init = sh.nodes.push(nv);
    let level = nv.levels.len() as int;
    &&& 0 <= j <= level <= MAX_LEVEL
    &&& 1 <= level
    &&& o == s0.len()
    &&& stored::<T>(s0, off, sh)
    &&& shape_of::<T>(s0, off) == sh
    &&& heads.len() == MAX_LEVEL
    &&& cur.len() == m + 1
    &&& records_ok::<T>(s, off, Shape { meta: sh.meta, offs: offs2, nodes: cur })
    &&& s.len() == s0.len() + enc_node::<T>(nv).len()
    &&& forall|t: int| 0 <= t < m ==> 1 <= #[trigger] offs2[t]
    &&& forall|t: int|
        0 <= t <= m ==> #[trigger] ht(cur, t) == ht(init, t) && cur[t].data == init[t].data
            && enc_node::<T>(cur[t]).len() == enc_node::<T>(init[t]).len()
    &&& forall|i: int| 0 <= i < j ==> #[trigger] level_ok(offs2, cur, m + 1, heads, i)
    &&& forall|i: int|
        j <= i < MAX_LEVEL ==> #[trigger] level_ok(offs2, cur, m, heads, i) && heads[i]
            == sh.meta.heads[i]
    &&& forall|i: int|
        j <= i < level ==> #[trigger] cur[m].levels[i] == (Level {
            backward: sh.meta.heads[i].backward,
            forward: 0,
        })
    &&& forall|p: int| 0 <= p < s0.len() && !in_footprint::<T>(s0, off, p) ==> #[trigger] s[p] == s0[p]
}

/// Right after the new node is written at the store's end.
pub proof fn lemma_stage_start<T: Record>(
    s0: Seq<u8>,
    s1: Seq<u8>,
    off: int,
    sh: Shape<T::V>,
    nv: NodeV<T::V>,
)
    requires
        stored::<T>(s0, off, sh),
        shape_of::<T>(s0, off) == sh,
        s1 == s0 + enc_node::<T>(nv),
        s1.len() <= u64::MAX,
        1 <= nv.levels.len() <= MAX_LEVEL,
        forall|t: int|
            0 <= t < nv.levels.len() ==> #[trigger] nv.levels[t] == (Level {
                backward: sh.meta.heads[t].backward,
                forward: 0,
            }),
    ensures
        stage_ok::<T>(
            s0,
            s1,
            off,
            sh,
            s0.len() as u64,
            nv,
            sh.nodes.push(nv),
            sh.meta.heads,
            0,
        ),
{
    let m = sh.offs.len() as int;
    let o = s0.len() as u64;
    let offs2 = sh.offs.push(o);
    let cur = sh.nodes.push(nv);
    let sh2 = Shape { meta: sh.meta, offs: offs2, nodes: cur };
    lemma_stored_up::<T>(s0, off, sh);
    lemma_enc_node_len::<T>(nv);
    assert forall|k: int, p: int|
        0 <= k < sh.offs.len() && sh.offs[k] <= p < node_end::<T>(sh, k) implies #[trigger] s1[p]
            == s0[p] && #[trigger] node_end::<T>(sh, k) == node_end::<T>(sh, k) by {
        assert(node_stored::<T>(s0, off, sh, k));
    }
    lemma_records_frame::<T>(s0, s1, off, sh);
    if m > 0 {
        assert(node_stored::<T>(s0, off, sh, m - 1));
        lemma_enc_node_len::<T>(sh.nodes[m - 1]);
    }
    assert forall|k: int| 0 <= k < m + 1 implies #[trigger] node_stored::<T>(s1, off, sh2, k) by {
        if k < m {
            assert(node_stored::<T>(s1, off, sh, k));
            assert(node_end::<T>(sh2, k) == node_end::<T>(sh, k));
        } else {
            assert(s1.subrange(o as int, node_end::<T>(sh2, k)) =~= enc_node::<T>(nv));
        }
    }
    assert forall|a: int, b: int| 0 <= a < b < m + 1 implies #[trigger] apart::<T>(sh2, a, b) by {
        if b < m {
            assert(apart::<T>(sh, a, b));
            assert(node_end::<T>(sh2, a) == node_end::<T>(sh, a));
            assert(node_end::<T>(sh2, b) == node_end::<T>(sh, b));
        } else {
            assert(node_stored::<T>(s0, off, sh, a));
            assert(node_end::<T>(sh2, a) == node_end::<T>(sh, a));
        }
    }
    assert(records_ok::<T>(s1, off, sh2));
    assert forall|i: int| 0 <= i < MAX_LEVEL implies #[trigger] level_ok(
        offs2,
        cur,
        m,
        sh.meta.heads,
        i,
    ) && sh.meta.heads[i] == sh.meta.heads[i] by {
        assert(level_ok(sh.offs, sh.nodes, m, sh.meta.heads, i));
        lemma_level_same(sh.offs, sh.nodes, offs2, cur, m, sh.meta.heads, i);
    }
    assert forall|p: int| 0 <= p < s0.len() && !in_footprint::<T>(s0, off, p) implies #[trigger] s1[p]
        == s0[p] by {}
}

/// Linking level `j` where no node before the new one is on it.
pub proof fn lemma_stage_first<T: Record>(
    s0: Seq<u8>,
    s: Seq<u8>,
    off: int,
    sh: Shape<T::V>,
    o: u64,
    nv: NodeV<T::V>,
    cur: Seq<NodeV<T::V>>,
    heads: Seq<Level>,
    j: int,
)
    requires
        stage_ok::<T>(s0, s, off, sh, o, nv, cur, heads, j),
        j < nv.levels.len(),
        heads[j].backward == 0,
    ensures
        stage_ok::<T>(
            s0,
            s,
            off,
            sh,
            o,
            nv,
            cur,
            heads.update(j, Level { backward: o, forward: o }),
            j + 1,
        ),
{
    let m = sh.offs.len() as int;
    let offs2 = sh.offs.push(o);
    let init = sh.nodes.push(nv);
    let h1 = heads.update(j, Level { backward: o, forward: o });
    assert(level_ok(offs2, cur, m, heads, j));
    assert(ht(cur, m) == ht(init, m));
    assert(cur[m].levels[j] == Level { backward: sh.meta.heads[j].backward, forward: 0 });
    lemma_level_link_first(offs2, cur, m, heads, j);
    assert forall|i: int| 0 <= i < j + 1 implies #[trigger] level_ok(offs2, cur, m + 1, h1, i) by {
        if i < j {
            assert(level_ok(offs2, cur, m + 1, heads, i));
            assert(h1[i] == heads[i]);
        }
    }
    assert forall|i: int| j + 1 <= i < MAX_LEVEL implies #[trigger] level_ok(offs2, cur, m, h1, i)
        && h1[i] == sh.meta.heads[i] by {
        assert(level_ok(offs2, cur, m, heads, i));
        assert(h1[i] == heads[i]);
    }
    assert forall|i: int| j + 1 <= i < nv.levels.len() implies #[trigger] cur[m].levels[i] == (Level {
        backward: sh.meta.heads[i].backward,
        forward: 0,
    }) by {}
}

/// Where level `j` has a last node before the new one, it is the node at that
/// offset.
pub proof fn lemma_stage_last<T: Record>(
    s0: Seq<u8>,
    s: Seq<u8>,
    off: int,
    sh: Shape<T::V>,
    o: u64,
    nv: NodeV<T::V>,
    cur: Seq<NodeV<T::V>>,
    heads: Seq<Level>,
    j: int,
)
    requires
        stage_ok::<T>(s0, s, off, sh, o, nv, cur, heads, j),
        j < nv.levels.len(),
        heads[j].backward != 0,
    ensures
        exists|t: int| #[trigger] is_prev(cur, j, sh.offs.len() as int, t) && heads[j].backward == sh.offs.push(o)[t],
{
    let m = sh.offs.len() as int;
    assert(level_ok(sh.offs.push(o), cur, m, heads, j));
}

/// Linking level `j` after `last`, the last node there before the new one: its
/// record is rewritten with its link on level `j` leading to the new node.
pub proof fn lemma_stage_after<T: Record>(
    s0: Seq<u8>,
    s: Seq<u8>,
    s2: Seq<u8>,
    off: int,
    sh: Shape<T::V>,
    o: u64,
    nv: NodeV<T::V>,
    cur: Seq<NodeV<T::V>>,
    heads: Seq<Level>,
    j: int,
    last: int,
    nb: NodeV<T::V>,
)
    requires
        stage_ok::<T>(s0, s, off, sh, o, nv, cur, heads, j),
        j < nv.levels.len(),
        is_prev(cur, j, sh.offs.len() as int, last),
        heads[j].backward == sh.offs.push(o)[last],
        nb.data == cur[last].data,
        nb.levels == cur[last].levels.update(
            j,
            Level { backward: cur[last].levels[j].backward, forward: o },
        ),
        s2 == written(s, sh.offs[last] as int, enc_node::<T>(nb)),
    ensures
        stage_ok::<T>(
            s0,
            s2,
            off,
            sh,
            o,
            nv,
            cur.update(last, nb),
            heads.update(j, Level { backward: o, forward: heads[j].forward }),
            j + 1,
        ),
{
    let m = sh.offs.len() as int;
    let offs2 = sh.offs.push(o);
    let init = sh.nodes.push(nv);
    let cur2 = cur.update(last, nb);
    let h1 = heads.update(j, Level { backward: o, forward: heads[j].forward });
    let shj = Shape { meta: sh.meta, offs: offs2, nodes: cur };
    let sh2 = Shape { meta: sh.meta, offs: offs2, nodes: cur2 };
    // the rewritten record keeps its size
    lemma_enc_node_len::<T>(nb);
    lemma_enc_node_len::<T>(cur[last]);
    assert(node_stored::<T>(s, off, shj, last));
    let a = sh.offs[last] as int;
    let e = enc_node::<T>(nb);
    assert(node_end::<T>(sh2, last) == node_end::<T>(shj, last));
    lemma_written_inside(s, a, e);
    // the records
    assert(s2.subrange(off, off + META_SIZE) =~= s.subrange(off, off + META_SIZE));
    assert forall|k: int| 0 <= k < m + 1 implies #[trigger] node_stored::<T>(s2, off, sh2, k) by {
        assert(node_stored::<T>(s, off, shj, k));
        if k != last {
            if k < last {
                assert(apart::<T>(shj, k, last));
            } else {
                assert(apart::<T>(shj, last, k));
            }
            assert(node_end::<T>(sh2, k) == node_end::<T>(shj, k));
            assert(s2.subrange(offs2[k] as int, node_end::<T>(sh2, k)) =~= s.subrange(
                offs2[k] as int,
                node_end::<T>(shj, k),
            ));
        }
    }
    assert forall|x: int, y: int| 0 <= x < y < m + 1 implies #[trigger] apart::<T>(sh2, x, y) by {
        assert(apart::<T>(shj, x, y));
        assert(node_end::<T>(sh2, x) == node_end::<T>(shj, x));
        assert(node_end::<T>(sh2, y) == node_end::<T>(shj, y));
    }
    assert(records_ok::<T>(s2, off, sh2));
    // the heights and sizes
    assert forall|t: int| 0 <= t <= m implies #[trigger] ht(cur2, t) == ht(init, t) && cur2[t].data
        == init[t].data && enc_node::<T>(cur2[t]).len() == enc_node::<T>(init[t]).len() by {
        assert(ht(cur, t) == ht(init, t));
    }
    // the links
    assert(level_ok(offs2, cur, m, heads, j));
    assert(ht(cur, m) == ht(init, m));
    assert(cur[m].levels[j] == Level { backward: sh.meta.heads[j].backward, forward: 0 });
    assert(heads[j] == sh.meta.heads[j]);
    assert forall|t: int| 0 <= t < cur.len() implies #[trigger] ht(cur2, t) == ht(cur, t) by {}
    assert forall|t: int| 0 <= t < cur.len() && t != last implies #[trigger] cur2[t] == cur[t] by {}
    lemma_level_link_after(offs2, cur, cur2, m, heads, j, last);
    assert forall|i: int| 0 <= i < j + 1 implies #[trigger] level_ok(offs2, cur2, m + 1, h1, i) by {
        if i < j {
            assert(level_ok(offs2, cur, m + 1, heads, i));
            assert(h1[i] == heads[i]);
            lemma_level_same(offs2, cur, offs2, cur2, m + 1, h1, i);
        }
    }
    assert forall|i: int| j + 1 <= i < MAX_LEVEL implies #[trigger] level_ok(offs2, cur2, m, h1, i)
        && h1[i] == sh.meta.heads[i] by {
        assert(level_ok(offs2, cur, m, heads, i));
        assert(h1[i] == heads[i]);
        lemma_level_same(offs2, cur, offs2, cur2, m, h1, i);
    }
    assert forall|i: int| j + 1 <= i < nv.levels.len() implies #[trigger] cur2[m].levels[i] == (Level {
        backward: sh.meta.heads[i].backward,
        forward: 0,
    }) by {
        assert(cur[m].levels[i] == (Level { backward: sh.meta.heads[i].backward, forward: 0 }));
    }
    // the bytes outside the old list
    lemma_shape_of::<T>(s0, off, sh);
    assert forall|p: int| 0 <= p < s0.len() && !in_footprint::<T>(s0, off, p) implies #[trigger] s2[p]
        == s0[p] by {
        if a <= p < a + e.len() {
            assert(node_end::<T>(shj, last) == node_end::<T>(sh, last));
            assert(sh.offs[last] <= p < node_end::<T>(sh, last));
            assert(in_footprint::<T>(s0, off, p));
        }
        assert(s[p] == s0[p]);
    }
}

/// Once every level of the new node is linked and the metadata rewritten, the
/// store holds the list with the new node at its end.
pub proof fn lemma_stage_finish<T: Record>(
    s0: Seq<u8>,
    s: Seq<u8>,
    s3: Seq<u8>,
    off: int,
    sh: Shape<T::V>,
    o: u64,
    nv: NodeV<T::V>,
    cur: Seq<NodeV<T::V>>,
    heads: Seq<Level>,
    meta2: MetaV,
)
    requires
        stage_ok::<T>(s0, s, off, sh, o, nv, cur, heads, nv.levels.len() as int),
        meta2.heads == heads,
        meta2.len == sh.meta.len + 1,
        meta2.level == if nv.levels.len() > sh.meta.level {
            nv.levels.len() as u8
        } else {
            sh.meta.level
        },
        s3 == written(s, off, enc_meta(meta2)),
    ensures
        is_list::<T>(s3, off),
        list_of::<T>(s3, off) == list_of::<T>(s0, off).push(nv.data),
        s0.len() <= s3.len(),
        forall|p: int| 0 <= p < s0.len() && !in_footprint::<T>(s0, off, p) ==> #[trigger] s3[p] == s0[p],
        forall|p: int|
            #[trigger] in_footprint::<T>(s3, off, p) ==> in_footprint::<T>(s0, off, p) || s0.len() <= p
                < s3.len(),
        shape_of::<T>(s3, off).offs == shape_of::<T>(s0, off).offs.push(s0.len() as u64),
        nodes_kept(shape_of::<T>(s0, off).nodes, shape_of::<T>(s3, off).nodes),
{
    let m = sh.offs.len() as int;
    let offs2 = sh.offs.push(o);
    let init = sh.nodes.push(nv);
    let level = nv.levels.len() as int;
    let shj = Shape { meta: sh.meta, offs: offs2, nodes: cur };
    let sh3 = Shape { meta: meta2, offs: offs2, nodes: cur };
    lemma_enc_meta_len(meta2);
    lemma_enc_meta_len(sh.meta);
    lemma_written_inside(s, off, enc_meta(meta2));
    // the records
    assert forall|k: int| 0 <= k < m + 1 implies #[trigger] node_stored::<T>(s3, off, sh3, k) by {
        assert(node_stored::<T>(s, off, shj, k));
        assert(node_end::<T>(sh3, k) == node_end::<T>(shj, k));
        assert(s3.subrange(offs2[k] as int, node_end::<T>(sh3, k)) =~= s.subrange(
            offs2[k] as int,
            node_end::<T>(shj, k),
        ));
    }
    assert forall|x: int, y: int| 0 <= x < y < m + 1 implies #[trigger] apart::<T>(sh3, x, y) by {
        assert(apart::<T>(shj, x, y));
    }
    assert(records_ok::<T>(s3, off, sh3));
    // the heights
    assert forall|k: int| 0 <= k < m + 1 implies #[trigger] ht(cur, k) <= meta2.level by {
        assert(ht(cur, k) == ht(init, k));
        if k < m {
            assert(ht(sh.nodes, k) <= sh.meta.level);
        }
    }
    // the links
    assert forall|i: int| 0 <= i < MAX_LEVEL implies #[trigger] level_ok(offs2, cur, m + 1, heads, i) by {
        if i >= level {
            assert(level_ok(offs2, cur, m, heads, i));
            assert(ht(cur, m) == ht(init, m));
            lemma_level_grow(offs2, cur, m, heads, i);
        }
    }
    assert(stored::<T>(s3, off, sh3));
    lemma_shape_of::<T>(s3, off, sh3);
    lemma_shape_of::<T>(s0, off, sh);
    // the data
    let d3 = list_of::<T>(s3, off);
    let d0 = list_of::<T>(s0, off);
    assert forall|k: int| 0 <= k < m + 1 implies d3[k] == d0.push(nv.data)[k] by {
        assert(ht(cur, k) == ht(init, k));
        assert(cur[k].data == init[k].data);
    }
    assert(d3 =~= d0.push(nv.data));
    // the bytes outside the old list
    assert forall|p: int| 0 <= p < s0.len() && !in_footprint::<T>(s0, off, p) implies #[trigger] s3[p]
        == s0[p] by {
        if off <= p < off + META_SIZE {
            assert(in_footprint::<T>(s0, off, p));
        }
        assert(s[p] == s0[p]);
    }
    // the new footprint
    assert forall|p: int| #[trigger] in_footprint::<T>(s3, off, p) implies in_footprint::<T>(s0, off, p)
        || s0.len() <= p < s3.len() by {
        if !(off <= p < off + META_SIZE) {
            let k = choose|k: int| 0 <= k < m + 1 && offs2[k] <= p < #[trigger] node_end::<T>(sh3, k);
            if k < m {
                assert(node_end::<T>(sh3, k) == node_end::<T>(sh, k)) by {
                    assert(ht(cur, k) == ht(init, k));
                    assert(enc_node::<T>(cur[k]).len() == enc_node::<T>(init[k]).len());
                }
                assert(sh.offs[k] <= p < node_end::<T>(sh, k));
            } else {
                assert(node_stored::<T>(s3, off, sh3, k));
            }
        }
    }
    assert forall|k: int| 0 <= k < sh.nodes.len() implies #[trigger] cur[k].data == sh.nodes[k].data
        && cur[k].levels.len() == sh.nodes[k].levels.len() by {
        assert(ht(cur, k) == ht(init, k));
        assert(init[k] == sh.nodes[k]);
        assert(cur[k].data == init[k].data);
    }
    assert(nodes_kept(sh.nodes, cur));
}

} // verus!
