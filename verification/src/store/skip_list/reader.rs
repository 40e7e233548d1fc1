//! Reading a skip list: walking it in order, and searching it.
use crate::codec::Record;
use crate::store::error::Error;
use crate::store::skip_list::layout::{dec_meta, lemma_dec_meta, lemma_dec_node, read_meta, read_node, Level, MetaData, Node, MAX_LEVEL};
use crate::store::skip_list::model::{
    fwd_ok, ht, is_list, is_next, level_ok, list_of, no_next, node_links_ok, node_stored,
    shape_of, lemma_level0_link, lemma_stored_up, stored, Shape,
};
use crate::store::store_io::MemStore;
use std::cmp::Ordering;
use std::marker::PhantomData;
use vstd::prelude::*;

verus! {

/// Reads a skip list in a store.
#[derive(Debug)]
pub struct Reader<'a, T> {
    store: &'a MemStore,
    offset: u64,
    _marker: PhantomData<T>,
}

/// Where `o` stands among the three answers of a comparison.
pub open spec fn order_rank(o: Ordering) -> int {
    match o {
        Ordering::Less => -1,
        Ordering::Equal => 0,
        Ordering::Greater => 1,
    }
}

/// `i` as a mathematical integer.
pub open spec fn num(i: usize) -> int {
    i as int
}

/// `compare` answers along `items` in order: every `Less` before every
/// `Equal`, every `Equal` before every `Greater`.
pub open spec fn in_order<T: Record, F: Fn(&T) -> Ordering>(compare: F, items: Seq<T::V>) -> bool {
    forall|j: int, k: int, a: T, b: T, oa: Ordering, ob: Ordering|
        #![trigger compare.ensures((&a,), oa), compare.ensures((&b,), ob), items[j], items[k]]
        0 <= j <= k < items.len() && a@ == items[j] && b@ == items[k] && compare.ensures((&a,), oa)
            && compare.ensures((&b,), ob) ==> order_rank(oa) <= order_rank(ob)
}

/// The number of nodes of `sh`.
pub open spec fn count_of<T: Record>(sh: Shape<T::V>) -> int {
    sh.offs.len() as int
}

/// The number of levels the list uses.
fn levels_used(m: &MetaData) -> (r: usize)
    ensures
        r == m.level,
{
    m.level as usize
}

impl<'a, T: Record> Reader<'a, T> {
    /// The bytes of the store.
    pub closed spec fn bytes(&self) -> Seq<u8> {
        self.store@
    }

    /// Where the list's metadata lies.
    pub closed spec fn at(&self) -> int {
        self.offset as int
    }

    /// The data of the list's nodes, in order.
    pub open spec fn items(&self) -> Seq<T::V> {
        list_of::<T>(self.bytes(), self.at())
    }

    /// A reader for the list whose metadata lies at `offset` in `store`.
    pub fn new(store: &'a MemStore, offset: u64) -> (r: Self)
        ensures
            r.bytes() == store@,
            r.at() == offset,
    {
        Reader { store, offset, _marker: PhantomData }
    }

    /// Where the list's metadata lies.
    pub fn offset(&self) -> (r: u64)
        ensures
            r == self.at(),
    {
        self.offset
    }

    /// The list's metadata record.
    pub fn metadata(&self) -> (r: Result<MetaData, Error>)
        ensures
            match r {
                Ok(m) => dec_meta(self.bytes(), self.at()) == Some(m@),
                Err(_) => dec_meta(self.bytes(), self.at()) is None,
            },
    {
        read_meta(self.store.as_bytes(), self.offset)
    }

    fn node(&self, offset: u64) -> (r: Result<Node<T>, Error>)
        requires
            is_list::<T>(self.bytes(), self.at()),
            exists|k: int|
                0 <= k < shape_of::<T>(self.bytes(), self.at()).offs.len() && #[trigger] shape_of::<
                    T,
                >(self.bytes(), self.at()).offs[k] == offset,
        ensures
            r matches Ok(n) && exists|k: int|
                0 <= k < shape_of::<T>(self.bytes(), self.at()).offs.len() && shape_of::<T>(
                    self.bytes(),
                    self.at(),
                ).offs[k] == offset && #[trigger] shape_of::<T>(self.bytes(), self.at()).nodes[k]
                    == n@,
    {
        let ghost sh = shape_of::<T>(self.bytes(), self.at());
        let ghost k = choose|k: int| 0 <= k < sh.offs.len() && #[trigger] sh.offs[k] == offset;
        proof {
            assert(node_stored::<T>(self.bytes(), self.at(), sh, k));
            lemma_dec_node::<T>(self.bytes(), offset as int, sh.nodes[k]);
        }
        let r = read_node::<T>(self.store.as_bytes(), offset);
        proof {
            assert(sh.nodes[k] == r.unwrap()@);
        }
        r
    }

    /// The number of nodes in the list, as its metadata counts them.
    pub fn len(&self) -> (r: Result<u64, Error>)
        ensures
            match r {
                Ok(n) => dec_meta(self.bytes(), self.at()) matches Some(m) && n == m.len,
                Err(_) => dec_meta(self.bytes(), self.at()) is None,
            },
            is_list::<T>(self.bytes(), self.at()) ==> r == Ok::<u64, Error>(self.items().len() as u64),
    {
        let ghost sh = shape_of::<T>(self.bytes(), self.at());
        proof {
            if is_list::<T>(self.bytes(), self.at()) {
                lemma_dec_meta(self.bytes(), self.at(), sh.meta);
            }
        }
        match self.metadata() {
            Ok(m) => Ok(m.len),
            Err(e) => Err(e),
        }
    }

    /// Walks the list's data in order. Fails where the metadata cannot be read.
    pub fn iter(&self) -> (r: Result<Iter<'_, T>, Error>)
        ensures
            r is Err <==> dec_meta(self.bytes(), self.at()) is None,
            r matches Ok(it) ==> it.items() == self.items(),
            is_list::<T>(self.bytes(), self.at()) ==> (r matches Ok(it) && it.valid() && it.pos() == 0),
    {
        let ghost ok = is_list::<T>(self.bytes(), self.at());
        let ghost sh = shape_of::<T>(self.bytes(), self.at());
        proof {
            if ok {
                lemma_dec_meta(self.bytes(), self.at(), sh.meta);
                lemma_stored_up::<T>(self.bytes(), self.at(), sh);
            }
        }
        match self.metadata() {
            Ok(m) => {
                let next = m.heads[0].forward;
                proof {
                    if ok {
                        assert(level_ok(sh.offs, sh.nodes, sh.offs.len() as int, sh.meta.heads, 0));
                        lemma_level0_link(sh.offs, sh.nodes, sh.offs.len() as int, -1, next);
                    }
                }
                Ok(Iter { reader: self, next, pos: Ghost(0) })
            },
            Err(e) => Err(e),
        }
    }

    /// All the data of the list, in order. Where the bytes hold no list, the
    /// walk still ends: after as many nodes as the metadata counts, at a zero
    /// link, or at the first record it cannot read.
    pub fn read_all(&self) -> (r: Result<Vec<T>, Error>)
        ensures
            is_list::<T>(self.bytes(), self.at()) ==> (r matches Ok(v) && v@.map_values(|t: T| t@)
                == self.items()),
    {
        let ghost ok = is_list::<T>(self.bytes(), self.at());
        let ghost sh = shape_of::<T>(self.bytes(), self.at());
        let ghost m = sh.offs.len() as int;
        proof {
            if ok {
                lemma_dec_meta(self.bytes(), self.at(), sh.meta);
                lemma_stored_up::<T>(self.bytes(), self.at(), sh);
            }
        }
        let meta = match self.metadata() {
            Ok(md) => md,
            Err(e) => {
                return Err(e);
            },
        };
        let mut next: u64 = meta.heads[0].forward;
        proof {
            if ok {
                assert(level_ok(sh.offs, sh.nodes, m, sh.meta.heads, 0));
                lemma_level0_link(sh.offs, sh.nodes, m, -1, next);
            }
        }
        let mut out: Vec<T> = Vec::new();
        let mut i: u64 = 0;
        while i < meta.len && next != 0
            invariant
                ok == is_list::<T>(self.bytes(), self.at()),
                sh == shape_of::<T>(self.bytes(), self.at()),
                m == sh.offs.len(),
                i <= meta.len,
                out@.len() == i,
                ok ==> {
                    &&& stored::<T>(self.bytes(), self.at(), sh)
                    &&& meta@ == sh.meta
                    &&& meta.len == m
                    &&& i < m ==> next == sh.offs[i as int]
                    &&& i == m ==> next == 0
                    &&& forall|t: int| 0 <= t < sh.offs.len() ==> 1 <= #[trigger] sh.offs[t]
                    &&& forall|t: int| 0 <= t < sh.offs.len() ==> 1 <= #[trigger] ht(sh.nodes, t)
                    &&& forall|k: int| 0 <= k < i ==> #[trigger] out@[k]@ == sh.nodes[k].data
                },
            decreases meta.len - i,
        {
            let ghost k = i as int;
            proof {
                if ok {
                    assert(node_stored::<T>(self.bytes(), self.at(), sh, k));
                    lemma_dec_node::<T>(self.bytes(), sh.offs[k] as int, sh.nodes[k]);
                }
            }
            let node = match read_node::<T>(self.store.as_bytes(), next) {
                Ok(n) => n,
                Err(e) => {
                    return Err(e);
                },
            };
            proof {
                if ok {
                    assert(node@ == sh.nodes[k]);
                    assert(level_ok(sh.offs, sh.nodes, m, sh.meta.heads, 0));
                    assert(node_links_ok(sh.offs, sh.nodes, m, 0, k));
                    assert(ht(sh.nodes, k) >= 1);
                }
            }
            next = if node.levels.len() > 0 {
                node.levels[0].forward
            } else {
                0
            };
            proof {
                if ok {
                    lemma_level0_link(sh.offs, sh.nodes, m, k, next);
                }
            }
            out.push(node.data);
            i = i + 1;
        }
        proof {
            if ok {
                if i < m {
                    assert(1 <= sh.offs[i as int]);
                }
                assert(out@.map_values(|t: T| t@) =~= self.items());
            }
        }
        Ok(out)
    }

    /// Searches for data that `compare` answers `Equal` for. `compare` tells
    /// where the data it is given stands from what is sought. Whatever it
    /// answers, data that is found is in the list and was answered `Equal`.
    /// Where the list's data come in the order `compare` sees, all `Less`
    /// before all `Equal` before all `Greater`, finding nothing means that no
    /// data of the list is answered `Equal`.
    pub fn find<F: Fn(&T) -> Ordering>(&self, compare: F) -> (r: Result<Option<T>, Error>)
        requires
            is_list::<T>(self.bytes(), self.at()),
            forall|t: &T| #[trigger] compare.requires((t,)),
        ensures
            match r {
                Ok(Some(t)) => compare.ensures((&t,), Ordering::Equal) && exists|k: int|
                    0 <= k < self.items().len() && #[trigger] self.items()[k] == t@,
                Ok(None) => in_order::<T, F>(compare, self.items()) ==> forall|k: int, t: T, o: Ordering|
                    0 <= k < self.items().len() && t@ == #[trigger] self.items()[k]
                        && #[trigger] compare.ensures((&t,), o) ==> o != Ordering::Equal,
                Err(_) => false,
            },
    {
        let ghost sh = shape_of::<T>(self.bytes(), self.at());
        let ghost m = count_of::<T>(sh);
        let ghost items = self.items();
        proof {
            lemma_dec_meta(self.bytes(), self.at(), sh.meta);
            lemma_stored_up::<T>(self.bytes(), self.at(), sh);
            assert(items.len() == m);
        }
        let metadata = match self.metadata() {
            Ok(md) => md,
            Err(e) => {
                proof {
                    assert(false);
                }
                return Err(e);
            },
        };
        let mut i: usize = levels_used(&metadata);
        let mut links: Vec<Level> = metadata.heads;
        let ghost mut p: int = -1;
        let ghost mut b: int = m;
        let ghost mut vp: T = vstd::pervasive::arbitrary();
        let ghost mut vb: T = vstd::pervasive::arbitrary();
        let ghost mono = in_order::<T, F>(compare, items);
        while i > 0
            invariant
                sh == shape_of::<T>(self.bytes(), self.at()),
                stored::<T>(self.bytes(), self.at(), sh),
                m == count_of::<T>(sh),
                items == self.items(),
                items.len() == m,
                forall|t: int| 0 <= t < m ==> 1 <= #[trigger] sh.offs[t],
                forall|t: int| 0 <= t < m ==> #[trigger] items[t] == sh.nodes[t].data,
                forall|t: &T| #[trigger] compare.requires((t,)),
                mono == in_order::<T, F>(compare, items),
                i <= MAX_LEVEL,
                -1 <= p < m,
                b <= m,
                mono ==> p < b,
                mono ==> forall|t: int| p < t < b ==> #[trigger] ht(sh.nodes, t) <= num(i),
                p == -1 ==> links@ == sh.meta.heads,
                p >= 0 ==> links@ == sh.nodes[p].levels && num(i) <= ht(sh.nodes, p),
                p >= 0 ==> vp@ == items[p] && compare.ensures((&vp,), Ordering::Less),
                b < m ==> num(i) < ht(sh.nodes, b),
                b < m ==> vb@ == items[b] && compare.ensures((&vb,), Ordering::Greater),
            decreases i,
        {
            i = i - 1;
            loop
                invariant_except_break
                    sh == shape_of::<T>(self.bytes(), self.at()),
                    stored::<T>(self.bytes(), self.at(), sh),
                    m == count_of::<T>(sh),
                    items == self.items(),
                    items.len() == m,
                    forall|t: int| 0 <= t < m ==> 1 <= #[trigger] sh.offs[t],
                    forall|t: int| 0 <= t < m ==> #[trigger] items[t] == sh.nodes[t].data,
                    forall|t: &T| #[trigger] compare.requires((t,)),
                    mono == in_order::<T, F>(compare, items),
                    i < MAX_LEVEL,
                    -1 <= p < m,
                    b <= m,
                    mono ==> p < b,
                    mono ==> forall|t: int| p < t < b ==> #[trigger] ht(sh.nodes, t) <= num(i) + 1,
                    p == -1 ==> links@ == sh.meta.heads,
                    p >= 0 ==> links@ == sh.nodes[p].levels && num(i) < ht(sh.nodes, p),
                    p >= 0 ==> vp@ == items[p] && compare.ensures((&vp,), Ordering::Less),
                    b < m ==> num(i) < ht(sh.nodes, b),
                    b < m ==> vb@ == items[b] && compare.ensures((&vb,), Ordering::Greater),
                ensures
                    sh == shape_of::<T>(self.bytes(), self.at()),
                    stored::<T>(self.bytes(), self.at(), sh),
                    m == count_of::<T>(sh),
                    items == self.items(),
                    items.len() == m,
                    forall|t: int| 0 <= t < m ==> 1 <= #[trigger] sh.offs[t],
                    forall|t: int| 0 <= t < m ==> #[trigger] items[t] == sh.nodes[t].data,
                    forall|t: &T| #[trigger] compare.requires((t,)),
                    mono == in_order::<T, F>(compare, items),
                    i < MAX_LEVEL,
                    -1 <= p < m,
                    b <= m,
                    mono ==> p < b,
                    mono ==> forall|t: int| p < t < b ==> #[trigger] ht(sh.nodes, t) <= num(i),
                    p == -1 ==> links@ == sh.meta.heads,
                    p >= 0 ==> links@ == sh.nodes[p].levels && num(i) < ht(sh.nodes, p),
                    p >= 0 ==> vp@ == items[p] && compare.ensures((&vp,), Ordering::Less),
                    b < m ==> num(i) < ht(sh.nodes, b),
                    b < m ==> vb@ == items[b] && compare.ensures((&vb,), Ordering::Greater),
                decreases m - p,
            {
                proof {
                    assert(sh.meta.heads.len() == MAX_LEVEL);
                }
                let f = links[i].forward;
                proof {
                    self.lemma_link_here(sh, p, i, f);
                }
                if f == 0 {
                    proof {
                        assert forall|t: int| p < t < b && mono implies #[trigger] ht(sh.nodes, t) <= num(
                            i,
                        ) by {
                            assert(no_next(sh.nodes, m, num(i), p));
                        }
                    }
                    break ;
                }
                let ghost j = choose|j: int|
                    #[trigger] is_next(sh.nodes, m, num(i), p, j) && f == sh.offs[j];
                proof {
                    if mono && j > b {
                        assert(ht(sh.nodes, b) <= num(i));
                    }
                }
                let node = match self.node(f) {
                    Ok(n) => n,
                    Err(e) => {
                        proof {
                            assert(false);
                        }
                        return Err(e);
                    },
                };
                proof {
                    let k = choose|k: int|
                        0 <= k < sh.offs.len() && sh.offs[k] == f && #[trigger] sh.nodes[k] == node@;
                    self.lemma_offs_distinct(sh, k, j);
                    assert(items[j] == node.data@);
                }
                match compare(&node.data) {
                    Ordering::Less => {
                        proof {
                            if mono && j == b {
                                assert(order_rank(Ordering::Greater) <= order_rank(Ordering::Less)) by {
                                    assert(items[b] == items[j]);
                                }
                            }
                            vp = node.data;
                            p = j;
                        }
                        links = node.levels;
                    },
                    Ordering::Equal => {
                        return Ok(Some(node.data));
                    },
                    Ordering::Greater => {
                        proof {
                            vb = node.data;
                            b = j;
                        }
                        break ;
                    },
                }
            }
        }
        proof {
            if mono && b > p + 1 {
                assert(ht(sh.nodes, p + 1) <= 0);
            }
            assert forall|k: int, t: T, o: Ordering|
                mono && 0 <= k < items.len() && t@ == #[trigger] items[k] && #[trigger] compare.ensures(
                    (&t,),
                    o,
                ) implies o != Ordering::Equal by {
                if k <= p {
                    assert(items[p] == vp@);
                    assert(order_rank(o) <= order_rank(Ordering::Less));
                } else {
                    assert(items[b] == vb@);
                    assert(order_rank(Ordering::Greater) <= order_rank(o));
                }
            }
        }
        Ok(None)
    }
}

/// Walks a list's data in order.
pub struct Iter<'a, T> {
    reader: &'a Reader<'a, T>,
    next: u64,
    pos: Ghost<int>,
}

impl<'a, T: Record> Iter<'a, T> {
    /// The data of the list walked.
    pub closed spec fn items(&self) -> Seq<T::V> {
        self.reader.items()
    }

    /// How many of the data have been handed out.
    pub closed spec fn pos(&self) -> int {
        self.pos@
    }

    /// The walk stands at its position in the list.
    pub closed spec fn valid(&self) -> bool {
        let sh = shape_of::<T>(self.reader.bytes(), self.reader.at());
        &&& is_list::<T>(self.reader.bytes(), self.reader.at())
        &&& 0 <= self.pos@ <= sh.offs.len()
        &&& self.pos@ < sh.offs.len() ==> self.next == sh.offs[self.pos@]
        &&& self.pos@ == sh.offs.len() ==> self.next == 0
    }

    /// The next data in the list, if any is left. Where the bytes hold no
    /// list, it gives what it reads, following the links on the lowest level.
    pub fn next(&mut self) -> (r: Option<Result<T, Error>>)
        ensures
            final(self).items() == old(self).items(),
            old(self).valid() ==> final(self).valid(),
            old(self).valid() && old(self).pos() < old(self).items().len() ==> (r matches Some(Ok(t))
                && t@ == old(self).items()[old(self).pos()] && final(self).pos() == old(self).pos() + 1),
            old(self).valid() && old(self).pos() == old(self).items().len() ==> r is None
                && final(self).pos() == old(self).pos(),
    {
        let ghost ok = self.valid();
        let ghost sh = shape_of::<T>(self.reader.bytes(), self.reader.at());
        let ghost m = sh.offs.len() as int;
        proof {
            if ok {
                lemma_stored_up::<T>(self.reader.bytes(), self.reader.at(), sh);
            }
        }
        if self.next == 0 {
            proof {
                if ok && self.pos@ < m {
                    assert(1 <= sh.offs[self.pos@]);
                }
            }
            return None;
        }
        let ghost k = self.pos@;
        proof {
            if ok {
                assert(node_stored::<T>(self.reader.bytes(), self.reader.at(), sh, k));
                lemma_dec_node::<T>(self.reader.bytes(), sh.offs[k] as int, sh.nodes[k]);
            }
        }
        let node = match read_node::<T>(self.reader.store.as_bytes(), self.next) {
            Ok(n) => n,
            Err(e) => {
                return Some(Err(e));
            },
        };
        proof {
            if ok {
                assert(node@ == sh.nodes[k]);
                assert(level_ok(sh.offs, sh.nodes, m, sh.meta.heads, 0));
                assert(node_links_ok(sh.offs, sh.nodes, m, 0, k));
                assert(ht(sh.nodes, k) >= 1);
            }
        }
        self.next = if node.levels.len() > 0 {
            node.levels[0].forward
        } else {
            0
        };
        proof {
            if ok {
                lemma_level0_link(sh.offs, sh.nodes, m, k, self.next);
            }
        }
        self.pos = Ghost(self.pos@ + 1);
        Some(Ok(node.data))
    }
}

impl<'a, T: Record> Reader<'a, T> {
    /// Two nodes at the same offset are the same node.
    proof fn lemma_offs_distinct(&self, sh: Shape<T::V>, j: int, k: int)
        requires
            stored::<T>(self.bytes(), self.at(), sh),
            0 <= j < sh.offs.len(),
            0 <= k < sh.offs.len(),
            sh.offs[j] == sh.offs[k],
        ensures
            j == k,
    {
        crate::store::skip_list::layout::lemma_enc_node_len::<T>(sh.nodes[j]);
        crate::store::skip_list::layout::lemma_enc_node_len::<T>(sh.nodes[k]);
        if j < k {
            assert(crate::store::skip_list::model::apart::<T>(sh, j, k));
            assert(node_stored::<T>(self.bytes(), self.at(), sh, j));
            crate::store::skip_list::layout::lemma_enc_node_len::<T>(sh.nodes[j]);
        } else if k < j {
            assert(crate::store::skip_list::model::apart::<T>(sh, k, j));
            assert(node_stored::<T>(self.bytes(), self.at(), sh, k));
            crate::store::skip_list::layout::lemma_enc_node_len::<T>(sh.nodes[k]);
        }
    }

    /// The link on level `i` from node `p` (or from the start) is the right one.
    proof fn lemma_link_here(&self, sh: Shape<T::V>, p: int, i: usize, f: u64)
        requires
            stored::<T>(self.bytes(), self.at(), sh),
            -1 <= p < sh.offs.len(),
            i < MAX_LEVEL,
            p == -1 ==> f == sh.meta.heads[i as int].forward,
            p >= 0 ==> i < ht(sh.nodes, p) && f == sh.nodes[p].levels[i as int].forward,
        ensures
            fwd_ok(sh.offs, sh.nodes, sh.offs.len() as int, i as int, p, f),
    {
        let m = sh.offs.len() as int;
        assert(level_ok(sh.offs, sh.nodes, m, sh.meta.heads, i as int));
        if p >= 0 {
            assert(node_links_ok(sh.offs, sh.nodes, m, i as int, p));
        }
    }
}

} // verus!
