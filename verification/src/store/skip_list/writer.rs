//! Creating a skip list in a store and appending to it.
use crate::codec::Record;
use crate::store::error::Error;
use crate::store::skip_list::layout::{empty_meta, enc_meta, enc_node, encode_meta, encode_node, lemma_dec_meta, lemma_dec_node, lemma_empty_meta_zeros, lemma_enc_meta_len, lemma_enc_node_len, read_meta, read_node, Level, MetaData, MetaV, Node, MAX_LEVEL, META_SIZE};
use crate::store::skip_list::model::{ht, in_footprint, is_list, is_prev, level_ok, list_of, node_stored, records_ok, shape_of, lemma_shape_of, lemma_stored_up, stored, Shape};
use crate::store::skip_list::push::{
    nodes_kept,
    lemma_stage_after, lemma_stage_finish, lemma_stage_first, lemma_stage_last, lemma_stage_start,
    stage_ok,
};
use crate::store::skip_list::reader::Reader;
use crate::store::store_io::{MemStore, WriteableStore};
use std::marker::PhantomData;
use vstd::prelude::*;

verus! {

/// A node goes up one more level when a random `u16` falls below this: a
/// quarter of `u16::MAX`, rounded down.
pub const LEVEL_THRESHOLD: u16 = 16383;

/// A random `u16`, from `rand::random`.
#[verifier::external_body]
fn random_u16() -> u16 {
    rand::random::<u16>()
}

/// The number of levels of a new node: 1, and one more for as long as a random
/// draw falls below `LEVEL_THRESHOLD`, up to `MAX_LEVEL`.
pub fn random_level() -> (r: u8)
    ensures
        1 <= r <= MAX_LEVEL,
{
    let mut level: u8 = 1;
    loop
        invariant
            1 <= level <= MAX_LEVEL,
        decreases MAX_LEVEL - level,
    {
        if level >= MAX_LEVEL {
            break ;
        }
        if random_u16() >= LEVEL_THRESHOLD {
            break ;
        }
        level = level + 1;
    }
    level
}

/// The shape of a list with no node, its metadata at `off`.
pub open spec fn empty_shape<V>(meta: MetaV) -> Shape<V> {
    Shape { meta, offs: Seq::empty(), nodes: Seq::empty() }
}

/// Appends to a skip list kept in a store it owns.
#[derive(Debug)]
pub struct Writer<T> {
    store: MemStore,
    offset: u64,
    phantom: PhantomData<T>,
}

impl<T: Record> Writer<T> {
    /// The bytes of the store.
    pub closed spec fn bytes(&self) -> Seq<u8> {
        self.store@
    }

    /// Where the list's metadata lies.
    pub closed spec fn at(&self) -> u64 {
        self.offset
    }

    /// A writer for the list whose metadata lies at `offset` in `store`.
    pub fn new(store: MemStore, offset: u64) -> (r: Self)
        ensures
            r.bytes() == store@,
            r.at() == offset,
    {
        Writer { store, offset, phantom: PhantomData }
    }

    /// Starts a list with no node at the end of `store`.
    pub fn make_append(store: MemStore) -> (r: Result<Self, Error>)
        ensures
            match r {
                Ok(w) => {
                    &&& w.at() == store@.len()
                    &&& w.bytes() == store@ + enc_meta(empty_meta())
                    &&& w.bytes() == store@ + Seq::new(META_SIZE as nat, |i: int| 0u8)
                    &&& w.bytes().len() == store@.len() + META_SIZE
                    &&& w.bytes().subrange(0, store@.len() as int) == store@
                    &&& is_list::<T>(w.bytes(), w.at() as int)
                    &&& list_of::<T>(w.bytes(), w.at() as int) == Seq::<T::V>::empty()
                    &&& forall|p: int|
                        #[trigger] in_footprint::<T>(w.bytes(), w.at() as int, p) <==> store@.len()
                            <= p < w.bytes().len()
                },
                Err(e) => e == Error::OutOfRange && store@.len() + META_SIZE > usize::MAX,
            },
    {
        let mut store = store;
        let ghost s0 = store@;
        let meta = MetaData::empty();
        let bytes = encode_meta(&meta);
        proof {
            lemma_enc_meta_len(meta@);
        }
        let offset = store.append_bytes(bytes.as_slice())?;
        proof {
            let s1 = store@;
            assert(usize::MAX <= u64::MAX);
            let sh = empty_shape::<T::V>(meta@);
            assert(s1.subrange(offset as int, offset + META_SIZE) =~= enc_meta(meta@));
            assert(records_ok::<T>(s1, offset as int, sh));
            assert forall|i: int| 0 <= i < MAX_LEVEL implies #[trigger] level_ok(
                sh.offs,
                sh.nodes,
                0,
                sh.meta.heads,
                i,
            ) by {
                assert(sh.meta.heads[i] == Level { backward: 0, forward: 0 });
            }
            assert(stored::<T>(s1, offset as int, sh));
            lemma_shape_of::<T>(s1, offset as int, sh);
            assert(list_of::<T>(s1, offset as int) =~= Seq::<T::V>::empty());
            assert(s1.subrange(0, s0.len() as int) =~= s0);
            lemma_empty_meta_zeros();
        }
        Ok(Writer { store, offset, phantom: PhantomData })
    }

    /// Where the list's metadata lies.
    pub fn offset(&self) -> (r: u64)
        ensures
            r == self.at(),
    {
        self.offset
    }

    /// The store.
    pub fn store(&self) -> (r: &MemStore)
        ensures
            r@ == self.bytes(),
    {
        &self.store
    }

    /// The store, taken back.
    pub fn into_store(self) -> (r: MemStore)
        ensures
            r@ == self.bytes(),
    {
        self.store
    }

    /// Appends `data` as the list's new last node, with a random number of levels.
    pub fn push_back(&mut self, data: T) -> (r: Result<(), Error>)
        requires
            is_list::<T>(old(self).bytes(), old(self).at() as int),
        ensures
            final(self).at() == old(self).at(),
            match r {
                Ok(()) => {
                    &&& is_list::<T>(final(self).bytes(), final(self).at() as int)
                    &&& list_of::<T>(final(self).bytes(), final(self).at() as int) == list_of::<T>(
                        old(self).bytes(),
                        old(self).at() as int,
                    ).push(data@)
                    &&& old(self).bytes().len() <= final(self).bytes().len() <= old(self).bytes().len()
                        + T::spec_encode(data@).len() + 8 + 16 * MAX_LEVEL
                    &&& forall|p: int|
                        0 <= p < old(self).bytes().len() && !in_footprint::<T>(
                            old(self).bytes(),
                            old(self).at() as int,
                            p,
                        ) ==> #[trigger] final(self).bytes()[p] == old(self).bytes()[p]
                    &&& forall|p: int|
                        #[trigger] in_footprint::<T>(final(self).bytes(), final(self).at() as int, p)
                            ==> in_footprint::<T>(old(self).bytes(), old(self).at() as int, p) || old(
                            self,
                        ).bytes().len() <= p < final(self).bytes().len()
                    &&& shape_of::<T>(final(self).bytes(), final(self).at() as int).offs == shape_of::<T>(
                        old(self).bytes(),
                        old(self).at() as int,
                    ).offs.push(old(self).bytes().len() as u64)
                    &&& nodes_kept(
                        shape_of::<T>(old(self).bytes(), old(self).at() as int).nodes,
                        shape_of::<T>(final(self).bytes(), final(self).at() as int).nodes,
                    )
                },
                Err(e) => {
                    &&& e == Error::OutOfRange
                    &&& final(self).bytes() == old(self).bytes()
                    &&& old(self).bytes().len() + T::spec_encode(data@).len() + 8 + 16 * MAX_LEVEL
                        > usize::MAX
                },
            },
    {
        let ghost s0 = self.store@;
        let ghost off = self.offset as int;
        let ghost sh = shape_of::<T>(s0, off);
        let ghost m = sh.offs.len() as int;
        proof {
            lemma_stored_up::<T>(s0, off, sh);
            lemma_dec_meta(s0, off, sh.meta);
        }
        let level = random_level();
        let mut metadata = match read_meta(self.store.as_bytes(), self.offset) {
            Ok(md) => md,
            Err(e) => {
                proof {
                    assert(false);
                }
                return Err(e);
            },
        };
        let mut levels: Vec<Level> = Vec::new();
        let mut i: usize = 0;
        while i < level as usize
            invariant
                i <= level <= MAX_LEVEL,
                metadata@ == sh.meta,
                sh.meta.heads.len() == MAX_LEVEL,
                levels@.len() == i,
                forall|t: int|
                    0 <= t < i ==> #[trigger] levels@[t] == (Level {
                        backward: sh.meta.heads[t].backward,
                        forward: 0,
                    }),
            decreases level - i,
        {
            levels.push(Level { backward: metadata.heads[i].backward, forward: 0 });
            i = i + 1;
        }
        let node = Node { data, levels };
        let ghost nv = node@;
        let bytes = encode_node(&node);
        proof {
            lemma_enc_node_len::<T>(nv);
        }
        let o = match self.store.append_bytes(bytes.as_slice()) {
            Ok(o) => o,
            Err(e) => {
                return Err(e);
            },
        };
        let ghost s1 = self.store@;
        let ghost mut cur = sh.nodes.push(nv);
        proof {
            assert(usize::MAX <= u64::MAX);
            lemma_shape_of::<T>(s0, off, sh);
            lemma_stage_start::<T>(s0, s1, off, sh, nv);
        }
        let mut j: usize = 0;
        while j < level as usize
            invariant
                self.offset == off,
                m == sh.offs.len(),
                off == old(self).offset,
                s1.len() <= usize::MAX,
                s1.len() == s0.len() + enc_node::<T>(nv).len(),
                nv.levels.len() == level,
                nv.data == data@,
                stage_ok::<T>(s0, self.store@, off, sh, o, nv, cur, metadata@.heads, j as int),
                metadata@.len == sh.meta.len,
                metadata@.level == sh.meta.level,
            decreases level - j,
        {
            let b = metadata.heads[j].backward;
            let ghost h0 = metadata@.heads;
            let ghost s_before = self.store@;
            if b == 0 {
                proof {
                    lemma_stage_first::<T>(s0, s_before, off, sh, o, nv, cur, h0, j as int);
                }
                metadata.heads.set(j, Level { backward: o, forward: o });
            } else {
                proof {
                    lemma_stage_last::<T>(s0, s_before, off, sh, o, nv, cur, h0, j as int);
                }
                let ghost last = choose|t: int|
                    #[trigger] is_prev(cur, j as int, m, t) && h0[j as int].backward == sh.offs.push(
                        o,
                    )[t];
                let ghost cur0 = cur;
                proof {
                    let shj = Shape { meta: sh.meta, offs: sh.offs.push(o), nodes: cur0 };
                    assert(node_stored::<T>(s_before, off, shj, last));
                    lemma_dec_node::<T>(s_before, sh.offs[last] as int, cur0[last]);
                }
                let mut back = match read_node::<T>(self.store.as_bytes(), b) {
                    Ok(n) => n,
                    Err(e) => {
                        proof {
                            assert(false);
                        }
                        return Err(e);
                    },
                };
                proof {
                    assert(ht(cur0, last) > j);
                }
                let lv = back.levels[j];
                back.levels.set(j, Level { backward: lv.backward, forward: o });
                let ghost nb = back@;
                let bb = encode_node(&back);
                proof {
                    lemma_enc_node_len::<T>(nb);
                    lemma_enc_node_len::<T>(cur0[last]);
                    let shj = Shape { meta: sh.meta, offs: sh.offs.push(o), nodes: cur0 };
                    assert(node_stored::<T>(s_before, off, shj, last));
                    assert(nb.levels =~= cur0[last].levels.update(
                        j as int,
                        Level { backward: cur0[last].levels[j as int].backward, forward: o },
                    ));
                }
                match self.store.write_bytes(bb.as_slice(), b) {
                    Ok(()) => {},
                    Err(e) => {
                        proof {
                            assert(false);
                        }
                        return Err(e);
                    },
                }
                let fwd = metadata.heads[j].forward;
                metadata.heads.set(j, Level { backward: o, forward: fwd });
                proof {
                    lemma_stage_after::<T>(
                        s0,
                        s_before,
                        self.store@,
                        off,
                        sh,
                        o,
                        nv,
                        cur0,
                        h0,
                        j as int,
                        last,
                        nb,
                    );
                    cur = cur0.update(last, nb);
                }
            }
            j = j + 1;
        }
        proof {
            assert(stored::<T>(s0, off, sh));
            assert(sh.meta.len == m);
            lemma_stored_up::<T>(s0, off, sh);
            if m > 0 {
                assert(node_stored::<T>(s0, off, sh, m - 1));
            }
        }
        metadata.len = metadata.len + 1;
        if level > metadata.level {
            metadata.level = level;
        }
        let mb = encode_meta(&metadata);
        proof {
            lemma_enc_meta_len(metadata@);
        }
        let ghost s2 = self.store@;
        match self.store.write_bytes(mb.as_slice(), self.offset) {
            Ok(()) => {},
            Err(e) => {
                proof {
                    assert(false);
                }
                return Err(e);
            },
        }
        proof {
            lemma_stage_finish::<T>(s0, s2, self.store@, off, sh, o, nv, cur, metadata@.heads, metadata@);
            assert(s2.len() == s0.len() + enc_node::<T>(nv).len());
            assert(self.store@.len() == s2.len());
        }
        Ok(())
    }


    /// A reader of the list.
    pub fn into_reader(&self) -> (r: Reader<'_, T>)
        ensures
            r.bytes() == self.bytes(),
            r.at() == self.at(),
    {
        Reader::new(&self.store, self.offset)
    }
}

} // verus!
