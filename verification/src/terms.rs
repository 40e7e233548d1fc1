//! Terms are kept in order of their UTF-8 bytes, compared byte by byte: the
//! order the term dictionary is built in and the FST needs its keys in.
use vstd::prelude::*;
use vstd::utf8::{encode_utf8, encode_utf8_decode_utf8};

verus! {

/// The bytes of a term.
pub open spec fn key_of(term: Seq<char>) -> Seq<u8> {
    encode_utf8(term)
}

/// Terms with the same bytes are the same term.
pub proof fn lemma_key_injective(a: Seq<char>, b: Seq<char>)
    requires
        key_of(a) == key_of(b),
    ensures
        a == b,
{
    encode_utf8_decode_utf8(a);
    encode_utf8_decode_utf8(b);
}

/// `a` comes before `b`: at the first byte where they differ `a`'s is lower, or
/// `a` is a proper prefix of `b`.
pub open spec fn lex_lt(a: Seq<u8>, b: Seq<u8>) -> bool
    decreases a.len(),
{
    if a.len() == 0 {
        b.len() > 0
    } else if b.len() == 0 {
        false
    } else if a[0] < b[0] {
        true
    } else if a[0] > b[0] {
        false
    } else {
        lex_lt(a.drop_first(), b.drop_first())
    }
}

pub proof fn lemma_lex_irreflexive(a: Seq<u8>)
    ensures
        !lex_lt(a, a),
    decreases a.len(),
{
    if a.len() > 0 {
        lemma_lex_irreflexive(a.drop_first());
    }
}

pub proof fn lemma_lex_asymmetric(a: Seq<u8>, b: Seq<u8>)
    requires
        lex_lt(a, b),
    ensures
        !lex_lt(b, a),
    decreases a.len(),
{
    if a.len() > 0 && b.len() > 0 && a[0] == b[0] {
        lemma_lex_asymmetric(a.drop_first(), b.drop_first());
    }
}

pub proof fn lemma_lex_transitive(a: Seq<u8>, b: Seq<u8>, c: Seq<u8>)
    requires
        lex_lt(a, b),
        lex_lt(b, c),
    ensures
        lex_lt(a, c),
    decreases a.len(),
{
    if a.len() > 0 && b.len() > 0 && c.len() > 0 && a[0] == b[0] && b[0] == c[0] {
        lemma_lex_transitive(a.drop_first(), b.drop_first(), c.drop_first());
    }
}

pub proof fn lemma_lex_total(a: Seq<u8>, b: Seq<u8>)
    ensures
        a == b || lex_lt(a, b) || lex_lt(b, a),
    decreases a.len(),
{
    if a.len() > 0 && b.len() > 0 && a[0] == b[0] {
        lemma_lex_total(a.drop_first(), b.drop_first());
        if a.drop_first() == b.drop_first() {
            assert(a =~= seq![a[0]] + a.drop_first());
            assert(b =~= seq![b[0]] + b.drop_first());
        }
    } else if a.len() == 0 && b.len() == 0 {
        assert(a =~= b);
    }
}

/// Where one key stands from another.
#[derive(Debug, Clone, Copy, PartialEq, Eq, Structural)]
pub enum KeyOrder {
    Below,
    Same,
    Above,
}

/// Compares two keys byte by byte.
pub fn compare_keys(a: &[u8], b: &[u8]) -> (r: KeyOrder)
    ensures
        r == KeyOrder::Below <==> lex_lt(a@, b@),
        r == KeyOrder::Same <==> a@ == b@,
        r == KeyOrder::Above <==> lex_lt(b@, a@),
{
    let mut i: usize = 0;
    assert(a@.skip(0) =~= a@);
    assert(b@.skip(0) =~= b@);
    while i < a.len() && i < b.len()
        invariant
            i <= a@.len(),
            i <= b@.len(),
            a@.take(i as int) == b@.take(i as int),
            lex_lt(a@, b@) == lex_lt(a@.skip(i as int), b@.skip(i as int)),
            lex_lt(b@, a@) == lex_lt(b@.skip(i as int), a@.skip(i as int)),
        decreases a@.len() - i,
    {
        if a[i] < b[i] {
            proof {
                lemma_lex_asymmetric(a@.skip(i as int), b@.skip(i as int));
                if a@ == b@ {
                    lemma_lex_irreflexive(a@);
                }
            }
            return KeyOrder::Below;
        }
        if a[i] > b[i] {
            proof {
                lemma_lex_asymmetric(b@.skip(i as int), a@.skip(i as int));
                if a@ == b@ {
                    lemma_lex_irreflexive(a@);
                }
            }
            return KeyOrder::Above;
        }
        proof {
            assert(a@.skip(i as int).drop_first() =~= a@.skip(i + 1));
            assert(b@.skip(i as int).drop_first() =~= b@.skip(i + 1));
            assert(a@.take(i + 1) =~= a@.take(i as int).push(a@[i as int]));
            assert(b@.take(i + 1) =~= b@.take(i as int).push(b@[i as int]));
        }
        i = i + 1;
    }
    proof {
        lemma_lex_irreflexive(a@);
        if i == a@.len() {
            assert(a@ =~= a@.take(i as int));
        }
        if i == b@.len() {
            assert(b@ =~= b@.take(i as int));
        }
    }
    if a.len() < b.len() {
        return KeyOrder::Below;
    }
    if a.len() > b.len() {
        return KeyOrder::Above;
    }
    KeyOrder::Same
}

/// An entry of a dictionary ordered by key.
pub trait Keyed {
    /// The entry's key.
    spec fn key(&self) -> Seq<u8>;

    /// The entry's key.
    fn key_bytes(&self) -> (r: &[u8])
        ensures
            r@ == self.key(),
    ;
}

/// The entries' keys rise strictly.
pub open spec fn keys_sorted<E: Keyed>(v: Seq<E>) -> bool {
    forall|i: int, j: int| 0 <= i < j < v.len() ==> lex_lt(#[trigger] v[i].key(), #[trigger] v[j].key())
}

/// Searches a dictionary ordered by key: the place of the entry with `key`, or
/// the place where such an entry would go.
pub fn search<E: Keyed>(v: &Vec<E>, key: &[u8]) -> (r: Result<usize, usize>)
    requires
        keys_sorted(v@),
    ensures
        match r {
            Ok(i) => i < v@.len() && v@[i as int].key() == key@,
            Err(i) => i <= v@.len() && (forall|j: int| 0 <= j < i ==> lex_lt(#[trigger] v@[j].key(), key@))
                && (forall|j: int| i <= j < v@.len() ==> lex_lt(key@, #[trigger] v@[j].key())),
        },
{
    let mut lo: usize = 0;
    let mut hi: usize = v.len();
    while lo < hi
        invariant
            lo <= hi <= v@.len(),
            keys_sorted(v@),
            forall|j: int| 0 <= j < lo ==> lex_lt(#[trigger] v@[j].key(), key@),
            forall|j: int| hi <= j < v@.len() ==> lex_lt(key@, #[trigger] v@[j].key()),
        decreases hi - lo,
    {
        let mid = lo + (hi - lo) / 2;
        match compare_keys(v[mid].key_bytes(), key) {
            KeyOrder::Same => {
                return Ok(mid);
            },
            KeyOrder::Below => {
                proof {
                    assert forall|j: int| 0 <= j < mid + 1 implies lex_lt(#[trigger] v@[j].key(), key@) by {
                        if j < mid {
                            lemma_lex_transitive(v@[j].key(), v@[mid as int].key(), key@);
                        }
                    }
                }
                lo = mid + 1;
            },
            KeyOrder::Above => {
                proof {
                    assert forall|j: int| mid <= j < v@.len() implies lex_lt(key@, #[trigger] v@[j].key()) by {
                        if j > mid {
                            lemma_lex_transitive(key@, v@[mid as int].key(), v@[j].key());
                        }
                    }
                }
                hi = mid;
            },
        }
    }
    Err(lo)
}

/// Inserting at the place `search` gives keeps the keys rising.
pub proof fn lemma_insert_sorted<E: Keyed>(v: Seq<E>, i: int, e: E)
    requires
        keys_sorted(v),
        0 <= i <= v.len(),
        forall|j: int| 0 <= j < i ==> lex_lt(#[trigger] v[j].key(), e.key()),
        forall|j: int| i <= j < v.len() ==> lex_lt(e.key(), #[trigger] v[j].key()),
    ensures
        keys_sorted(v.insert(i, e)),
{
    let w = v.insert(i, e);
    assert forall|a: int, b: int| 0 <= a < b < w.len() implies lex_lt(#[trigger] w[a].key(), #[trigger] w[b].key()) by {
        if b < i {
            assert(w[a] == v[a] && w[b] == v[b]);
        } else if b == i {
            assert(w[a] == v[a]);
        } else if a < i {
            assert(w[a] == v[a] && w[b] == v[b - 1]);
            lemma_lex_transitive(v[a].key(), e.key(), v[b - 1].key());
        } else if a == i {
            assert(w[b] == v[b - 1]);
        } else {
            assert(w[a] == v[a - 1] && w[b] == v[b - 1]);
        }
    }
}

} // verus!
