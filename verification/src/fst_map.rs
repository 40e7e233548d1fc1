//! The FST from terms to the offsets of their skip lists, built and read with
//! the `fst` crate.
use crate::terms::{key_of, lex_lt};
use fst::Error as FstError;
use vstd::prelude::*;

verus! {

#[verifier::external_type_specification]
#[verifier::external_body]
#[verifier::reject_recursive_types(D)]
pub struct ExFstMap<D>(fst::Map<D>);

#[verifier::external_type_specification]
#[verifier::external_body]
pub struct ExFstError(FstError);

/// The keys and values that a map read from `bytes` by `fst::Map::new` holds.
pub uninterp spec fn fst_bytes_entries(bytes: Seq<u8>) -> Map<Seq<u8>, u64>;

/// The keys and values that the map `m` holds.
pub uninterp spec fn fst_map_entries(m: fst::Map<Vec<u8>>) -> Map<Seq<u8>, u64>;

/// The bytes the map `m` was read from.
pub uninterp spec fn fst_map_bytes(m: fst::Map<Vec<u8>>) -> Seq<u8>;

/// `bytes` are an FST as the `fst` crate's builder writes one.
pub uninterp spec fn fst_built(bytes: Seq<u8>) -> bool;

/// The terms of `entries` rise strictly in the order of their bytes.
pub open spec fn entries_ascending(entries: Seq<(String, u64)>) -> bool {
    forall|i: int, j: int| 0 <= i < j < entries.len() ==> lex_lt(key_of(#[trigger] entries[i].0@), key_of(#[trigger] entries[j].0@))
}

/// The map from the keys of the terms of `entries` to their values.
pub open spec fn entry_map(entries: Seq<(String, u64)>) -> Map<Seq<u8>, u64> {
    Map::new(
        |k: Seq<u8>| exists|e: int| 0 <= e < entries.len() && key_of(#[trigger] entries[e].0@) == k,
        |k: Seq<u8>| entries[choose|e: int| 0 <= e < entries.len() && key_of(#[trigger] entries[e].0@) == k].1,
    )
}

/// `fst::Map::from_iter` over the terms' bytes and values, the map's bytes
/// taken out with `into_fst().into_inner()`. Where it succeeds, the bytes are
/// an FST the builder wrote, holding exactly the given keys and values. It
/// fails only on keys that are out of order or repeated: the builder writes to
/// a `Vec`, which cannot fail, and `Map::new` accepts what the builder wrote.
#[verifier::external_body]
pub(crate) fn fst_build(entries: &Vec<(String, u64)>) -> (r: Result<Vec<u8>, FstError>)
    ensures
        r matches Ok(b) ==> fst_built(b@) && fst_bytes_entries(b@) == entry_map(entries@),
        entries_ascending(entries@) ==> r is Ok,
{
    fst::Map::from_iter(entries.iter().map(|(k, v)| (k.as_bytes(), *v))).map(
        |m| m.into_fst().into_inner(),
    )
}

/// `fst::Map::new`: reads a map from `bytes`, which it keeps. It accepts
/// what the builder wrote. It checks only the header and the size, so it may
/// accept other bytes too; lookups in such a map may panic, which is why
/// `fst_get` asks for a map read from builder-written bytes.
#[verifier::external_body]
pub(crate) fn fst_open(bytes: Vec<u8>) -> (r: Result<fst::Map<Vec<u8>>, FstError>)
    ensures
        r matches Ok(m) ==> fst_map_entries(m) == fst_bytes_entries(bytes@) && fst_map_bytes(m) == bytes@,
        fst_built(bytes@) ==> r is Ok,
{
    fst::Map::new(bytes)
}

/// `fst::Map::get`: the value of the key `key`'s bytes, if the map has it.
/// The map must have been read from bytes the builder wrote: on others the
/// crate may panic.
#[verifier::external_body]
pub(crate) fn fst_get(m: &fst::Map<Vec<u8>>, key: &str) -> (r: Option<u64>)
    requires
        fst_built(fst_map_bytes(*m)),
    ensures
        r == if fst_map_entries(*m).dom().contains(key_of(key@)) {
            Some(fst_map_entries(*m)[key_of(key@)])
        } else {
            None::<u64>
        },
{
    m.get(key)
}

/// The text with which the `fst` crate displays `e`. Nothing is stated of
/// it: it is the crate's own wording, and its error carries no plain value
/// that the text could be named over.
#[verifier::external_body]
pub(crate) fn fst_error_text(e: &FstError) -> String {
    format!("{}", e)
}

} // verus!
