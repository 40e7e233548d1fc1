//! The header at the start of the term file.
use crate::codec::{enc_u64, lemma_enc_u64, lemma_subrange_split, lemma_u64_at, push_u64, read_u64, u64_at, DecodeError, Record};
use vstd::prelude::*;

verus! {

/// The term file's header: a magic number, and the number of documents indexed.
#[derive(Debug, Clone, Copy, PartialEq, Eq, Structural)]
pub struct Header {
    /// Marks the file as a term file of this index.
    pub magic: u64,
    /// The number of documents indexed.
    pub doc_num: u64,
}

impl View for Header {
    type V = Header;

    open spec fn view(&self) -> Header {
        *self
    }
}

/// The number of bytes of the header.
pub const HEADER_SIZE: u64 = 16;

impl Record for Header {
    open spec fn spec_encode(v: Header) -> Seq<u8> {
        enc_u64(v.magic) + enc_u64(v.doc_num)
    }

    open spec fn spec_decode(s: Seq<u8>, p: int) -> Option<(Header, int)> {
        if 0 <= p && p + 16 <= s.len() {
            Some((Header { magic: u64_at(s, p), doc_num: u64_at(s, p + 8) }, p + 16))
        } else {
            None
        }
    }

    proof fn lemma_decode_encoded(v: Header, s: Seq<u8>, p: int) {
        lemma_enc_u64(v.magic);
        lemma_enc_u64(v.doc_num);
        lemma_subrange_split(s, p, enc_u64(v.magic), enc_u64(v.doc_num));
        lemma_u64_at(s, p, v.magic);
        lemma_u64_at(s, p + 8, v.doc_num);
    }

    fn encode_into(&self, out: &mut Vec<u8>) {
        push_u64(out, self.magic);
        push_u64(out, self.doc_num);
        proof {
            assert(final(out)@ =~= old(out)@ + Self::spec_encode(self@));
        }
    }

    fn decode(s: &[u8], p: usize) -> (r: Result<(Header, usize), DecodeError>) {
        let magic = read_u64(s, p)?;
        let doc_num = read_u64(s, p + 8)?;
        Ok((Header { magic, doc_num }, p + 16))
    }
}

} // verus!
