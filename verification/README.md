# sg_search

A full-text search engine built on an inverted index: an FST maps each term
to the place of a skip list in the term file, and the skip list holds the
term's postings (document number, the caller's document number, term
frequency) in blocks.

The library in `src/` is verified with Verus:

- `analyzer`: char filters, tokenizers and token filters, and the analyzer that
  counts the terms of a text.
- `codec`: the little-endian, fixed-width encoding of the stored records.
- `store`: the byte store held in memory, and the skip list kept in it
  (its layout, its model as a sequence of nodes, appending and reading).
- `index`: the index writer, which gathers postings per term, sends them to
  the skip lists in blocks, and builds the FST.
- `query`: opening an index, looking terms up, ranking the documents, and
  which documents a query over a finished index finds.
- `fst_map`, `paths`, `terms`: the FST and path calls, and the byte order of
  terms.

`app/` holds what works with files (reading and writing the index files,
memory maps, file locks), the floating-point scores, and the automaton search
of the FST. `tests/` exercises the library.
