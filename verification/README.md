# skanda_engine

A retrieval engine over plain-text corpora, written in Verus: the data
structures, index formats, parsers and ranking inputs are verified against
their contracts; the file, socket and floating-point work is ordinary Rust.

Layout:

- `src/skanda/` — the positional engine: varint/delta posting lists
  (`compression`), the query cache (`cache`), the BK-tree of the vocabulary (`bktree`), the indexer and
  its file format (`indexer`, `index_file`), query parsing and the per-block
  facts a query needs (`searcher`, `query`), snippets (`snippet`), and the
  HTTP routing decisions (`bridge`).
- `src/pfr/` — the first engine: bit-set proximity (`bitset`), its index
  and file layout (`indexer`, `index_file`: positional postings, 16-byte
  blocks), the search over the blocks holding every query word
  (`searcher`), the bit-parallel approximate matcher (`fuzzy_search`) and
  the substring search (`simd_search`).
- `src/text.rs` — the Unicode character classes and case mapping taken from
  std (named rather than restated), the White_Space test (stated), and string
  equality.
- `app/` — the command line (`index`, `search`, `serve`, `status`,
  `pfr-index`, `pfr-search`), directory walking, index files on disk, the
  BM25 and proximity scores (floating point), the lock around the query cache (`src/skanda/cache.rs`) and the TCP
  bridge.
- `tests/` — tests on concrete values.
