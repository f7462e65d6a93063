# deckhand_rs

A BM25 retrieval index whose logic is verified with Verus.

- `src/text.rs`: tokenization (lowercase, then maximal runs of alphanumeric chars).
- `src/model.rs`: the mathematical model: occurrence counts, document frequencies, token totals.
- `src/index.rs`: `Retriever`: kept files, indexing, the counts BM25 reads, snippets, statistics.
- `src/query.rs`: specifications of query terms, snippets and the vocabulary.
- `src/rank.rs`: ranking of scored documents (stable, by descending key, cut to `top_k`).
- `app/`: file reading and the floating-point BM25 scoring over the verified counts.
