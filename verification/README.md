# rugst

A local semantic memory store: conversation messages and facts are kept in
SQLite with their embeddings, and searched by meaning (cosine similarity with
time decay) and, optionally, by keyword (FTS5 with a trigram tokenizer),
the two rankings merged by reciprocal rank fusion.

## Layout

- `src/` — the verified core (Verus):
  - `search.rs`: order keys of `f32` scores, stable descending ranking,
    threshold and top-k selection, and the grouping step of reciprocal rank
    fusion, with the laws that the selection is a prefix of the ranking and
    that the ranking is unique.
  - `memory.rs`: the embedding blob layout (little-endian words) with its
    round-trip laws, the keyword-search plan, the save-message steps (facts
    are refreshed, conversation messages always inserted), history order and
    the clock.
  - `text.rs`: trimming, FTS5 phrase escaping and LIKE escaping, with their
    injectivity laws.
  - `embedding.rs`, `interop.rs`, `server.rs`: model inputs, the C status
    codes and option sentinels, and the memory server's requests and history
    reply.
- `app/` — the program around it: the MCP server over stdio, the SQLite
  store, the embedding model, the floating-point scoring and the C interface.
- `tests/` — tests of the library on concrete values.
