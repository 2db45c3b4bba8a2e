# aion

A node companion for the IOTA tangle that detects timewarp chains (signed
transactions that reference an older transaction of the same issuer across a
time gap), follows the best of them as a lifeline, issues its own chain, and
pins the transactions along the lifeline.

- `src/` is the library, verified with Verus: pathways and their packing,
  transaction parsing, the local tangle, timewarp detection, walking and
  selection, the issuing decisions, the lifeline subgraph, pull jobs and
  pinning batches, storage keys and paging, in-memory implementations of
  the storage traits (detection index, chain statistics, lifeline, cache,
  transactions, pull jobs and descriptors, issuing state), and the request
  bodies for the node's API. Calls into the IOTA crates, `sha2`, `base64` and `serde_json`
  go through small trusted wrappers whose contracts are documented where
  they stand.
- `tests/` exercises the library on concrete values.
- `app/` is the program around it: configuration, the node's feed and HTTP
  API, and the indexing and selection loop.
