# turbolay_graph

The records of a property graph and the path by which they are written, as a verified library.

- Codecs: `value`, `props`, `labels`, `node` and `change` turn values, property maps, node records
  and changelog records into bytes and back. `codec_laws` proves that what is written is read back,
  that nothing shorter or longer is taken for a record, that different records differ in bytes, and
  (with `canonical`) that a changelog record has one encoding only.
- Write path: `write` turns node upserts, edge upserts and deletions into batches of store
  operations, each under one sequence number. `model` says what each of them does, as functions on
  views; `merge` is what an upsert makes of a node. `weave_laws` proves what is in a batch and in
  which order; `write_laws` and `store_laws` prove what holds once batches are applied: reads see
  the writes, and degrees add up.
- Recovery: a writer keeps the records of the names and id blocks it drew until a batch that holds
  them was applied. `coherence` says when a writer and a store agree, and proves that every batch,
  applied or failed, keeps it so and that a writer opened over the store knows the same names and
  hands out only ids beyond those in the store. `history` proves the same of any run of writes,
  failures and restarts, and what such a run leaves of properties, degrees and deleted nodes.
- Beneath: `allocators`, `schema`, `store`, `stats`, `bitmap`, `buffer`, `cursor`, `fixed`,
  `endian`, `text`, `ids`, `error`, `message`.

The library reads and writes no storage. A caller reads what a write depends on, hands it in, and
applies the batch it gets back; `app/` does so asynchronously over a storage backend.

What is believed without proof is what the library says of the crates `bytes`, `roaring` and
`opendata-common` and of one function of the standard library, next to where each is called:
`buffer`, `bitmap`, `allocators` and `text`.
