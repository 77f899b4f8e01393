# timberfs

Compressed, append-only logs that are indexed by write time, and what is
built on them: followers, replication, intakes and a mount.

`src/` is the library. It decides and computes, and Verus proves that it does
what its contracts say:

- the formats: `format` (the chunk index), `grain` and `indexing` (the token index), `frame`
  (the wire format of replication), `bark` and `declare` (the manifest),
  `declaration` (a follower's), `file_intake` (sets of followed files),
  `msgpack` and `forward` (the Forward protocol), `wire` and `consumer` (records
  and reports);
- positions and retention: `cursor`, `follower`, `interest`, `append`;
- running: `follow`, `frames`, `sending`, `feed`, `fs`, `export`, `entry`,
  `registration`, `registry_view`, `forest`, `forests`;
- what they share: `text`, `bytes`, `json`, `listing`, `measure`, `natural`, `order`,
  `paths`, `rank`, `tokens`, `uuid`.

What holds of several functions together is stated and proved beside them, or
in the module of the same name that ends in `_laws`; `catch_up_laws` is about
`follow`.

Calls into `chrono`, `regex`, `rmpv`, `serde_json` and `zstd` stand behind small
functions whose contracts are taken from those crates; each says so.

`app/` is what is left around the library: files, sockets, processes, signals
and the mount. The engine that stores chunks, the selection language and the
stamping of lines come in through the traits in `app/host.rs`.
