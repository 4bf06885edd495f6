# rscask

A log-structured key-value store in the Bitcask design, written in Verus.

Every write appends a CRC-32-checksummed record to a segmented log, and an
in-memory key directory maps each live key to the position of its latest
record. Compaction (`merge`) rewrites the live records into one fresh segment
and writes a hint segment beside it, so that the key directory can later be
rebuilt without reading any value.

## Layout

- `src/` is the verified library.
  - `codec.rs`: big-endian integers, byte helpers, checksummed framing.
  - `record.rs`, `hint.rs`: the record and hint formats, with their
    encoders, decoders and round-trip lemmas.
  - `segment.rs`: scanning and laying out whole data and hint segments.
  - `storage.rs`: log pointers, scan entries, the `LogStore` trait and
    segment file names.
  - `memlog.rs`: `MemLogStore`, a verified `LogStore` that keeps its segments
    in memory, with rotation, compaction and hint segments.
  - `keydir.rs`: the `KeyDir` trait and `HashMapKeyDir`.
  - `bitcask.rs`: the store itself: put, get, delete, merge and recovery.
  - `protocol.rs`, `render.rs`: requests and responses of the daemon, message
    framing, and the text the client prints.
- `app/` holds the programs around the library: a `LogStore` kept in segment
  files, the Unix-socket daemon and its client.
- `tests/` runs the library on concrete values.

## Record formats

```
record: [crc:4][timestamp:8][flags:1][key_size:4][value_size:4][key][value]
hint:   [crc:4][timestamp:8][key_size:4][file_id:8][offset:8][len:4][key]
```

Integers are big-endian; the checksum covers everything after it.
