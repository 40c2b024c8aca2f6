# walgit_store

The rules of walgit's object stores, written in Rust and proved with Verus.

- `src/` is the library. `store` holds the types that every store shares.
  `encrypted` seals objects into containers and plans reads of them. `xet` cuts
  objects into chunks, packs new ones into xorbs and puts objects together again.
  `plugin` and `notify` hold the rules of the boundaries to shared libraries and to
  transports of announcements. `azure` decides what is asked of Blob Storage and what
  its answers mean. `eval` counts what chunk storage costs and saves.
- `tests/` runs the library with the outside crates that it calls.
- `app/` performs the reads, writes and calls that the library asks for.

Properties that span functions are public proof functions whose names begin with
`law_`. Functions marked `external_body` call outside crates; what is believed of
those calls stands in their contracts and doc comments.
