# evm_extractor

Extracts the addresses that send or receive transactions in a range of blocks of an EVM chain, and
writes them, each once, to compressed CSV files of at most a million blocks each.

- `src/` is the library, verified with Verus: the cutting of the range into parts and batches, the
  checkpoint, the requests and the reading of replies, the order in which endpoints are tried, the
  fallback from a batch to single blocks, the gathering of addresses, the names and the contents of
  the files, and the settings.
- `app/` is the program around it: arguments and environment, HTTP, files, the release tool.
- `tests/` runs the library with `serde_json`, `csv` and `flate2` linked.

What the library believes without proof stands in three places, each with a comment that says what is
claimed: `String::push` in `src/text.rs`, the calls of `serde_json` in `src/json.rs`, and those of `csv`
and `flate2` in `src/archive.rs`.

    evm_extractor --chain base --start-block 1 --end-block 2000000

`TARGET_CHAIN`, `START_BLOCK` and `END_BLOCK` stand in for missing arguments. `RPC_URL` names an endpoint
that is tried before the public ones. `RELEASE_TAG` names a release to which finished files are uploaded
with `gh`.
