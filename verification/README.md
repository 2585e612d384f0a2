# rapid_rust_replay

Replays a DimOS recording (a memory2 `.db` or an `.mcap`) onto LCM or Zenoh, re-stamping each message
so subscribers see it as live data, and captures live traffic into an `.mcap`.

The rules of all that are a library whose functions carry contracts that Verus proves. What reads
files, talks to a network or computes with floating-point numbers is a thin program around it.

## Layout

| Path | What it holds |
| --- | --- |
| `src/cdr.rs`, `src/cdr/` | the ROS 2 CDR format: layouts, reader, writer, message types |
| `src/schema.rs` | the ROS message definitions that recorded channels carry |
| `src/stamp.rs` | finding and rewriting the stamp of a message |
| `src/stamp/filter.rs` | dropping transforms from `tf` messages |
| `src/stamp/audit.rs` | warning about stamps and frame trees that cannot be right |
| `src/stamp/audit/history.rs` | when the report of an audit is empty |
| `src/source.rs` | the streams of a recording, and merging them by timestamp |
| `src/source/reading.rs` | reading all rows of a `.db`, each once and in order |
| `src/source/summary.rs` | the channels that an mcap file lists |
| `src/sink.rs` | the names that messages are published under |
| `src/lockstep.rs` | pacing a replay by the answers of a downstream node |
| `src/replay.rs` | renaming streams, and deciding about each message of a pass |
| `src/record.rs`, `src/record/` | selection, codecs, channels and counts of a capture |
| `src/pattern.rs`, `src/order.rs`, `src/text.rs` | names, ordered tables, strings |
| `src/outside.rs` | calls into `lz4_flex` and `serde_json` |
| `app/` | the `rrr` program: arguments, SQLite, mcap files, LCM, Zenoh, clocks |
| `tests/` | tests of the library |

Functions named `law_*` state what holds of several functions together: that messages come in
timestamp order and each of them once, that a pass counts each message once, that what is recorded
reads back, that patching a stamp touches nothing else.

Floating-point fields are carried as their bits, in `F64` and `F32`.

## What is taken on trust

The contracts of the functions in `src/outside.rs`, of `read_summary` in `src/source/summary.rs`, of
`from_utf8_lossy` in `src/cdr/reader.rs` and of `String::push` in `src/text.rs` are believed, not
proved. Each says so where it stands.
