# vajra

The rules of a streaming query engine, written in Rust and proved with Verus: what a source reads
and where it resumes, when an epoch is committed, which files a reader may see, how a plan is cut
into stages and where its tasks run, and what a number of SQL functions compute.

- `src/` is the library. Every function states what it returns or changes, and Verus proves it.
  The laws that span several functions are public proof functions whose names start with `law_`.
- `tests/` runs the library, with the crates that it calls.
- `app/` is ordinary Rust around the library: the environment, object stores, Kafka clients, Arrow
  Flight, the command line and the parts that compute with floating-point numbers.

| Module | What it holds |
| --- | --- |
| `coordinator` | epochs: triggers, acknowledgements, commits and recovery |
| `checkpoint`, `flow`, `sink_log` | checkpoints, the commit of an epoch, the commit log of a file sink |
| `file_stream`, `listing`, `json` | file sources, listed tables, JSON lines with malformed records |
| `kafka` | options, offsets, the read loops, record batches, and the exactly-once sink |
| `iceberg` | table metadata, snapshots and the commit protocol |
| `job_graph`, `shuffle`, `task_assigner`, `task_runner`, `stream_service`, `stream_set`, `ids` | stages, channels, slots and tasks |
| `functions` | padding, number pictures, sketches, counters and percentiles |
| `plan_nodes`, `optimizer`, `cli`, `artifact` | plan nodes, optimizer rules, commands, artifacts |
| `record_batch`, `json_numbers`, `text_cells`, `schema`, `assoc`, `sorting`, `bytes`, `text` | what the others are made of |

What is not proved is the behaviour of the crates that the library calls. Each such call stands
behind a small function whose doc comment says what is claimed of it.
