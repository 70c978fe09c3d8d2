# fishy

Brings p2panda schemas up to date with a schema file.

A user describes schemas in a schema file. Earlier commits, kept in a lock file, tell which schema
and field definition documents exist already. The library compares both, plans which documents have
to be created or updated, and turns the plan into operations, one at a time. The application
publishes each operation and hands the signed entry back.

## Layout

- `src/schema_file.rs`, `src/current.rs`: the schemas as the user describes them
- `src/commit.rs`: commits of the lock file and their check
- `src/previous.rs`: schemas assembled from materialized documents
- `src/relations.rs`, `src/graph.rs`: relations between schemas and their topological order
- `src/diff.rs`: differences between previous and current schemas
- `src/plan.rs`: the operations that a difference needs, and how plans run
- `src/steps.rs`, `src/executor.rs`: execution of plans, step by step
- `src/operation.rs`, `src/panda.rs`, `src/text.rs`, `src/error.rs`: plain values
- `src/bridge.rs`: calls into p2panda, with what is relied on about them
- `src/laws.rs`: laws of plans and of their execution
- `src/documents.rs`: documents that an execution writes, and the schemas read back from them
- `src/published.rs`: documents that publishing commits brings about, and the next update
- `app/`: the command itself, with its files and its store
