# casq_core

The part of a content-addressed file store that decides how files, directories
and standard input are added, written and proved in Verus.

The library does no input or output. `Store::add_path` and `Store::add_stdin`
start an operation. The operation makes one request at a time, such as "what
stands at this path" or "store these bytes", and goes on from the reply.

- `src/walk.rs`, `src/directory.rs`: the operations.
- `src/protocol.rs`: requests and replies.
- `src/tree.rs`, `src/order.rs`: tree entries, and their order in a tree.
- `src/path.rs`, `src/text.rs`, `src/metadata.rs`, `src/journal.rs`: paths,
  texts, file types and modes, and lines of the journal.
- `src/trace.rs`: whole operations, as the requests that they make and how they
  end.
- `src/run.rs`, `src/coverage.rs`: the operations do what their traces say, and
  the traces leave nothing out.
- `src/laws.rs`: what holds of every operation.
- `src/content.rs`: content alone decides under which hash it is stored.
- `src/recording.rs`: success, and nothing else, is recorded in the journal.
- `app/`: runs the operations against the file system and an object store.
- `tests/`: runs them against files and a store in memory.
