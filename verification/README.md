# blkstrm

Ingestion of ordered items (block heights) from several providers.

- `src/` is the verified library (Verus):
  - `ingestion/sequencer.rs`: the sequencer that turns a merged feed into a
    strictly increasing stream without repeats (`accept` / `commit` per item,
    `sequence` for a batch), with the
    laws about the stream it produces;
  - `ingestion/provider.rs`: provider states, the reaction of a provider to
    each event of its stream, and the monitor's verdict on all providers;
  - `util.rs`: time-stamped values and checks for sorted / repeat-free
    sequences.
- `app/` is the asynchronous plumbing (tokio channels, locks, tasks) that
  drives the library: provider tasks, the sequencer's consuming loop, the
  dispatcher, the monitor loop and a demonstration testbench.
- `tests/` exercises the library on concrete feeds.
