# trace_diagram

Turns the recorded traces of a protocol run into sequence diagrams in the
text format of sequencediagram.org.

Each process's trace is a list of records; the library builds a message tree
from it (`tree`), merges the trees of all processes into the order in which
messages are exchanged, following the channel mapping of the real or the
ideal world (`visit`), inserts branches into the simulator's tree where the
adversary is handed a value the simulator has to guess (`branches`), and
renders trees as diagram text (`tree`, `utils`).

Layout:

- `src/` — the verified library. Every public function has a contract over
  mathematical models (`Seq`, `Map`, `Set`), proved by Verus.
  - `strings.rs`: exact string replacement and comparison.
  - `strmap.rs`: `StrMap`, a string-keyed map that keeps insertion order.
  - `parser.rs`: trace records and the joining of a trace file's entries.
  - `tree.rs`: message trees, their rendering, and tree building.
  - `visit.rs`: the merge of all processes' trees, with its termination proof.
  - `branches.rs`, `report.rs`, `protocol.rs`, `utils.rs`: the remaining steps.
- `tests/` — tests of the library on concrete traces.
- `app/` — the program: reads the JSON files, runs the library, writes the
  diagrams.
