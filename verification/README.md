# standing_relations

Standing relations over a shifting dataset, verified with Verus.

A context holds inputs and relations computed from them (maps, filters,
concatenations, joins, antijoins, reductions, triangle queries, saved and
split relations). Changes sent to inputs are committed, and outputs pull
what changed through the graph of relations when they are read. Feedback
operators send what an output reads back into an input until nothing
changes, optionally in order of a key, or stop a commit with an interrupt.

Elements are values of `Datum`: units, booleans, integers, characters,
pairs, triples and options; a string is written with `Datum::text`. The
functions a caller gives to `map`, `filter`, `flat_map`, `map_counts`,
`reduce` and `interrupt` are functions of their arguments alone (each trait
names its function with a `spec_` method).

## Layout

- `src/datum.rs`, `src/count.rs`, `src/counts.rs`: values, changes with
  counts, and collections of counts.
- `src/join.rs`, `src/antijoin.rs`, `src/reduce.rs`, `src/triangles.rs`,
  `src/fns.rs`, `src/value_map.rs`: the operators, each as a state that turns
  changes of its inputs into changes of its result.
- `src/pipes.rs`, `src/dirty.rs`, `src/rc_collection.rs`,
  `src/handler_queue.rs`, `src/tracking.rs`: buffers, dirty flags, the queue
  of inputs to commit, and the names and kinds of relations for display.
- `src/graph.rs`: the nodes of a context and how a node is pulled. Its
  invariant says that every node has emitted what its operator makes of
  what its operands emitted.
- `src/relation.rs`, `src/context.rs`, `src/output.rs`, `src/saved.rs`:
  relations as descriptions, contexts that turn them into nodes, outputs
  and saved relations.
- `src/count_map.rs`, `src/ordered_pipe.rs`, `src/feedback.rs`,
  `src/execution.rs`: what outputs keep, feedback, and the creation and
  execution contexts.
- `src/laws.rs`: properties that relate several operations, among them
  that a read gives back what commits wrote: an output starts ready
  (`ready_at` in `src/output.rs`), commits, sends and reads of other
  outputs keep it ready, and reading a ready output leaves every input its
  relation reads (not through saved or split relations) fully emitted.
- `app/lib.rs`: writing the relations of a context as a Graphviz graph.
- `tests/`: tests of the library.
