# stargate

The decisions of a federated GraphQL gateway, verified with Verus: reading
the services of a federated schema, and running a query plan against them.

- `src/json.rs`, `src/merge.rs`: JSON values and JSON merge patch.
- `src/path.rs`: taking values out of the results at a response path, and
  merging fetched data back there.
- `src/selection.rs`: applying a selection set to a value.
- `src/fetch.rs`: what a fetch sends (the representations of the entities it
  needs) and how its answer is merged into the results.
- `src/services.rs`, `src/gateway.rs`: the services named by the `graph`
  directives of the schema definition.
- `src/plan.rs`: query plans.
- `src/semantics.rs`: what running a plan without parallel branches
  computes, node by node.
- `src/machine.rs`: the state of a plan being run, as values, and what
  starting it and handing back each answer do to it.
- `src/executor.rs`: running a plan as a state machine that asks for fetches
  and takes their answers back, proved to do what `src/machine.rs` says.
- `src/laws.rs`: properties that relate several of the above.

`app/` holds the HTTP server: it parses requests, plans them, sends the
fetches that the executor asks for and hands the answers back.
