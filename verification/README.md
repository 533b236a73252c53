# incidence_core

A verified library for assembling model artifacts: immutable, content-addressed values that
bind a topology, a substance registry, initial stocks, forcings, interpolation tables,
projections, rules and their execution bindings into one canonical byte encoding and its
SHA-256 digest, taken over the canonical V1 bytes alone.

- `src/` is the library, checked by Verus. Every public function states its result in its
  contract. The laws of the library are public proof functions: canonical identity, and
  whether a builder builds at all, do not depend on the order in which forcings, tables, rules
  and units were authored; rules, forcings, tables, units, substances, bindings, carrier
  mappings and parameters are held in canonical order; the execution graph is acyclic exactly
  when an execution order exists; content determines identity, and content is read back from
  the canonical bytes, so a changed quantum, carrier mapping or parameter changes the identity;
  substitutions that are empty, reordered or undone succeed and leave the identity as it was;
  the archive only ever adds entries.
- `tests/` runs the library on concrete models.
- `app/` holds what the verified library does not: error values with their display messages
  and the binary64 arithmetic that classifies initial stock amounts against their quanta.
