# uniplate

A tree of values (`Tree::Zero`, `Tree::One(x)`, `Tree::Many(subtrees)`) that can be
taken apart into the flat list of its values together with a function that puts a
list of values back into the same shape, and mapped over value by value.

- `src/model.rs`: the mathematical tree (`TreeModel`), its values, shape and size,
  and the predicates the contracts are written with.
- `src/tree.rs`: the executable `Tree`, with `list`, `map` and `clone`.
- `src/laws.rs`: properties of the operations taken together, proved for all trees
  (the list/rebuild round trips, mapping commutes with listing).
- `tests/`: concrete cases and property-based checks.
- `app/`: the same operations over `im::Vector` lists and shared `Arc` closures.
