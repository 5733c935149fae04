# zenoh_resource

The resource tree of a zenoh router's routing tables, as a Verus-verified
library.

- `src/` is the library. `tree` holds the arena of resources and its
  well-formedness invariant; `resource` makes and finds resources by key
  expression; `matching` searches the tree chunk by chunk for the resources
  a key expression meets, as the spec `matches_from` states it (validity and
  intersection of single chunks come from `zenoh-keyexpr`, through
  `keyexpr`); `declare` names keys towards a face; `register`
  handles the expression ids and interests a face declares and takes back;
  `cleanup` unlinks resources nothing holds and closes a tree; `access`
  reads routes and caches and renders resources as text; `laws` states and
  proves properties that span operations.
- `tests/` exercises the library with the real `zenoh-keyexpr` linked.
- `app/` converts to and from `zenoh-protocol` types and renders route
  tables through `Debug`.
