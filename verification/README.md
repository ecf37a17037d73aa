# bifrostlink

A peer-to-peer RPC link. Nodes connect to each other over byte streams, forward messages for each
other, send notifications and requests, and hand out handles to resources whose cleanup runs when
the last holder lets go of them.

`src/` is the library: everything that a node decides, as functions from state and event to next
state and action, verified with Verus.

- `address`, `packet`, `error`, `notification`, `request`, `internal_handlers`, `event`: what nodes
  say to each other, and what happens to them.
- `message`, `port`: how messages are laid out on a byte stream, and cut out of it again.
- `route`: through which peers a node can be reached, and what peers are told when that changes.
- `peers`: what is kept per peer and request.
- `resource`: values with a cleanup that runs once, here or at the node that owns the resource.
- `node`: what a node is, as a mathematical value, and what each event makes of it.
- `rpc`: the state of a node and the code that handles events, proved against `node`.
- `laws`: what holds of nodes over several events, and of several nodes together.
- `syntax`: what the parser makes of source text, as plain values.
- `endpoints`: what is generated for the methods of an `impl` block that are endpoints.
- `config`, `declarative`: the types that a node is built from.

`tests/` runs the library, among other things as small networks of nodes. `app/` puts tokio tasks,
channels and serde around it.
