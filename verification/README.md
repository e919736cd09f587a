# resolvd

A stub resolver: one engine behind three doors (the native socket, a DNS
listener on the loopback, and the C library's host lookups), proved with
Verus.

- `src/` is the resolver. Nothing in it touches a socket or a clock: each
  operation is a function of what it is given, and its contract says what it
  returns and how it changes what it holds.
  - `dns`, `msgpack`, `protocol`: the wire formats, each with its round trips.
  - `cache`, `engine`: the answer to a question, from static names, the
    cache and upstream servers. `engine::laws` states how names are routed,
    retried, cached and refused; `engine::soundness` and `engine::script` that
    every question is answered exactly once; `engine::caching` how long a reply
    answers; `engine::honesty` that what is told fits what was found.
  - `stub`, `control`, `upstream`, `stream`: connections, as the bytes they
    carry.
  - `service`: the doors and the engine together.
  - `config`, `rejects`, `snapshot`: settings, what is malformed in them, and the
    state of the network.
  - `nss`, `cli`, `probe`, `render`: what callers are shown.
- `app/` opens the sockets, reads the registry and runs the loop.
- `tests/` runs the library on concrete values.

What is taken on trust is what a few functions of the standard library do; the
comment above each says what is claimed of it.
