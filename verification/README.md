# rados

A client library for Ceph's object store, written and verified with Verus.

`src/` holds what the client decides and computes:

- `wire`, `text`, `sorting`, `types`, `maps`, `random`: encoding, decoding, numbers and names;
- `protocol`: addresses of daemons;
- `msgr`: banners, frames (with checksums or sealed), control payloads, messages, and the session
  as a state machine, with a supervisor and a driver that turn its effects into actions;
- `mon`: messages of monitors, the resolution and ordering of seeds, and the monitor client;
- `osd`: operations, replies, backoffs, locks, listings, watches, commands, and the plans by which
  requests are sent, sent again and ended;
- `operation`: builders of compound operations.

Each function states what it returns or changes, and Verus proves it. What holds across functions
stands in proof functions whose names start with `law_`: that what was encoded reads back, that each
request ends once, that nonces are never reused, and so on. Functions of other crates are called
through a few trusted wrappers: AES-128-GCM in `msgr::secure`, the system's random source in
`random`, and two conversions of strings in `text` and `wire`.

`app/` performs the actions: sockets, timers, name lookups and tasks. It reads cluster maps and
authenticates through traits that its users implement.

`tests/` runs the library on given values.
