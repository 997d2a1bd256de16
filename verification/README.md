# dns_shared

A small DNS system (stub resolver, recursive resolver, authoritative name
servers) that exchange JSON-encoded packets over UDP.

- `src/` is the verified library (Verus): the packet type, dotted-decimal
  IPv4 addresses, the name server's configuration and answers, the recursive
  resolver's cache and iterative resolution, and the stub's queries, response
  reading, interactive commands and proxy routing. `src/laws.rs` holds the
  laws that tie the parts together.
- `app/` is the program around it: UDP and HTTP I/O, the JSON wire form of the
  packet (serde), reading configuration files, and the main loops.
  Run it as `dns dns_server <name>.json`, `dns recursive_resolver` or
  `dns stub_resolver [interactive] [proxy]`.
- `tests/` runs the library on concrete values.
