# wraithflow

A config-driven TCP proxy. Each pipeline binds a `listen` address, forwards every
byte to a `target` address, and can log the traffic both ways: as a hexdump, JSON,
decoded text, base64, or one line per packet.

- `src/` is the library, verified with Verus: buffers and packets, counters,
  filtering, redaction, the output formats, the control socket's protocol, the
  configuration's validation, and the dashboard's state and texts.
- `app/` is the program around it: sockets, files, the terminal. Called as
  `wf-tui`, it is the dashboard.
- `tests/` run the library on concrete traffic.

What the library takes from outside crates stands behind functions marked
`#[verifier::external_body]`, each with a comment that says what is relied on:
`base64`, `chrono`, `colored_json`, `cybercore` and `serde_json`, the last with
`preserve_order`, so that the fields of an object keep their order.
