# ts_runtime

The decision logic of a tailnet node's runtime, verified with Verus, and the tasks around it.

- `src/` is the library. It decides on plain values: which peers are stored under the tailnet lock
  (`peer_tracker`, `peer_db`, `tailnet_lock`, `rotation`, `endpoint_disco`), what is published of them
  (`publication`, `peer_laws`), how DNS queries are answered, forwarded and cut (`magic_dns`,
  `forward`, `dns_message`, `dns_names`), what peers may ask of this node (`peerapi`, `peerapi_doh`,
  `http`, `base64url`), which filter is in force (`packetfilter`, `overlay`), when relays connect
  (`multiderp`) and when the underlay is rebound (`netmon`).
- `tests/` runs the library on concrete values.
- `app/` holds sockets, streams, timers and tasks. Each loop hands the library what came in and
  carries out what it says.

DNS messages, packet filters, lock signatures and relay connections are the business of other crates;
the library takes what they make of the bytes as plain values.
