# kvstore

A key-value service over TCP with a length-prefixed binary protocol.

A request is one operation byte (1 = get, 2 = delete, 3 = set) followed by
its arguments; every argument, and every reply, is a 4-byte little-endian
length followed by that many bytes of UTF-8. Get replies with the stored
value, delete and set with the value the key had before; a missing value
replies with the empty string. Requests may be pipelined: replies come back
in the order of the requests.

Layout:

- `src/` is the verified library: framing (`wire`), request decoding and the
  per-connection buffer state (`connection`), and the server with its store
  and request handling (`server`), each with its contract and the
  protocol's laws (round trips, pipelining, reads split anywhere).
- `app/` is the program around it: argument parsing, the `poll` event loop
  over the sockets, and a blocking client (`--client`).
- `tests/` drives the library without sockets.
