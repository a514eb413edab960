# http_proxy

HTTP requests over a message connection. A client that cannot reach the HTTP API itself packs a
request into a rendezvous message (field 27) and gets the answer in another (field 28).

- `src/` is the library, verified with Verus: the wire format, the two messages, the rules on what
  is forwarded, and the decisions before a request is sent and after it was answered. `src/laws.rs`
  holds what is proved of these together: that what is written reads back, that other messages are
  left alone, and that only what the rules allow is forwarded.
- `app/` sends the requests over HTTP.
- `tests/` runs the library on concrete values.
