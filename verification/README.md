# wiremocket

Mocking of websocket servers for black-box testing, in the style of wiremock: register mocks
on a server, connect your client, then verify that each mock was called as often as expected.

## Layout

- `src/` is the library, verified with Verus:
  - `message.rs`: the websocket messages that matchers inspect;
  - `request.rs`: the headers and query parameters of an upgrade request. Headers stay in the
    `http::HeaderMap` that axum hands over, read through a few trusted calls (`get_all`,
    `contains_key`) whose contracts speak of what the map holds. Query parameters are held as
    name/value pairs with the invariant that no name occurs twice, which is what a map keyed by
    strings gives: vstd specifies `HashMap` only for keys whose hashing model it knows (integers
    and booleans), and a `String` key would need that model assumed;
  - `match_state.rs`: the message history that temporal matchers read and retain;
  - `matchers.rs`: the `Match` implementations provided out of the box (path, headers, query
    parameters, close frames, JSON payloads);
  - `mock.rs`: mocks and their builder, how the answers of a mock's matchers are classified,
    and the laws on the masks of satisfied matchers. Each matcher states the answers it gives
    through the spec functions of `Match` (`admits_request_answer` and the like), and a mock's
    outcome is stated over those answers, asked in order;
  - `session.rs`: the decisions taken on one connection: which mocks stay candidates after
    the upgrade request, which becomes active as messages arrive, when its responder starts,
    and whether the connection counts as a call;
  - `utils.rs`: `Times`, the expected number of calls.
- `app/` is the server around it: axum accepts the connections, tokio runs the responders,
  and the conversions between axum, tungstenite and the library's types live there.
- `tests/` exercises the library, including whole connections driven through `Session`.

A mock keeps its own call counter, so `verify` is exact over that count. The server keeps the
registered mocks and counts calls there; `MockServer::verify` and `MockServer::mocks_pass` read
those counts.
