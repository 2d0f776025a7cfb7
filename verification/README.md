# gmod-gabp

A Garry's Mod module that serves GABP (the game-agent bridge protocol) to
GABS over TCP, with its core written in Verus.

- `src/` is the verified library:
  - `gabp/frame.rs`: `Content-Length` framing of messages, the incremental
    frame decoder, and the laws of the framing (a frame decodes to its body,
    splitting the stream into pieces changes nothing, bodies respect the limit).
  - `gabp/json.rs`: JSON values and their mathematical view; parsing and
    printing are `serde_json`'s.
  - `gabp/envelope.rs`: GABP requests, responses and error objects.
  - `gabp/registry.rs`: tool-name rules, the tool registry (kept in name
    order), and the call queue with its completions.
  - `gabp/lua_bridge.rs`: tool descriptors and pending calls as the Lua side
    exchanges them.
  - `gabp/runtime.rs`: configuration, the request dispatcher and the
    operations the Lua side calls.
  - `gabp/text.rs`, `gabp/keyed.rs`: characters and numbers, and maps kept
    as vectors.
- `app/` is the module itself: Lua entry points, the process-wide runtime,
  the TCP listener, waiting for completions, and the serde forms of the
  envelope.
