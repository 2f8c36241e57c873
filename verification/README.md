# runtime

The decisions of a JavaScript runtime for Windows, verified with Verus.

- `src/` is the library: plain data, functions on it with exact contracts, and the laws that hold of
  them (`law_*`). The engine, the operating system and the network appear in it as reports that come
  in and actions that go out.
  - `loader/` loads ES modules from a dev server: the configured vocabulary, canonical keys, the
    import map, the security gate, fetching, invalidation.
  - `transform` turns a module into a function that a module runner calls.
  - `winhttp` and `websocket` are the transports' state machines.
  - `metadata`, `class_helpers`, `overloads` and `host_object` answer questions about WinRT classes;
    `delegate`, `ffi` and `wrapper_cache` are about calls and object lifetimes.
  - `window`, `crash_reporter`, `sampler`, `bundle` and `host_abi` belong to the host.
  - `test_server` is a server to try a loader and a socket against.
  - `text`, `order`, `json`, `text_map` and `text_set` are what the rest is written in.
- `tests/` runs the library on concrete values.
- `app/` is the host around it: Node-API bindings, the Windows API, threads and sockets.
