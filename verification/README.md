# nexmud

The core of a MUD client, verified with Verus.

`src/` is the library. Every function in it carries a contract; Verus proves
all of them except those of the few trusted wrappers around `encoding_rs`,
`regex`, `flate2` and std (marked `#[verifier::external_body]`, each with a
doc comment saying what is claimed of the outside call):

- `protocol`: the telnet scanner of the world daemon (RFC 854 commands,
  option negotiation, GMCP extraction, MXP link rendering, MCCP v2
  decompression) and the refusing scanner of the daemon's read loop.
- `inflate`: the MCCP v2 inflater, one zlib stream across all chunks.
- `engine`: the trigger and alias engine (ten-line sliding window,
  priority selection, `script:` responses) over name-keyed tables.
- `sandbox`: world and per-plugin variable stores.
- `bindings`, `lifecycle`, `service`: what the script API, the VM start-up
  and the command path (`route_command`) decide.
- `broker`: tab ports and daemon process ids of the broker.
- `converter`, `plugin`: conversion of MUSHclient XML plugins to Lua.
- `codec`, `pattern`, `text`: GBK / UTF-8, regular expressions (through the
  `encoding_rs` and `regex` crates) and the string operations the rest uses.

Laws that span several calls stand as public proof functions named `law_*`.

`app/` is the program around the library: the world daemon (Tokio, mlua),
the broker, the plugin converter tool and the mock servers. `tests/` runs
the library on concrete inputs.
