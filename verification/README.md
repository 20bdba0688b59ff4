# veilid-vc

A latency harness for Veilid's `app_message`, a file transfer over the same
private routes, and a small social node — with the decisions in `src/` proved
against their contracts in Verus.

    cargo run --release -- listen
    cargo run --release -- probe --connect <blob>

    cargo run --release -- recv --out ./inbox
    cargo run --release -- send --rendezvous <dht-key> photo.jpg

    cargo run --release -- serve

## Layout

`src/` is the library. Nothing in it touches a socket, a file or the DHT; it
works on plain values.

| Module | What it settles |
|---|---|
| `proto`, `bytes`, `crc` | The wire format of both protocols, and CRC-32. |
| `stats`, `report` | Samples, jitter differences, sequence bookkeeping, and the reports. |
| `roles` | The two ends of the measurement. |
| `incoming`, `transfer`, `pool`, `receiver` | The receiving end: reassembly, answers, the route pool, and all of it together. |
| `sender` | The sending end: plans, passes, failover. |
| `names`, `receipts` | Safe file names, and what is printed about a transfer. |
| `social`, `node`, `web`, `blob`, `keys` | The wall, the node that serves it, and the page's requests. |
| `startup`, `clock`, `text`, `counting` | What the rest stands on. |
| `foreign` | What is taken on trust of the standard library, `data_encoding`, `serde_json` and `veilid_core`. |

The promises that span functions stand as public proof functions whose names
begin with `law_`: what is decoded is what was encoded, a file gets across whole
in whatever order its chunks arrive, nothing already delivered is sent twice, a
hostile name stays inside the output directory, the round trip does not depend on
the two clocks agreeing.

`tests/` runs the library. `app/` is the program around it: arguments, the Veilid
node, sockets, files, the terminal, and the figures with a decimal point.

## Building

`Cargo.toml` asks `veilid-core` for its `mock-api` feature, which keeps the API
and leaves the network stack out. Drop that feature, and add back the default
ones, for a node that goes online.
