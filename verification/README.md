# neutrino_ble

The verified core of the Bluetooth Low Energy federation medium of the embedded
neutrino homeserver, written in Rust and proved with Verus.

- `src/reliable/`: a sliding-window reliable channel over GATT. Contracts say
  exactly what each call makes of a channel; `delivery.rs` and `handover.rs`
  prove that datagrams arrive in order, whole and once, and that a handover to
  another pipe loses none.
- `src/pipe.rs`: the decisions of the per-peer data pipe.
- `src/discovery.rs`: the advertised payload and the set of discovered peers.
- `src/bootstrap.rs`: the Android bootstrap of the Bluetooth backend.
- `src/startup.rs`, `src/crypto/`: starting the server.
- `src/commit.rs`: the homeserver's commit, read from a lockfile.
- `app/`: the tasks, queues, clocks and platform calls around the library.
- `tests/`: tests of the library.

Two calls leave the library. That `core::str::from_utf8` decodes UTF-8 is
believed, not proved. Of the `rustls` call that installs the cryptography
provider of the process nothing is claimed; a token shows that it was made.
