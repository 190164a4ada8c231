# promtuz

The decision logic of the Promtuz relay, resolver and client library,
written in Verus and proved against its contracts.

- `src/` — the verified library. Kademlia routing (`routing`, `bytes`,
  `rank`), the relay's stores and their expiry rules (`storage`, `replica`,
  `queue`), presence (`presence`), the client handshake (`handshake`,
  `dial`), DHT request handling and fan-out (`dht_server`, `dht_client`,
  `fanout`, `replication`), resolver admission and bootstrap answers
  (`resolver`), certificates (`cert`), file transfer framing and
  bookkeeping (`transfer`), sticker packs (`stickers`), push registration
  (`push`), TURN credentials (`turn_auth`). Calls into `blake3`,
  `ed25519-dalek`, `chacha20poly1305`, `ring`, `base64`, `turn` and `quinn` go
  through a few small trusted wrappers whose contracts are stated next to
  them.
- `app/` — I/O around the library: the relay's fjall store with its
  group-commit and sweep thread, the control socket, the transfers
  database and frames on QUIC streams, sticker downloads, encoding and the
  image cache, the resolver's command line and configuration files, the
  seed dialer, the DHT connection-pool dial, the TURN authentication
  callback, and the push-registration loop. The relay's and resolver's connection handlers are not here.
- `tests/` — tests of the library on concrete values.
