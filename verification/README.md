# mc173_server

The network layer and session book of a Minecraft beta 1.7.3 server, with its
decisions verified by Verus.

- `src/` is the verified library:
  - `error`: the network layer's errors;
  - `packet`: the traits that a protocol's packets implement;
  - `inflate`: zlib inflation, done by `flate2`;
  - `buffer`: a client's receive buffer and the framing of its bytes into
    packets, with the zlib fallback;
  - `net`: client handles, client tokens, the poll thread's decisions on poll
    events, the translation of thread events into network events, and the
    command thread's table of clients;
  - `server`: connected clients, their sessions (handshaking or playing in a
    player slot of a world), logins, departures, keep-alive and tick timing.
- `app/` holds the sockets, the poller, the threads and the channels
  (`mio`, `crossbeam-channel`), which call the library for every decision.
- `tests/` runs the library on concrete values.
