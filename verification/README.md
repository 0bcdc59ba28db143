# miktik_api

A monitoring client for MikroTik routers: it logs in to each router over the
RouterOS API, runs the commands of `config/commands.json` on every scrape, and
serves the results to Prometheus on `/metrics`.

## Layout

- `src/` — the verified library (Verus):
  - `encoding.rs` — the length-prefixed encoding of API words and sentences;
  - `decoding.rs` — the decoding of reply bytes into text, the end-of-reply
    test, and the proof that a written sentence reads back as it was written
    (for words that are not empty, shorter than 2^32 bytes and do not start
    with a control byte; a word starting with `=` reads back on a line of its
    own without the `=`);
  - `response.rs` — the parsing of reply text into metric records;
  - `metrics.rs` — the records gathered per metric name;
  - `formatter.rs` — the Prometheus exposition lines of the records;
  - `teller.rs` — request routing, `${name.attribute}` references in command
    words, the connection status lines (`miktik__connection__status__{routerboard_name="..."}`), reconnection bookkeeping;
  - `session.rs` — the state of one connection, the login exchange, the
    error type;
  - `config.rs` — the configuration types;
  - `text.rs` — character-level text operations and their specifications.
- `app/` — the program: sockets, TLS, the HTTP server, the terminal, and the
  JSON configuration files.
- `tests/` — tests of the library on concrete values.
