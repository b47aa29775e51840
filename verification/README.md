# esp_idf_smtp

An SMTP client library for small devices, written in Verus: its contracts are
checked by the verifier.

- `src/config.rs`: connection settings (TLS mode, certificate checking, credentials).
- `src/email.rs`: addresses, the message builder, the header block and the
  dot-stuffed body, with the laws that BCC stays out of the headers, that
  the body can neither hold a bare line-feed nor end the data early, and
  that the body reads back off the wire.
- `src/response.rs`: reading server replies out of bytes, and the law that a
  written reply reads back.
- `src/protocol.rs`: EHLO capabilities, the choice of AUTH PLAIN or LOGIN, the
  session as a machine from stage and reply to stage and step, the engine
  `send_email` that runs it over a transport, stated exactly over what
  happens on the connection (`session`), and the session laws.
- `src/transport.rs`: the transport trait, whose contracts speak of what
  happens on the connection (writes, reads, TLS upgrades, in order);
  `src/mock_transport.rs`: a scripted transport for host tests that keeps
  that record, with `mock_replay` saying what the mock shows after any run
  over its script, so that a scripted session can be followed from the
  contracts.
- `src/text.rs`: string helpers (trimming, words, decimal numbers).
- `app/`: the ESP-IDF transport over sockets and `esp_tls`, and sending
  through `SmtpClient` over a new connection per email, built only for
  `target_os = "espidf"`; and the error type with `Display`.
