# omni_track

Core logic of a GPS tracker for ESP32 boards, verified with Verus.

- `src/position.rs`: the 16-byte position record and its little-endian encoding.
- `src/file_path.rs`: names of the queue files (`/positions.<slot>.bin`), proved injective.
- `src/positions_queue.rs`: the rotating on-flash queue of positions: layout checks,
  restoring the bounds from the file sizes, the write plan for one record, and the
  index arithmetic of enqueueing (with the file rotation), with its laws.
- `src/line_by_line_iterator.rs`: assembles serial bytes into complete lines.
- `src/nmea_parser.rs`: the `nmea` parser behind a verified front: the sentences it
  was given, its satellite-view buffers, and the two kinds of sentence it would panic on.
- `src/gps_module.rs`: feeds the lines to the parser, one read step at a time, and
  decides when a burst of sentences has ended.
- `src/reconnect.rs`: paces the Wi-Fi reconnection attempts.

`app/` is a host driver around the library: it reads an NMEA stream from a file or
standard input, keeps the last fix, draws it on an in-memory screen and, when
`QUEUE_DIR` is set, stores it in the queue files. `app/esp.rs` holds the board's
Wi-Fi and HTTP services, built only for the ESP-IDF target.
