# fastwarc

Reading and writing WARC records, and the message model of a streaming WARC
parse service, as a Verus-verified library.

## Layout

- `src/` — the verified library.
  - `bytes`, `header`, `case_key`, `codec`: the ordered, case-insensitive
    header map, its parsing from and writing to bytes, and the text codecs of
    header values. `header_laws` holds the laws that relate these operations.
  - `record_type`, `record`, `stream_io`, `digest`, `ids`: WARC records over
    an in-memory stream (header parsing, quirks mode, HTTP header parsing,
    block and payload digests, writing with checksums). `record_laws` proves
    that a written record reads back as it was written and that the
    checksums written verify when it is read back, that freezing is
    idempotent and that `from_reader` is attaching and parsing.
  - `gzip`: detection of gzip input, decompression of every member in turn
    and compression into one member, each member through one call into
    `zlib-rs`. Where a member cannot be decompressed, the records of the
    members before it are parsed and then a non-recoverable error ends the
    stream.
  - `proto`, `convert`, `service`, `batch`, `channel_reader`, `transport`,
    `bench`: the message model of the parse service, the conversion of
    records into it, the parse pipeline with its event-stream invariant,
    request-stream handling, batching, the reader over received chunks and
    transport settings.
  - `dom_tokens`, `char_data`, `html`: plain-value parts of the HTML DOM API
    (class token lists, character data edits, errors and small helpers).
- `tests/` — executable tests of the library.
- `app/` — a command-line front end that reads an archive file (plain or
  gzip-compressed) and prints what the parse service returns for it, and
  `std::io` gzip streams over the library's `gzip` module.

The parse service honours `max_header_len` (32 KiB when unset) for WARC
header blocks (a framing error) and HTTP header blocks (a recoverable error),
and refuses `decode_http_payload`: payloads are streamed as stored.

Calls into outside crates (hashes, base32/hex, Windows-1252 and encoding
labels, gzip, random bytes and UUID text, the clock and date text) each sit behind one small trusted function whose contract states what
the crate's documentation promises.
