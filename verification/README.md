# url_shortener

An in-memory key-value store with a small text protocol (`SET`, `GET`, `DEL`,
`EXISTS`, `KEYS`, `CLEAR`, `INFO`, `SETURL`, `SETTTL`), used as the store of a
URL shortener, with its behaviour stated in Verus contracts and proved.

- `src/text.rs`: Unicode white space, words of a line, unsigned decimal numbers.
- `src/command.rs`: the commands and how a line is read as one.
- `src/response.rs`: replies and their encoding as bytes.
- `src/storage/`: the store (values with optional expiry, kept in insertion
  order) and the short keys of URLs (BLAKE3 and URL-safe Base64).
- `src/handler.rs`: carrying out a command line on the store.
- `src/controller.rs`: shortening a URL and following a short key.
- `src/laws.rs`: properties of the store across commands.
- `app/`: the HTTP server (axum), its lock on the store and its cleanup thread.

Times are nanoseconds on the store's own monotonic clock; every operation
that depends on the time has a form that takes the time as an argument.
