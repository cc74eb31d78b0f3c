# trmnl

A server for TRMNL e-ink displays. The display polls the server, fetches a 1-bit BMP
rendered from a terminal-style layout (date, the top `@home` tasks of `~/todo.txt`,
the weather), and authenticates with an API key issued on first contact.

The library under `src/` is written in Verus and proved against its contracts:

- `bmp_encoder`: 1-bit BMP images (headers, palette, padded bottom-up rows, pixel
  drawing), with the file layout stated byte for byte.
- `render`: the drawing surface, logical pixels drawn as `scale` x `scale` blocks.
- `api_key`: token text (`TRM`, `V`, version, base32 of key id and secret), its
  parsing, and the SHA3-512 hash that checks a presented token.
- `extractor`: the decisions on a request's device id, access token and stored key.
- `display`: the answer to a display's poll.
- `todos`, `text`, `weather`: which tasks are shown and how, and the layout of the
  weather report.
- `typed_bytes`: byte-string keys of the key-value store and their order.
- `crypto`, `le`: the calls into outside crates (SHA3, base32, constant-time
  comparison, UUIDs, random bytes, little-endian integers).

`app/` is the program around it: the HTTP routes, the key-value store, the terminal
backend, the weather poller, and the fractal image endpoint. `tests/` exercises the
library.
