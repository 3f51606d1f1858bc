# review_search

The verified core of a review search service. Reviews are appended to a
JSON-lines file; an offsets table (kept in memory and mirrored in a file of
little-endian `u64`s) maps each review id to the line that holds it. A native
vector index stores one embedding per review.

- `src/` — the library, verified with Verus:
  - `text` — Unicode white space, blank-field validation, decimal rendering.
  - `codec` — the offsets file format, with its round-trip laws.
  - `lines` — record framing, reading a line back, rebuilding offsets by
    scanning the file, and the laws relating them.
  - `store` — `ReviewMeta`, `StoreError` and the offset table
    (`MetadataStore`): open, append, get, and the read-after-write laws.
  - `index` — status codes and errors of the native index.
  - `reviews` — the insert steps, single and bulk responses, search choices.
  - `feedback` — the decisions of the web pages (status texts, Top K input).
- `app/` — the HTTP server: files and locks, serde, axum handlers, and the FFI
  bindings to the native index, and the browser pages (leptos).
- `tests/` — tests of the library on concrete values.
