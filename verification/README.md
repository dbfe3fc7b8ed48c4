# audioserve

The core of an audio-book server, written in Verus: every function in `src/`
carries a contract that the verifier proves, and the properties that span
functions are stated and proved as lemmas.

Layout:

- `src/` — the verified library.
  - `header_parser`, `forwarded` — the grammar of the `Forwarded` and
    `X-Forwarded-For` headers and their decoding.
  - `http`, `gzip_stream` — accepted encodings, query parameters, request
    paths, cross-origin checks, and a gzip stream produced chunk by chunk.
  - `tar`, `zip` — archives sent as streams: headers, blocks, sizes.
  - `file_cache` — the index of the file cache: entries in LRU order, limits,
    and the on-disk index format.
  - `audio_meta`, `chapters`, `chapter_files`, `media`, `playlist`,
    `folder_listing`, `folder_plan`, `folder_tags`, `collator` — how a folder of a
    collection is listed: file kinds, chapters, playlists, merged CD
    folders, ordering, tags, and the files offered for download.
  - `update`, `cache_paths`, `dirtree` — reacting to file-system events and
    searching folders.
  - `position`, `leaky`, `options`, `numbers`, `util` — listening positions,
    rate limiting, collection options, number parsing, paths.
- `tests/` — tests run against the compiled library.
- `app/` — what the library leaves to its caller: file and network I/O,
  threads, clocks, typed headers and JSON; every decision goes through the
  library.
