# nyaland

The logic of a torrent search-and-download desktop app and of its Android build helper,
written in Verus and proved against its contracts.

- `src/` is the verified library:
  - `text`: character-level helpers (search, UTF-8 length, equality ignoring ASCII case,
    trimming white space);
  - `magnet`: info-hash, trackers and display name of a magnet link, FNV-1a, hex keys;
  - `history`: the download history and its laws;
  - `session`: the table of downloads and the decisions taken when a download is added,
    reported on by the engine, paused, resumed or removed; its laws;
  - `order`: string order and sorting;
  - `media`: file extensions, media extensions, MIME types, content URIs, sorted media
    listings;
  - `search`: reading search options from a loosely typed request;
  - `settings`, `state`: records;
  - `android`: the build helper's decisions (build environment, arguments, package paths,
    signing names and commands, build-tools selection, `adb devices` parsing).
- `app/` is ordinary Rust: the `nyahub` command line, disk storage with serde, and the
  torrent engine (librqbit) driven by the library.
- `tests/` run the library on concrete values.
