# pithy

The logic of Pithy, a markdown notes app, as a verified library, with the desktop app around it.

- `src/` — the library, verified with Verus:
  - `config.rs`: defaults, and how a parsed config file becomes the settings the app runs with
    (tilde expansion, the absolute-vault rule, font-size clamping, theme modes and theme files,
    warnings).
  - `fs.rs`: vault paths, note and image file names, wikilinks (finding, matching, rewriting on
    rename), image-copy names and checks, note listing.
  - `paths.rs`: `/`-separated paths in the sense of `std::path::Path`.
  - `text.rs`: strings as character sequences, trimming, ordering, sorting.
  - `menu.rs`: what the app's own menu items do.
  - `search/`: tag extraction, which file events reach the index, how the index worker
    coalesces changes, how the index is opened, how queries are read and hits assembled.
- `tests/` — tests of the library.
- `app/` — the Tauri app: commands, file and index I/O, the worker and watcher tasks.
