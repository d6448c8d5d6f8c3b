# phext_lattice

A verified library for phext documents: byte streams in which nine delimiter
bytes move a nine-dimensional coordinate forward. The library indexes such
documents, navigates their lattice of coordinates, edits scrolls through a
copy-on-write overlay with undo and redo, searches them, summarises them, and
speaks coordinates as syllables. Every function in `src/` carries a contract,
and Verus proves each one except the trusted items: the ten small
functions marked `#[verifier::external_body]` that hand a value to std or to
an outside crate (libphext's coordinate text and address reading, memmap2's
view of the mapped bytes, serde_json's member lookup, and std's UTF-8
decoding, lowercasing and string building), and the declarations of the
outside types `Mmap`, `PathBuf` and `TempPath`. Their contracts are believed,
not proved; each one's doc comment says what it claims.

## Layout

- `src/` — the library:
  - `coordinate`, `coordinate_ext` — coordinates, dimensions, delimiter moves
  - `index` — the coordinate → byte-span index built in one scan
  - `mmap` — a mapped document with its edit overlay and byte rebuilding
  - `navigator`, `cursor`, `editor`, `modes/vim`, `undo` — navigation,
    in-scroll cursor, the editor mode trait, the Vim mode, undo/redo and its
    work-phext form
  - `search`, `stats`, `sentron`, `uml6d`, `tts` — search, statistics,
    neighbourhood topology, lifecycle phases, pronunciation
  - `server`, `session` — what the web editors' requests and the terminal
    navigator's keys do, and what they show
  - `record_laws`, `serial_laws`, `work_laws`, `text_laws` — proofs that
    span functions: records, documents, undo histories and coordinate texts
    read back as written
  - `index_laws`, `search_laws` — the index holds exactly the runs between
    delimiters, and searching scrolls separately then joining the hits
    gives the serial search's hits
- `tests/` — tests run against the compiled library.
- `app/` — the programs around the library: file and network I/O, threads,
  terminal drawing, JSON, and the figures computed in floating point.
