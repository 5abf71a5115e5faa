# aurora_hak_explorer

Reading, editing and writing BioWare Aurora ERF archives (HAK, ERF, MOD and
SAV files), with the rules of the format, as this library reads and writes
them, proved in Verus.

- `src/` is the verified library:
  - `archive` — the archive model (kinds, versions, entries, descriptions),
    resource-name rules, adding and merging resources;
  - `erf` — reading an archive's index from the bytes of its file, and
    `index_region` — proof that reading looks only at that index;
  - `erf_write` — laying out the index of an archive to be written, and
    `round_trip` — proof that what is written reads back as written;
  - `order` — the order of entries (lower-cased name, then type): a stable
    merge sort proved equal to the stable insertion order that specifies it;
  - `build_date`, `resource_types`, `le`, `text` — the pieces these rest on;
  - `forward` — the message that hands paths to a running window;
  - `drag`, `xdnd` — outgoing drags: the `text/uri-list` offered and the
    decisions of an XDND drag source;
  - `save_file` — names of the temporary files a save leaves behind.
- `app/` is the desktop side around it: file I/O, the single-instance
  socket, the KDE D-Bus extraction endpoint and the X11 connection.
- `tests/` exercises the library on concrete values.
