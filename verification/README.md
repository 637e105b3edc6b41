# tripatch

Translation patcher and toolkit for the AZSys engine's `script.arc` archives
(Triptych, 2014 Download Edition).

- `src/` is the verified library:
  - `asb` parses decrypted ASB scripts into records, reads and replaces the
    CP932 strings of text records, and reassembles scripts with their jump
    targets relocated;
  - `lzss` unpacks and packs the archive index;
  - `azsys` encrypts and decrypts ASB containers and loads and saves ARC
    archives;
  - `patch` extracts the translatable text of an archive into a document and
    builds an archive from a translated document;
  - `text`, `bytes`, `error` hold the shared helpers; `zlib` holds the calls
    into flate2.
- `app/` is the command-line and dialog front end: argument parsing, JSON
  reading and writing, file access and the backup-aware install flow.
- `tests/` exercises the library on hand-built scripts and archives.
