# cliproam

The core of ClipRoam, a clipboard history that roams between devices, as a
verified library. Every function in `src/` but the clock reading
(`now_millis`, of which nothing can be promised) carries a contract that
Verus proves; the few calls into other crates (sha2, url, chrono, image,
base64) and into the clock go through small trusted wrappers whose contracts
say what they rely on.

## Layout

- `src/` — the library.
  - `tree`, `edit`, `entry` — the nested file map of a `files` entry, the
    contents it references, resolved content ids, summaries and light list
    copies.
  - `hashing`, `identity` — content ids, entry ids, rich-text and file-set
    identities.
  - `capture`, `metadata` — which clipboard changes are new, what a capture
    records, and the history metadata rows.
  - `downloads`, `retry`, `save`, `descriptor` — the download scheduler, one
    transfer's loop and part-file checks, save-to-disk sessions, and pasted
    virtual files.
  - `packing` — bounded packs of many small contents.
  - `manifest`, `sql`, `pending`, `remote` — history queries and pages, SQL
    text, the upload queue's ids, and entries arriving from the server.
  - `paths`, `glob`, `geometry`, `config`, `misc`, `text` — cache layout and
    names, exclusion patterns, window placement, account settings, smaller
    rules, and the character-level helpers underneath.
- `tests/` — tests of the library on concrete values.
- `app/` — the I/O around it: the SQLite history database and upload queue,
  walks over copied files, part files of downloads, settings files, and the
  JSON forms of the library's types.
