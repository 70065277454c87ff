# supermd

The verified core of a Markdown editor, written in Verus.

- `src/` is the library. Every function in it carries a `requires`/`ensures`
  contract that Verus proves:
  - `text`: UTF-8 helpers.
  - `editor`: the buffer, editing with undo and redo, cursor movement, find and
    replace, lists, formatting toggles, the hybrid display mapping, block
    discovery, the document projection, autosave and backups, UTF-16 offsets.
  - `commands`: the command table, menus and shortcut docs.
  - `base16`: the theme importer.
  - `bookmarks`, `catalog`, `diagram`, `diff`.
- Calls into outside crates (ropey, unicode-segmentation, similar, sha2, zip,
  serde_json, pulldown-cmark, merman) go through small trusted wrappers. Each
  wrapper's doc comment says what its contract claims of the outside code.
- `app/` is the unverified shell: file I/O, network fetches, serde and floating
  point colour maths.
- `tests/` holds the tests.
