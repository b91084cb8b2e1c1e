# brain

`brain` is a single-user web app that saves voice-created markdown ideas into project
folders. This crate holds its rules as a library verified with Verus, and the web server
and command line around it.

## Layout

- `src/` — the verified library:
  - `text.rs`: the character-level model of text (Unicode whitespace, `trim`, `lines`,
    substring search, joining) with executable counterparts.
  - `markdown.rs`: what an idea is (`validate_markdown`), and how an imported document or
    bulk export is split into ideas (`split_import_markdown`), with the laws that imported
    ideas are valid and that ideas written one after another import back as themselves
    (ideas without a header line after their title: an import refuses `##` sections).
  - `export.rs`: the bulk export format (ideas under `<!-- project: ... -->` comment lines,
    separated by `---`), with the laws that an export, or ideas separated by a blank line
    or a `---` line, are imported back as their ideas (again for ideas without a header line
    after their title).
  - `stored.rs`: the stored idea file (metadata block and markdown), its reading back
    (`parse_stored_idea`), file names and slugs, and the preparation of a save, with the
    law that a saved idea is read back as it was saved.
  - `rank.rs`: the listing order (score, then newest, then title; stable).
  - `search.rs`: query filtering and ordering, keywords of a spoken text, related ideas.
  - `session.rs`: signed session tokens, session cookies and the login decision.
  - `admin.rs`: project names, settings, confirmations, credentials and the command line.
- `app/main.rs` — the HTTP server (axum), the SQLite store of settings and failed logins,
  the files of projects and ideas, and the command line; every rule it applies is a call
  into the library.
- `tests/` — tests of the library on concrete values.

The pages (`index.html`, `login.html`, `app.css`, `app.js`) are served from a `static`
directory in the working directory.
