# linkdock

A self-hosted bookmark manager whose canonical data is an ordered XBEL tree,
served to [Floccus](https://floccus.org) over WebDAV and edited in a web UI.
Folders, bookmarks and separators share one ordered sibling list, so their
mixed order survives every round trip between devices.

What of that round trip the library proves:

- `stored_tree::lemma_stored_layout_reads_back`: an uploaded tree, laid
  out in document order with each node's parent and position (as
  `BookmarkService::plan_upload` does) and stored one row per node under
  distinct row ids, comes back from `build_tree`'s forest, with the rows read
  in `(position, id)` order, as the same tree.
- `xbel_read::lemma_written_document_reads_back`: the events that the
  document written for a forest consists of (its tags with their
  attributes, and its title and description texts), read by the parser's
  state machine, give back the title and every folder, bookmark and
  separator with its kind, external id, title, URL, description and
  children, in sibling order.
- `stored_tree::lemma_upload_round_trip` puts the two together: an upload in
  the shape that reading gives, stored and served again, reads back as the
  same document.

What is not proved is that quick-xml yields those events for the text the
writer produces; `parse_xbel` is exactly the state machine run over
quick-xml's events, and `tests/` runs whole round trips on examples.

The crate has two parts.

- `src/` is the library, written in Verus. Every function carries a
  contract and is proved against it: the XBEL reader (over quick-xml events)
  and writer, the document tree built from stored rows, stable external ids
  on upload, sibling reordering, the WebDAV resource model (paths, locks,
  staging files, `PUT`/`DELETE`/`MOVE` decisions), credentials, tokens and
  sessions, roles and scopes, imports (Netscape HTML, XBEL, Linkwarden JSON,
  CSV) and exports (HTML, XBEL, CSV, JSON), the collection tree and its
  descendant search, SMTP settings and their encrypted password, site
  metadata, search queries and paging, and the server settings.
  Calls into other crates (quick-xml, csv, serde_json, url, time, sha2,
  base64, hex, aes-gcm, rand, subtle, argon2, lettre, mime_guess) sit behind
  small trusted wrappers whose contracts say what the library relies on.
- `app/` is the server around it: reading the environment, the SQLite store,
  axum routes, SMTP delivery and static files. It makes the decisions of
  the library and carries out the resulting reads and writes.

`tests/` runs the library on concrete values, the laws among them.

What the server does not do:

- Passkey (WebAuthn) sign-in is not offered. The WebAuthn library needs
  OpenSSL, which this build does not have; the library keeps only the
  error answer that passkey routes give.
- The web app is served from `web/dist` on disk rather than embedded in the
  binary.
- The Linkwarden-compatible `/api/v1` routes and the link, collection,
  import and export routes are not served; their decisions are in the
  library.
