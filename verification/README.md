# llm_wiki_server

The core of a small local file server for a Markdown research wiki: it keeps
every request inside one data directory, lists directories as trees, lays out
new wiki projects, stores web clips and uploads under collision-free names,
and serves files and the bundled web front end.

- `src/` is the library, written in Verus. Each public function carries a
  contract, and the properties that span several functions are stated as
  proof functions (`lemma_*`). Path arithmetic (`path.rs`) follows the meaning
  the standard library gives Unix paths; the other modules build on it.
  Outside crates (chrono, uuid, mime_guess, urlencoding, axum's `Method`) are
  reached through small trusted wrappers whose doc comments say what is
  assumed of them.
- `app/` is the HTTP server around the library: routing, file and network
  I/O and JSON. It hands the library plain values
  and acts on the plans and answers it gets back.
- `tests/` runs the library on concrete values, and compares the path model
  with `std::path` on many samples.
