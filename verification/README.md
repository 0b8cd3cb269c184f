# needle

Whole-machine file search for AI agents on Windows / NTFS. The library in `src/` is
written and proved in Verus; `app/` is the program around it: the command line, the
calls into Windows, the sockets and the service.

- `text`, `utf16`: strings as sequences of characters.
- `usn`, `journal`, `enumerate`, `watch`: the replies of the NTFS control codes, how an
  index is built from them and kept up to date.
- `mft`, `buckets`, `index_laws`: the index of a volume, its inverted index by
  extension, and what holds of them.
- `glob`, `gitignore`, `search`, `search_laws`: one query against one index, and what
  holds of its answers.
- `engine`, `machine`, `volume`: the indices of several drives, and queries of the whole
  machine.
- `json`, `mcp`, `ipc`, `report`, `service`: what is said to clients, to the daemon and
  on the terminal.

Globs are compiled by `globset`, ignore rules by `ignore`, and JSON is read by
`serde_json`. The functions that call them say in their doc comments what is taken from
those crates on trust.

A pattern whose alternatives are nested deeper than 250 is refused. Of a `.gitignore`
file, lines with a backslash next to a `**`, and lines with more than 250 `{`, are passed
over; all others apply.
