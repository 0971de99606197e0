# heriheri

A personal cloud drive kept on top of the Lanzou cloud. The cloud only
stores flat files in folders; heriheri keeps its own tree of files and
folders (the virtual file system), stores large files as encrypted-name
chunks, shares files through sealed share codes, streams media to players
and WebDAV clients, and keeps the tree in step across devices.

The library in `src/` is written in Verus and verified: every function
carries a contract, and the properties that span functions (merging trees,
round trips of the codecs, the recycle bin, the sandbox of the agent
protocol) are stated and proved as lemmas.

## Layout

- `src/` — the verified library.
  - `text`, `order`: characters, decimal text, string order.
  - `vfs`, `tsv`, `nav`, `recycle`: the tree, its text form, paths and
    searches, the recycle bin.
  - `crypto`, `chunks`, `share`: sealed payloads, chunk names, share codes.
  - `transfer`, `sync`, `cloud`, `pages`, `waf`: uploads and downloads, the
    synchronisation of the tree, the cloud's forms and pages.
  - `stream`, `proxy`, `dav`: the streaming proxy's cache and decisions,
    the WebDAV mount.
  - `agent`: the sandboxed agent protocol.
  - `player`: the native player's session and decoder watcher.
  - `external`: the calls into other crates, each with the contract it is
    trusted with.
- `tests/` — tests of the library on concrete values.
- `app/` — the command line around the library: HTTP requests, files,
  the server and the agent protocol over standard input.
