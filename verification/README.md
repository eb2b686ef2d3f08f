# netconf_language_server

A language server for YANG modules and NETCONF instance documents (XML
envelopes and payloads, RFC 7951 JSON), with its logic written in Verus and
proved against its contracts.

- `src/` is the verified library: instance-document parsing, classification
  and tolerant repair, schema mapping and leaf value checks, YANG goto, hover,
  references, rename, completion, formatting, folding and semantic tokens,
  position conversion, and the workspace file index. Calls into yrepo,
  tree-sitter, regex, serde_json and std that have no specification of their
  own go through small trusted items, each with a doc comment saying what it
  claims of the outside function.
- `tests/` runs the library with the real outside crates linked.
- `app/` is the server around the library: the LSP plumbing of
  tower-lsp-server, the disk walk, and the conversion of yrepo's compiled
  library into the library's plain schema model.
