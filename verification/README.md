# codeio

CodeIO's core as a verified Rust library: every function under `src/` carries a
`requires`/`ensures` contract that Verus proves.

- `lexer`, `parser`, `messages`, `toklabel`: the CodeIO v0 front end, specified by
  grammar functions over characters and tokens.
- `ir`, `lower`, `values`, `digest`: the content-addressed IR graph (node ids are SHA-256
  digests), lowering from the syntax tree, and the value library with its backends.
- `selector`, `router`, `route_index`: selectors, cascading routing rules and the
  bidirectional route index.
- `records`, `symbol_index`, `store`, `index_service`, `scanner`: the workspace index —
  symbol extraction, the entry store, the indexing service and the workspace tree.
- `trigram`, `spotlight`, `context`, `depmap`: fuzzy search, context-window assembly and
  dependency maps.
- `web`, `site`, `features`, `view`: the app server's request handling and payloads, the
  feature-registry report, and the data-view layer's paging and JSON.
- `text`, `strs`, `strmap`, `stdtext`, `decimal`: text and map building blocks, and the
  shown form of float literals.

Public `law_*` proof functions state properties that span several operations (interning is
idempotent, routing is total and invertible, packing stays within budget, …).

`app/` is the `codeio` command line program around the library: argument parsing, files,
sockets, threads, the tree-walking interpreter and the view engine (both compute in floating
point). `tests/` exercises the library through its public API.
