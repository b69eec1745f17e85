# stratum

Navigation between the layers of a project. A layer is a directory (usually
its own git repository) placed below its parent layer in `.stratum/<name>/`
(or `.estrato/<name>/` in the estrato layout). Stratum paths name places in
that tree:

| Expression | Resolves to |
|------------|-------------|
| `>name` | `.stratum/name` |
| `>a>b/src` | `.stratum/a/.stratum/b/src` |
| `<`, `<<` | `../..`, `../../../..` |
| `<*/docs` | `docs` below the nearest `.git` ancestor |
| `*/sub>impl` | `sub/.stratum/impl` below the outermost `.git` ancestor |

The library is written in Verus: every function carries a contract over a
mathematical model of paths (`Seq<char>` and their components) and is proved
against it. The disk is never read in `src/`; functions that need to know
what exists take that knowledge as arguments (`settle`, `settle_down`,
`find_git_root`, `stratum_children`, `link_problem`).

Layout:

- `src/text.rs`, `src/pathstr.rs`, `src/scan.rs`: characters, path strings
  and their components, joining and normalizing.
- `src/path.rs`, `src/query.rs`, `src/up.rs`, `src/context.rs`: stratum
  paths, queries, depth and context in the `.stratum` layout.
- `src/estrato/`: the same for the `.estrato` layout.
- `src/links.rs`: links and headings of markdown documents.
- `src/tree.rs`, `src/layer.rs`, `src/order.rs`: the layer tree, sub-layer
  configuration, sorting names.
- `src/roundtrip.rs`, `src/navigation.rs`: laws that relate several
  functions (formatting then parsing, climbing, going down, the working
  path).
- `app/`: the `stratum` command line, which reads the disk and prints.
- `tests/`: tests run against the compiled library.
