# cherry_sight

The verified core of Cherry-Sight, a C++ code-intelligence engine for
Unreal Engine 5 projects, written in Verus.

`src/` is the library, and Verus verifies every function in it:

- `util`: source spans and positions, string interning (through `lasso`),
  file paths as text, text scanning (lines, words, numbers, substrings),
  stable ordering, regular expressions (through `regex`) and the graph
  algorithms the analyses share.
- `ue`: `.uproject`/`.uplugin` descriptors, modules and plugins, include
  paths and defines, `.Build.cs` lists, UE macros and generated headers.
- `ubt`: UnrealBuildTool command lines, reading its output (errors,
  warnings, compiled files, build times) and the generated `.generated.h`
  headers.
- `ue_integration`: the module dependency graph (cycles, transitive
  dependencies, depth), asset references and Blueprint references.
- `project_analysis`: file dependency graphs and coupling, complexity and
  dead-code figures.
- `lsp`: conversion between byte offsets and LSP line/column positions.
- `languages`: how the editor labels C and C++ completions and symbols
  (label text, filter range, highlighting).
- `performance`: caches, memory pools, work queues and indexing tasks.
- `parser`: incremental re-parsing of C++ (through `tree-sitter`) and the
  source ranges of syntax nodes.
- `refactoring`, `semantic`, `types`, `project_panel`: workspace edits,
  scopes, type placeholders, and the solution view's tree of visible
  entries.

`app/` is the program side, which Verus does not see: reading files, JSON
descriptors (`serde`), running UnrealBuildTool, sharing an interner between
threads, the metrics computed in floating point, and the solution panel's
use of the solution reader and UI crates.

`tests/` runs the library on concrete inputs.

## Outside this library

Some parts of Cherry-Sight work on the C++ syntax tree (`ast`) and the
symbol table (`index::symbol_table`), whose definitions are not part of
this code base. They are not here, verified or not:

- the recursive-descent C++ parser (declarations, classes, functions,
  fields) and its error recovery;
- name resolution and type inference over statements and expressions;
- the code-intelligence queries built on the symbol table (definitions,
  references, implementations, hierarchies, search), rename, extract and
  inline refactorings, and the dead-code detector;
- the database, completion, diagnostics and code generation layers;
- the editor's language adapter itself, which implements a trait of the
  editor's own language crate (the label logic it uses is in `languages`);
- the collection of syntax errors from a tree, which reports them as the
  `ast` crate's parse errors.

What is here of `semantic`, `types` and `refactoring` is the part that
stands without them: scopes, type definitions and placeholders, and
workspace edits.
