# sola

The document engine of a Markdown editor that shows the block being edited
as its source and every other block rendered, with Typst previews for math.

`src/` is the library, written in Verus: every function carries a contract.
Those that compute are proved against it; the four that call pulldown-cmark,
tree-sitter or `String::push` are trusted, and their contracts say only what
those libraries document or name their results.

- `text`: character-level text utilities over `Seq<char>` (whitespace,
  trimming, searching, lines, UTF-8 byte offsets, decimal numbers).
- `html`: the inline HTML adapter (`<span style>` and `<img>`).
- `blocks`, `parser`: block kinds, how a block's source renders, and the
  Markdown block parser.
- `outline`: the heading outline, from pulldown-cmark's event stream.
- `document`: the document model: blocks, drafts, the cursor and
  selection, undo and redo, structural edits.
- `editor`: the flat editor text, inline math folded into placeholders,
  and the mappings between source and shown offsets.
- `render_jobs`, `typst`: Typst render requests, cache keys and how finished
  renders reach the blocks that wait for them.
- `highlight`: Rust syntax highlighting with tree-sitter.
- `theme`, `export`, `workspace`, `tree`, `keys`, `surface`, `about`: themes
  and colours, Markdown and HTML export, tabs and recent files, the project
  tree, keyboard actions, and what the document surface shows.

`app/` is the `sola` command around the library: reading and writing files
and settings, walking and watching the project directory, and printing.
`tests/` holds the tests.
