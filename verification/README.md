# comrak (verified core)

A CommonMark and GitHub Flavored Markdown toolkit whose core pieces are
written in Verus and proved against their contracts.

Layout of `src/`:

- `arena_tree.rs` — the DOM-like tree of nodes held in an arena: linking,
  detaching, and the traversals, with laws on what each move does.
- `nodes.rs`, `node.rs` — node values, what may contain what, source
  positions, and `validate`, which checks a whole tree against those rules.
- `strings.rs`, `text.rs`, `ctype.rs`, `entity.rs` — byte and text helpers:
  trimming, label normalisation, code span normalisation, escapes and entities.
- `scanners.rs` — the line scanners of the block and inline parsers.
- `parser/` — pieces of the parser: list markers, block prefixes and
  thematic breaks (`blocks.rs`), autolinks, tables (rows and the opening of
  a table on a header row), shortcodes, alerts, math, and in
  `parser/inlines/` the inline scanner, code spans, delimiter runs, the
  delimiter stack and the emphasis pass (`emphasis.rs`), a delimiter run
  turned into a text node and pushed on the stack (`handle_delim` in
  `delims.rs`), inline math between dollar signs (`dollars.rs`), what a `<`
  starts (`pointy.rs`), the destination and title of an inline link
  (`link.rs`), the parts of a wikilink (`wikilink.rs`), and the small
  inline handlers.
- `html.rs`, `html/` — HTML escaping, anchors for headings, the render
  context, and the HTML renderer (`html/render.rs`): `format_node_default`
  for one node, `format_document` for a whole tree, and `collect_text`.
- `cm.rs`, `cm/writer.rs` — CommonMark output: escaping (with the law that an
  escaped link destination reads back as its URL) and the line writer.
- `remstack.rs` — a stack whose elements can be removed in place.

Tests are under `tests/`.
