# asc_mcp_server

A WebSocket JSON-RPC (MCP) server whose tools read and edit PADS Logic
schematic text files (GBK encoded, plain or inside a ZIP archive).

The library in `src/` is verified with Verus:

- `text`, `number`: whitespace, trimming, tokens, and the syntax of float
  literals, stated over `Seq<char>`.
- `model`: parts, nets and segments, and the association lists that hold
  them, with their well-formedness.
- `parse`: the line-by-line reader, specified by `step` and `parse_model`;
  `invariants` proves what every result satisfies, and `polyline` how
  coordinate lines become segments.
- `format`: the writer, specified by `format_model`.
- `roundtrip`, `roundtrip_law`, `plain_law`: what reading gives back of what
  was written: parts with their device, footprint and position, and the
  nets, whatever the other parts hold as long as their text cannot be read
  as a section header or a line break.
- `edit`, `edit_law`: the edits the tools make, the GBK rewrite of a file,
  and what a rewritten file reads back.
- `gbk`: the calls into `encoding_rs`.
- `archive`, `rpc`: which ZIP entry is the schematic, which entry a save
  replaces, and request routing.

`app/main.rs` is the server itself: sockets, files, ZIP archives, JSON and
the conversion of coordinates to `f64`.
