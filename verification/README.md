# xmlparse

A small XML toolkit written in Verus: the library's functions are verified
against contracts stated over mathematical models. One small function is
trusted rather than proved: `text::push_char`, which calls `String::push`.

- `lexer` — `tokenize` turns text into tokens (`TagOpen`, `Attribute`,
  `TagEnd`, `SelfClosingEnd`, `TagClose`, `Text`, `Comment`, `CData`,
  `ProcessingInstruction`), each with the line and column of the construct
  it came from; `stream_tokens` hands them to a callback. The contract is the
  spec function `lex`.
- `builder` — `parse` nests tokens into a forest of `Node`s; its contract is
  the spec function `build`.
- `tree` — `Node`, `find_by_tag`, `text_content`.
- `printer` — `pretty_print`, one construct per line, attributes in name
  order, text trimmed and escaped.
- `attributes` — `Attributes`, a map from names to values kept sorted by
  name.
- `round_trip` — printing a tree of elements, then tokenizing and parsing
  the text, gives the tree back (up to the white-space text the printer adds).
- `scan`, `text`, `syntax` — positions and searches, character helpers,
  tokens and errors with their models.

`app/` adds `Display` and `std::error::Error` for the errors, which the
verified library cannot implement itself.
