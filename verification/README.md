# comrak

A parser for CommonMark documents with the table extension of GitHub, written and verified in
Verus. It reads the block structure of a document line by line, collects link reference
definitions, and hands the text of each leaf block to a set of rules for inline nodes.

- `parser` is the parser: `feed` takes the input in pieces, `finish` gives the document, and
  `parse_document` does both.
- `model` says what the parser does, as functions from one state to the next; the contracts in
  `parser` are stated over it.
- `cursor`, `strings`, `ctype`, `scanners`, `html`, `list_marker`, `references` and `table` read
  the parts of a line.
- `nodes`, `tree` and `document` hold the document; the finished one is put into an arena of the
  crate `typed_arena`.
- `inlines` has the rules for inline nodes as a trait. `PlainText` are the plainest ones.
  `consolidate` joins texts and finds bare links.
- `spine`, `lines`, `preserved`, `history`, `ending`, `extension`, `nesting` and `texts` prove
  what every step keeps: the open blocks are one path in the tree, blocks are held by blocks that
  may hold them, lists hold items of their own kind, references keep their meaning, and without
  the table extension there are no tables. `laws` has what holds of the parser as a whole.

Text is held as bytes. They are UTF-8, as the input is: of the text of every block this holds
without condition, and of what the rules for inline nodes have a part in, such as info strings
and links, where the rules give UTF-8 for UTF-8. `utf8` and `texts` have the proof.
