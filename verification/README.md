# kept

A library for notes that live in a stream of cells: plain text, outlines,
calculators, tables and previews of other cells. Every function states in its
contract what it does, and Verus proves it; only of `new_id`, which draws an identity
by chance, nothing is said.

## Layout

- `src/text.rs`, `src/words.rs`: strings as UTF-8 bytes, and the words in them.
- `src/ids.rs`, `src/date.rs`: identifiers and calendar dates.
- `src/json.rs`, `src/tree.rs`: JSON values and the text that they are stored as,
  and trees that are written down node by node.
- `src/cell.rs` and `src/cell/`: text boxes with carets, selections, links, tags and
  undo; what is built of them; what keys and the mouse do; what is drawn where.
- `src/clipboard.rs` and `src/clipboard/`: what is copied, as HTML and as plain text,
  and how it is read again.
- `src/query.rs` and `src/query/`: the query language: reading, writing, matching.
- `src/color.rs`: colors, the palette, and the file that changes it.
- `src/document.rs`, `src/entity_cache.rs`, `src/thread.rs`: the open document, the
  people that cells stand for, and threads.
- `src/persist.rs` and `src/persist/`: the tables that notes are stored in, the JSON
  of a stored cell, and how old tables are brought up to date.
- `tests/`: what runs the library.
- `app/`: the window, the drawing, the SQLite file and the palette file.

## Models

A text is modelled by its UTF-8 bytes, and offsets into it are those of bytes. A type
`T` with a view has a ghost counterpart (`TextModel`, `OutlineModel`, `DbModel`, ...);
operations are functions on the counterpart, and a method's contract says that it
does what that function says. Laws that tie several operations together are the
public proof functions whose names are sentences.

Time, fresh identifiers and the width of glyphs come from outside: functions that need
them take them as arguments, and where a caller wants them picked, a second function
does that and says that there is a value for which the first one's contract holds.
