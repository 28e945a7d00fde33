# luna_code

The core of a small text-editor API, written in Verus and proved against
its contracts.

- `src/` is the verified library:
  - `text` — UTF-8 text as bytes: splitting at newlines, joining lines,
    cutting strings at character boundaries, decimal numbers;
  - `buffer` — a document's lines, edits by byte position, and where a
    cursor goes after an edit;
  - `content` — the joined text and offsets of positions, and what edits do
    to them (insertion, deletion, undoing an insertion, cursor movement);
  - `document` — a document: lines, cursor (always valid), path, unsaved
    changes;
  - `events`, `commands` — the registries of subscriptions and of commands;
  - `api` — the editor: open documents, edits, commands, subscriptions, and
    the queue of events its operations produce;
  - `paths` — the two answers taken from `std::path` (file name, path
    equality), trusted.
- `app/` wraps the core with what it leaves to its caller: reading and
  writing files, running command handlers and calling subscribers.
- `tests/` runs the library on concrete values.

Reading and writing files are done by the caller: the core takes the text
of an opened file and the outcome of a write as arguments.
