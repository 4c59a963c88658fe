# tcal

Edit iCalendars as ergonomic TOML: a calendar is projected into a TOML form
whose keys are readable names, the form is edited, and the edits are folded
back onto the calendar so that only the lines that changed are written anew.

The library under `src/` is written in Verus and verified. Its parts:

- `edit`: the format-preserving iCalendar reader and editor. `parse` reads a
  stream into a tree whose structure is stated exactly (`spec_parse`) and
  which writes the input back unchanged; `set_all` and `get_all` edit and
  read a component's properties of one name.
- `ical`: the calendar every verb reads, its top-level components, and the
  component edits a fold-back makes. Component and property names compare
  ignoring ASCII case, on the value as written; a line a fold-back writes
  anew goes out unfolded, while `edit`'s `set_all` folds at 75 octets.
- `model`: the vocabulary of component types and fields, and how a field's
  TOML value becomes content lines.
- `template`: the projection of a calendar to TOML and the fold-back of an
  edited document, by component type.
- `datetime`, `duration`, `recurrence`, `patch`, `util`, `line`, `number`,
  `text`, `toml`: the value conversions the projection and the fold-back use.
- `merge`: reading the three sides of a merge, naming the one that does not
  read, and what a three-way merge's report becomes for a reader (`sides`
  reads each conflict against the calendars, `choice` is a contested key,
  `document` writes both into the projection), and the fold-back of a
  decided document.
- `cli`: the decisions the command line makes on its arguments.

The laws the library keeps (round trip of the reader, reading back what was
set, edits that leave everything else byte for byte, a document restating
the calendar folding back to it byte for byte, written lines folded within
75 octets, type filters that leave unselected types untouched, a contested
key written once per side and announced once) are public proof functions
whose names start with `law_`.

`app/` holds the command line around the library: argument parsing, files,
standard input, the clock and the editor. `tests/` holds the tests.
