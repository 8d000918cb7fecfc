# todo_app

A keyboard-driven todo list kept in `.xit` files, with recurring series
described by RRULE strings, written in Verus.

- `src/` is the verified library: dates (`date`), text helpers (`text`),
  items and their `.xit` lines (`item`), the list (`todo`), recurrence rules,
  occurrence generation, series and their sidecar records (`recur`), the
  key-press state machine of the terminal program (`app`), and the text
  responses of a line front end (`output`, `response`).
- `app/` is the terminal program around it: reading and writing files,
  drawing the screen with ratatui, themes, and the TOML sidecar.
- `tests/` runs the library on concrete values.

Laws that the library proves include: a written `.xit` line, and a whole
written list, reads back as what was written (for items whose text does not
itself look like a marker or a due date); a rule's RRULE text reads back as
the rule (for every rule the parser makes, with UNTIL or COUNT but not
both, and an UNTIL that chrono writes as `YYYYMMDD` and reads back, which
`Recurrence::until_reads_back` checks at run time); a store's records read
back as its series (under the same conditions, with dates in the years 0
to 9999); sorting is stable; every key press keeps the selection on a
visible row; the occurrences in a window are those of any larger window
that fall in it; turning COUNT into UNTIL keeps the occurrences and leaves
no COUNT (a COUNT that counts nothing becomes an UNTIL on the day before
the anchor); cutting a
series short at a date keeps just its occurrences before it; and splitting
a series at a date on or after its start divides its occurrences at that
date, the two halves together showing what it showed.
