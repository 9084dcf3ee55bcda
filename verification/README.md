# habit_printer

A receipt-printer habit tracker. Games are habits tracked between a start and
an end; each morning the printer prints the calendar agenda and a grid of the
meta game's days.

- `src/` is the verified library (Verus):
  - `calendar`: instants as nanoseconds, California days, weekdays and their names;
  - `game`: the model, the messages that change it (`update`) and game creation;
  - `graph`: the weekly grid of a running game;
  - `meta`: the meta game merged from the games that belong to it;
  - `agenda`: the agenda text from calendar events and its one-week window (parsing through chrono,
    sorting and grouping through itertools);
  - `streak`: the longest streak of consecutive days;
  - `ynab`: whether all budget transactions are settled;
  - `printing`: the texts sent to the printer.
- `app/` is the program: web server, scheduler, calendar client, printer and
  store file.
- `tests/` runs the library on concrete values.
