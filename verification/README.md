# amclaw

A personal assistant on a chat service. It keeps the links that its user sends, archives the
pages behind them, remembers what the user tells it, and reports what came in.

- `src/` is the verified library: command routing, sessions, the task store and its life
  cycle, memory governance, address rules, page extraction, archives, reports, schedules,
  retrieval, delivery of replies. Contracts state what its functions return or
  change; the public proof functions state what holds of the library as a whole.
- `tests/` runs the library on concrete values.
- `app/` is the program around it: SQLite, HTTP, the browser worker, threads, clocks and the
  configuration file.

Texts are modelled as sequences of characters, and the tables of the store as sequences of
rows. `app/` reads the tables inside a transaction, lets the library work on them, and writes
back what changed. Scores and vectors are floating point; `app/` computes them and hands the
library integers.
