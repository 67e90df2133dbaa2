# stm_query_builder

A desktop query builder for travel and expense tables, written as a verified
library with a thin window around it.

- `src/` is the library, verified with Verus. Every public function states
  what it returns in its `ensures`, and the library's laws (a typed font size
  stays in range, dropping a dragged column only reorders the columns, a valid
  builder state has SQL, every join plan grows one shortest path to a nearest
  chosen table at a time, …) are public proof functions.
  - `app_state`: the window's state and `App::update`, which carries out one
    user action and returns the outside work it asks for (`Effect`).
  - `templates`, `params`, `commands`: SQL templates with `{name}`
    placeholders, their parameters, rendering.
  - `customiser`: taking a template's SELECT apart and building it again;
    `select_round_trip` proves that parsing the SQL a customiser writes gives
    its fields, table and clauses back.
  - `builder_state`: the "new template" builder.
  - `joins`, `scratch`: the join graph, breadth-first search, join planning,
    and the from-scratch SQL, including recognising pasted SQL.
  - `mailto`, `utils`, `text`, `lists`, `schema`, `settings`: supporting pieces.
- `app/` is the window (iced), files, the clipboard and the mail client.
- `tests/` runs the library on concrete values.
