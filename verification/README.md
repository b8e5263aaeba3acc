# agent_friction

Records every permission prompt a coding agent's user answers and every tool
call that fails, and tells the user which approvals they keep granting by hand.

The library (`src/`) holds the logic. Each function states its result in a
contract, and a machine-checked proof shows the body meets it for every input
the contract admits:

- `collapse` folds observed bash patterns into the coarsest rule `P *` the
  evidence supports; `family` and `laws` prove what every fold keeps: every
  count, and for a widened rule exactly the patterns of its family, none of
  them ever denied.
- `analysis` judges each rule (allow, keep asking, not enough evidence) and
  lists the recommendations first.
- `failures` and `normalize` count tool failures by kind, with paths, long
  numbers and identifiers masked through the `regex` crate.
- `report` gives the text of every table cell; `display` abbreviates values to
  one line; `limits` trims what is shown; `migrations` says which schema
  migrations a database still needs; `types` and `query` hold the records.

`app/` is the command-line program around it: argument parsing (clap), the
SQLite store (rusqlite), dates (chrono, interim), JSON output (serde) and the
tables (comfy-table).
