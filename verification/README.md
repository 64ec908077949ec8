# cql_migrate

Reads CQL migration files.

A migration is a file named `v001-what-it-does.cql`: `v` or `V`, three digits, then letters,
digits, `-` and `_`. The migrations of a directory are taken up in the order of their names, and
their versions have to count up from 1. A `.cql` file whose name begins with `_` stays out.

A migration holds statements, each ended by a `;`. Comments (`-- ...` and `/* ... */`) may stand
between them and inside them. A statement is handed out on one line, without its comments and
without its `;`, with the lines that it takes up in the file. What stands in quotes is kept as it
is, but a `;` ends the statement there too. Text that no `;` ends is left out.

## Layout

- `src/` is the library, verified with Verus.
  - `statement` has the grammar of a file and reads its statements; `statement_laws` says what
    holds of them.
  - `filename` finds the version in a file's name; `filename_laws` says what holds of it.
  - `digest` makes the MD5 digest of a file.
  - `cql_file` records a file and reads its statements.
  - `directory` finds the migrations of a directory; `directory_laws` says what holds of them.
  - `error` has the errors and their texts, `text` moves between strings and characters.
- `app/` reads directories and files from disk.
- `tests/` are the tests.
