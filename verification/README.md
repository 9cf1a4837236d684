# Angelo

Mutation testing for Python: plant one small fault at a time, run the tests, and
report the faults that no test noticed.

The library is written in Verus. What a run plants, which tests it selects, how
runs become verdicts and what the reports say is stated in `requires` and
`ensures` and proved.

- `src/` is the library. `operators` finds the mutants of a file, `coverage` and
  `batch` decide which of them may share a run, `runner` turns runs into
  verdicts, `schemata` compiles many mutants into one file, `exec` holds the
  steps of a run, and `report`, `html`, `stryker` and `sonar` say how it ended.
  Laws that relate several functions are public proof functions whose names
  begin with `law_`.
- `tests/` runs the library on concrete values.
- `app/` is the command line: files, processes, git, the database, the terminal
  and floating point.

Python is parsed by `ruff_python_parser` and junit reports by `roxmltree`. Both
stand behind small trusted functions, in `src/syntax.rs` and `src/pytest.rs`,
that name what the parsers return and claim nothing else of it.
