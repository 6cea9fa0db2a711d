# filesplit

Splits CSV, TSV and text files into numbered chunk files by size or by row
count, never cutting a row and keeping quoted CSV fields whole.

- `src/` is the verified library: size strings (`format`), the options
  (`cli`, `config`), the naming of chunks and the encoding of rows
  (`splitter`), the chunk planner with its laws (`planner`), and what is
  reported of chunks (`report`).
- `app/` is the command: it parses the command line, reads the input, writes
  the chunk files and prints or writes the summary.
- `tests/` runs the library on concrete inputs.
