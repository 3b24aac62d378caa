# herdr-picker

A terminal picker for the herdr multiplexer: it lists workspaces, agents and
zoxide directories, filters them as you type, previews the selection live and
focuses (or creates) what you confirm.

- `src/` is the verified library (Verus): the rows each source yields, query
  matching and ordering, selection, key handling, the visit history and its
  persistence format, refresh scheduling and preview arbitration.
- `app/` is the program around it: processes, threads, files, the terminal and
  JSON decoding.
- `tests/` exercises the library on concrete values.
