# parsync push benchmark

Pushes a directory to a remote host over SSH with different numbers of workers and reports how
long that takes.

- `src/` is a library verified with Verus. It holds what the program decides: how a command line
  is read, which files make up the load, which directories and files each run creates on the
  remote side, in which order the runs follow each other, and how the report is laid out. Its
  modules state their contracts over byte and character sequences.
- `app/` is the program around it: the file system, the clock, the workers and the SSH client.
- `tests/` runs the library on concrete values, many of them against the standard library.

Modules of the library, from the bottom up:

| Module | What it holds |
|---|---|
| `text`, `number`, `order` | texts, numbers in text, sorting |
| `path` | paths as byte strings |
| `remote`, `cli`, `mode` | the command line |
| `inventory`, `source`, `manifest`, `tree`, `walk`, `selection` | which files are pushed |
| `plan`, `placement` | what a run does, and where files come to lie |
| `timing`, `session` | the order of the runs and what is made of their times |
| `report` | the printed report |
