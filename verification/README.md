# rust_shell

A small interactive Unix shell. The library (`src/`) holds its logic, verified
with Verus:

- `parser`: splitting a command line into words (quotes, backslash escapes);
- `auto_complete`: Tab completion against the built-in commands and the
  executables on the search path;
- `input`: line editing, one key press at a time (typing, Backspace, history
  with Up/Down, Tab, Enter, Control-C);
- `dispatch`: what a command line asks for (built-in, program, redirection,
  pipeline), and taking redirections and pipelines apart;
- `commands`: what `echo`, `type` and `history` print;
- `text`: character-level helpers (whitespace, decimal numbers).

`app/` is the program around it: the terminal in raw mode (crossterm), the
file system, and the child processes.
