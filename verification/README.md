# wf64

The verified core of the WF64 Forth system, written in Verus.

- `src/let_lang`: the LET infix language — lexer, parser, the ordering of
  `where` bindings by their dependencies, and the emitter of assembly text.
- `src/igui`: the editor and console logic of the GUI — s-expression
  navigation over a rope buffer, the console's scrollback, line editor and
  history, its layout into rows, and the routing of window messages.
- `src/runtime`: what the Forth kernel's runtime services compute — session
  I/O over buffers, the reports printed for `.S`, breakpoints and traces,
  string-builder objects, machine-code stubs, and the scanning of source
  for `END` and `;CODE`.
- `src/newfactor`: the text protocol spoken with a Factor listener.
- `src/worker.rs`: the console transcript of an evaluation and the worker's
  response to GUI events.
- `app/`: a command-line LET compiler and the I/O that serves a live
  session.

The tests under `tests/` run the compiled library.
