# fastbf

A Brainfuck compiler. It reads a source text, merges runs of steps, replaces
loops that only clear or move cells, and generates code through LLVM, to be
linked to an executable, run at once, or both.

`src/` is the library. Everything in it is verified with Verus. One thing is
taken on trust: that the quoted form of a string, as the standard library writes
it, depends on the string alone (`llvm/error`).

- `parser` reads and rewrites programs; `op` holds their instructions.
- `machine` says what a program means, `meaning` and `loops` prove that
  rewriting keeps it, on a pointer of 64 bits and, with `reach`, on a tape
  without end; `normal_form` says what rewritten programs look like.
- `llvm/compiler` makes of a program the calls of LLVM's IR builder, as values
  (`llvm/ir`); `llvm/emit` says which calls, `llvm/interp` what they do.
- `llvm/correct` proves that the code of a program does what the program does,
  `llvm/putchar` that it hands the current cell to `putchar`, `llvm/well_formed`
  that it makes a module that hangs together.
- `llvm/session` decides what LLVM is asked for, in which order, and what its
  answers lead to. `link` and `cli` do the same for the C compiler and the
  command line.

The proof functions whose names begin with `law_` are what holds of the library
as a whole.

`app/` is the program around it: the command line, files, the C compiler, and
the calls into LLVM's C interface. `extras/` holds what it is linked with: the
shim that makes LLVM's initialisers callable, and a script that prints the
linker's flags. `tests/` runs the library.
