# scorch

The lexer, parser and runtime core of Scorch, a small scripting language, written in Verus
with each public function's behaviour stated as a contract and proved.

Library (`src/`):

- `tokens` — the lexer: source text to tokens, with the operator and keyword tables.
- `literals` — which texts read as floating-point and boolean literals.
- `ast` — the parser: tokens to a syntax tree, by recursive descent.
- `types` — values, variables and functions of a running program.
- `context` — nested scopes over a store of variable slots.
- `typechecker` — the registry of types and the values each admits.
- `interpreter` — the state of a running program and the steps that change it: declarations,
  assignments, operators, arrays, structs, and calls and loops as steps whose next move it decides.
- `standard_functions` — the builtin functions that need no input or output, and the
  dispatch of a builtin call by name.
- `timewindow` — averages of measured time windows.
- `cli` — the options a command line selects.

The command (`app/`) reads files or the terminal, evaluates syntax trees (the language's
numbers are floating-point values, so that arithmetic lives there), runs function bodies,
loop conditions and blocks when the runtime asks for them, and provides the builtins that
print, read, wait or read the clock.
