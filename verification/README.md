# stucker

A compiler for Stucker, a toy language whose variables live on a stack of
resizable items, to NASM assembly for x86-64 Linux. Every item on the runtime
stack is its data followed by a size tag (the data's size plus the tag's own
8 bytes), so an item can be resized in place and references are stable
indexes into the stack.

The library is written in Verus and verified:

- `tokenize`: the byte-level tokenizer, specified token by token over the
  input bytes (float literals are read through a caller-supplied `FloatBits`);
- `parse`: the recursive-descent parser, whose results are specified by a
  grammar over the tokens each function takes (`expr_tokens`, `stmt_tokens`,
  `func_tokens`, ...), with the split of the tokens into the rule's parts as
  a witness, and whose errors are placed: a token that can begin a statement
  or an expression is never refused where the phrase begins, a block fails
  only at a token after whole statements (`block_failed_at`), and `return`,
  `if` and `while` fail only inside their value, condition or branches
  (`failed_from`);
- `nasm`: the assembly emitter and its model of the compile-time stack, with
  the exact text of every instruction sequence it writes;
- `codegen`, `expr`, `statement`: definitions and scopes, and code generation
  for expressions and statements, specified by the typing rules (`typed`):
  what compiles has a type, and a well-typed expression compiles whenever
  it has `room` (its `need` stack items and `labs` labels are left, its
  variables are live and it is `ready`), giving a value of its type at a
  live item (`compiled`); by what each construct does after its parts
  (`binop_run`, `array_run`, `def_run`, `set_run`, `block_run`,
  `function_run`, ...): the first failing part ends it, a part of the wrong
  type gives the error that names the types, and otherwise it succeeds when
  the room it needs is left; and by the shape of the code each construct
  writes around the
  code of its parts (`binop_code`, `call_code`, `while_code`, `if_code`,
  `set_code`, `function_code`, ...), with the exact text of the entry point
  and runtime routines (`init_text`, `stdlib_text`);
- `compile`: a whole program, from parser to assembly text: the tokens
  taken are the input's tokens (`lexes`) and form a sequence of top-level
  definitions (`program_tokens`), and the output is the entry point, then
  the text of each definition in order (`global_text`), then the data
  section; after a failure the output holds what was written before it;
- `pretty`: the debugging text of syntax trees;
- `text`: decimal rendering of integers.

`app/` holds the command-line program (argument handling, files, float
parsing and printing). `tests/` runs the library on concrete programs.
