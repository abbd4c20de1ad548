# mordant

A lint pack for Rust that looks for places where an invariant lives in a
convention or a runtime check although the type system could hold it. Its
decision logic is a Verus library: what each lint says of a crate is stated in
contracts and proved.

## Layout

- `src/` is the library. What the compiler knows is plain data: definitions
  (`defs`), types (`ty`), expression trees (`hir`) and control-flow graphs
  (`mir`). Each lint is a module over that data. A lint that decides on the
  spot is a function from an expression, statement or block to findings; one
  that needs the whole crate is a struct that visits what there is and
  concludes in `check_crate_post`. Its contracts say what is remembered after
  each visit and which findings come out.
- `cfg`, `bits`, `mir_flow`, `ctor_facts`, `ctor_flow` and `ctor_verdict` are
  the analysis behind `bypassed_validator`: post-dominance and control
  dependence on a body's graph, and which fields of the value it builds a
  constructor checks.
- `baseline` is the ratchet: which findings a recorded file accepts and what a
  run writes down. `names`, `registry` and `config` say which lints there are,
  what they used to be called and which of them run.
- `samples` are small types of the kind the lints look at.
- `tests/` runs the library on concrete values.
- `app/` is the compiler plugin around it: it lowers the compiler's own data,
  reads and writes the ratchet's file, and reports.

## What is proved

A public function's contract gives its result exactly, except where a call into
`toml`, or the room an allocator has (`samples`), decides. Proof functions named
`lemma_..` that are public state what holds across functions: that a reported
pairing has no counterexample in the crate, that one such counterexample
silences a lint, that a call chain printed for a banned definition exists and is
a shortest one, that what a run records the next run suppresses, that renames
never chain.

## What is believed

- `toml::from_str` and `toml::to_string_pretty` on a table of tables of counts
  (`baseline`): that their results depend on their arguments alone, that the
  sections come in the order of their names, and that what was written reads
  back.
- `Vec::try_reserve` (`samples`): that it keeps the contents, succeeds where no
  room is asked for, and refuses more than `isize::MAX` bytes.
- `char::is_alphabetic` and `char::is_alphanumeric` (`claims`): that they depend
  on the character alone, and what they say of ASCII.
- `char::is_whitespace` (`claims`): that it holds of the characters with
  Unicode's `White_Space` property, which are listed there.
- `String::push` (`text`).
