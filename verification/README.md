# arandu_semantics

The semantic core of the Arandu compiler, written in Verus: every function
in `src/` carries a `requires`/`ensures` contract that Verus proves.

## Layout

- `primitive`, `ar_type`, `type_interner` — primitive types, the type tree
  with its mathematical model (`TyView`), structural equality, and an
  interner that gives each distinct type one id.
- `unify`, `result_option`, `hints` — type compatibility and literal
  resolution, `Result`/`Option`/`?` helpers, and diagnostic hints.
- `type_display` — how types are shown to users and spelled inside linker
  names.
- `context`, `type_info` — the typing context of a function body, and the
  types recorded for expressions and declarations.
- `ids`, `symbol_table`, `member_index`, `resolved`, `fresh` — scopes and
  symbols, module and associated members (kept in `fxhash` maps), merging of
  tables, name-resolution results, and fresh symbol names.
- `suggest`, `names` — "did you mean" suggestions by edit distance
  (`strsim`), and naming conventions.
- `graph`, `mangle` — the instantiation graph of generic code (kept in
  `rustc_hash` maps) with cycle detection and a per-symbol instance limit,
  symbol mangling and demangling.
- `stable_id`, `string_pool`, `init_bits` — a generational slot map, a
  string interner with small-string storage, and the bitsets of definite
  initialisation.
- `diagnostics`, `constraints`, `type_errors` — diagnostics with labels,
  notes and hints, failed type constraints, and the flow-based error
  message for each kind of constraint.
- `definite_init` — the use-before-initialisation check (O008): a
  work-list dataflow analysis over a function's basic blocks, with laws in
  both directions: a use reached from the entry block along a path that
  never stores the local is reported, and every report has such a path.
- `match_exhaust` — the non-exhaustive-match check (T024), listing the
  missing enum variants in sorted order.

Calls into `fxhash`, `rustc_hash`, `strsim` and a few `std` functions go
through small trusted wrappers whose contracts are stated in their doc
comments; everything else is proved.

`tests/` holds ordinary Rust tests run against the compiled library.

## What is not here

The remaining compiler passes — name resolution, type synthesis and
checking of statements and patterns, lowering to HIR and AMIR, and the
expansion of generic instances — walk the syntax tree and HIR of the
compiler's other crates (parser, lexer, middle), which this library does
not have. The analyses above take plain descriptions of what they read: the
basic blocks of a function, the arms of a match, a failed constraint.
