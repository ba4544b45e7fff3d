# symbol_table

Symbol tables for compilers and interpreters, verified with Verus.

- `src/lib.rs`: a tree of lexical scopes (`SymbolTable`, `Scope`, `Symbol`,
  `SymbolKind`) with chain-of-scope lookup, shadowing, and refusal of duplicate
  declarations within one scope.
- `src/symbol.rs`: `Symbol`, a `u32` handle to an interned string.
- `src/intern.rs`: `StringInterner`, which deduplicates strings and hands out symbols.
- `src/scope.rs`: `Scope` and `ScopeManager`, a stack of scopes keyed by symbol.
- `src/table.rs`: `SymbolTable`, an interner and a scope stack together.
- `src/hash_cons.rs`: `HashCons`, which deduplicates byte strings by their digest.

Each module states its operations' behaviour over mathematical models (sequences
and maps) and proves the laws that tie operations together, such as "a lookup
after a definition finds it" and "leaving a scope restores every lookup".

`tests/` runs the library on concrete values; `app/` gives symbols `Display`
and `Debug` formatting.
