# context_engine

A DSL-driven value context. A YAML document declares field keys, their values
(literal text, `${path}` placeholders or templates) and `_get` / `_set` blocks
that name stores; the DSL is compiled into compact tables (an `Index`), and a
request-scoped `Context` reads and writes values through them: from its cache,
the `_set` store, the value declared in the DSL, or the `_get` store.

The library is written in Verus and verified:

- `tree` — the value tree and its binary wire format (decoding an encoding gives the tree back).
- `list`, `list_bk`, `bit_line` — fixed- and variable-width unit lists and bounded element lines.
- `dsl`, `yaml`, `emit` — reading YAML, compiling a tree into tables, rendering the tables as Rust source.
- `index`, `reading` — reading compiled tables; `reading` proves that traversing a compiled
  index gives back the source tree's leaf values and, at each leaf, the `_get` / `_set`
  blocks in force (store, key, field mapping and further arguments, as inherited and overridden).
- `args` — the keyword arguments handed to a store, kept in key order.
- `context` — the request context, with its cache laws and the read-back laws. Its model
  keeps a record of the calls made to the stores (lookups by id, reads, writes, removals,
  and what each store answered), so the contracts state which store is asked with which
  key and arguments, and what the answers make of the result.
- `debug_log`, `log_format` — call texts for log lines.

`app/` holds what is not verified: writing the rendered tables to a file, and the
logging macros over the `log` crate.
