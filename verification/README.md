# Refuse

*Refuse* is an incremental, mark-and-sweep garbage collector for programs with
many threads. Values are allocated in pools of slabs. A `Root<T>` keeps a value
alive, a `Ref<T>` does not, and a `CollectionGuard` keeps the collector from
running while it is held. Interned strings (`RootString`, `RefString`) are built
on top of it.

## Layout

- `src/`: the library. Its functions have contracts, and Verus proves them.
  - `slot_state`, `bin_id`, `slab`, `layout`, `bin`, `bins`, `heap`: where values
    live.
  - `trace`, `reach`, `mark`: what a value refers to, and what can be reached
    from a root.
  - `reader_state`, `command`, `info`, `collector`, `global`: when the collector
    runs and what a collection does.
  - `guard`, `any_ref`, `type_index`, `reference`, `equality`, `order`: guards,
    pools and references.
  - `pool`, `string_table`, `string_equality`: interned strings.
  - `derive`: what the derive macros generate.
  - `index_map`, `keyed_store`: maps with integer keys.
  - `laws`, `string_laws`: what holds of the collector and of interned strings
    as a whole.
- `app/`: the collector's thread, the locks around the library, and types whose
  values are released when they are dropped.
- `tests/`: the library's tests.

The library has no global state and never blocks. Its functions take the
collector, the pool of the thread and the time as arguments. A call that would
have to wait is left to the caller, who can ask beforehand.
