# metta_on_mork

A Hyperon atomspace over the MORK kernel, with its logic verified in Verus.

An atom is walked into the kernel's preorder byte encoding and stored as a path.
A query is encoded the same way; it is answered by a column index, by tabled
rows, or by the kernel's matcher, and what comes back is decoded into bindings.

- `src/` is the verified library. `tag`, `tree`, `span`, `encode`, `decode` and
  `codec` are the encoding and its laws; `paths`, `table` and `registry` are the
  stores; `pattern`, `specificity`, `rows`, `argindex`, `route`, `colcache`,
  `answer` and `agreement` are what a query goes through; `space`, `snapshot` and
  `sharded` are the spaces, with what holds over a space's whole life in
  `space::history`; `william` reports compressible patterns.
- `app/` holds what runs outside: the kernel, Hyperon's atoms, bindings and
  traits, files, threads and the clock. It hands the library plain values.
- `tests/` runs the library on concrete values, with small stand-ins for the
  matcher and the rule engine.

One function of the standard library is trusted rather than proved:
`std::str::from_utf8`, in `src/text.rs`.
