# unity_reference

An index of the symbols in the C# reference sources of an engine, kept per
version, and the differences between two versions: symbol by symbol, and as lists
of added, removed and changed symbols below a path.

* `src/` is the library. It is written in Verus: each function states what it
  returns, and the statements are proved. `src/lib.rs` says what each module is
  for.
* `tests/` runs the library, with the crates `regex` and `similar` that it calls.
* `app/` is ordinary Rust around the library: walking directories, reading files
  and the clock, and keeping the index as JSON.

The library calls `similar` for the edit script between two lists of lines
(`src/hunks.rs`) and `regex` for the declarations in a source text
(`src/extract.rs`). What is believed of these calls stands above the functions
that make them. What the library does with the results is proved.
