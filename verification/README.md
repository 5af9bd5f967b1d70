# dupt

A small package manager in two generations, with its logic verified by Verus.

- The first generation keeps a package list and an installed list beside the
  executable; each package has a config file that says how to install and run
  it (`src/lib.rs`, `src/package.rs`).
- The second generation builds packages inside a `distrobox` container from
  archives that repositories list (`src/libdupt/`): the commands `install`,
  `remove`, `search`, `run`, `pkginfo` and `update`, and the tools they share
  (`tools.rs`, `tools/packages.rs`, `tools/paths.rs`).
- `src/text.rs` holds the text handling everything else is stated over: lines,
  trimming, words and substring search, modelled on `str`'s methods.

Every function in `src/` has a contract proved by Verus. The parsers take file
contents and return values; the commands that do outside work in turn
(`install`, `remove`) are state machines that say what to do next given how
the last step went. Laws that span functions (removing undoes installing,
removal frees exactly the unshared dependencies, nothing is built before every
package was found and the answer was yes, every run ends) are proof functions
named `law_*`.

`app/` is the program around the library: it reads files, runs processes,
unpacks archives (`flate2`, `tar`), asks the terminal for its width
(`termsize`) and prints. Colours come from `ansi_term`, called from the library.
