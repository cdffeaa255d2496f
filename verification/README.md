# nofs

A pool of directory branches used as one namespace, mergerfs-style, without a FUSE
mount: every operation is a subcommand (`ls`, `which`, `create`, `cp`, `mv`, `tree`,
`diff`, ...).

## Layout

- `src/` is the library, verified with Verus. It holds the rules: branch
  specifications and modes, sizes, policies and how they pick a branch, pools and
  share-qualified paths, conflict detection, copy/move conflict strategies and their
  plans, fresh `_N` names, the tree view, listings, comparisons and the text and
  records the commands report. Decimal sizes such as `1.5G`, sizes shown with one
  decimal, and the used percentage the `lup` policy compares, are stated as the
  binary64 arithmetic of the command computes them (every rounding to 53
  significant bits spelled out over whole numbers, in `src/nearest.rs`). Each public function states its result in its
  `ensures`; the laws that span several functions are public proof functions
  (`lemma_*`, `law_*`).
- `app/` is the command-line program: argument parsing, the configuration file,
  reading and writing the disk, hashing file contents, JSON output. It hands plain
  values to the library and carries out what the library decides.
- `tests/` exercises the library on concrete inputs.

The library calls outside crates only through small trusted wrappers, each with a doc
comment saying what is assumed of it: `fs4` (free and total space), `rand` (random
choice), `dirs` (home directory), `glob` (name patterns), `regex` (grep patterns) and
std's `Path` (file names, parents, prefixes, path equality) and case mapping.
