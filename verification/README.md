# sbpm

The Swell Blazing Package Manager, with its decisions verified in Verus.

- `src/` is the verified library:
  - `text`, `num`, `order`: lines, trimming, splitting, joining, `str` order and
    sorting, decimal and hexadecimal text, each specified over character sequences.
  - `db`: the record of installed and frozen packages (`/var/lib/sbpm`): what its
    files say and what is written back to them.
  - `install`: archive cache locations and the SHA-256 check of an archive.
  - `repo`: the binary repository index, the package list built from it, lookup
    and search.
  - `package`: source packages of the build tree and their checksum files.
  - `ops`: the decisions of the commands: build metadata, the dependency walk of
    an install (a state machine that the command drives), upgrade decisions,
    built archives, the choice of the build tool.
- `app/` is the `sbpm` command: arguments, files, downloads, processes, and the
  JSON index read with serde.
- `tests/` runs the library on concrete inputs.
