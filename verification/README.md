# ardos_packer

The decision logic of the Ardos OS image packer, written in Verus and
proved against its contracts.

- `src/` is the verified library:
  - `packages`: which packages are stale (least set closed under
    "depends on"), which ones a build selects (dependency closure), the
    build plan and its summary, Cargo source normalisation and grouping,
    the order of mounted workspace members and the Cargo override list,
    and which files of a build output are its archives.
  - `prefix_commands`: registries of child process groups and docker
    containers, container naming, tagging of child output lines, and the
    exit decision after a child finishes.
  - `readelf`: ELF magic, and the `(NEEDED)` libraries and program
    interpreter read from `readelf` output.
  - `sysroot` and `sorting`: grouping of a sysroot's missing libraries and
    interpreters and the sorted report of them.
  - `fs_utils`: the per-entry decisions of the recursive copy, of the
    newer-file search, and of the file walk.
  - `assemble`: image naming, commit-hash parsing and build outcomes.
  - `text`: character-level helpers and their specifications.
- `app/` runs the file-system and process work around the library.
- `tests/` exercises the library on concrete values.
