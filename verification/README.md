# terraria_world

A verified library for reading and rewriting Terraria world files held in memory, and a
small program around it that purifies a world's corruption, crimson and hallow blocks.

- `src/bytes.rs`: little-endian integers and byte edits as mathematical functions, with their
  round-trip laws.
- `src/tfilereader.rs`: `TFileReader`, a cursor over the file's bytes (integer reads and
  writes, length-prefixed UTF-8 strings).
- `src/header.rs`: `Header` and `FilePointers`, the file header and its section pointers.
- `src/world.rs`: `World`, `Tile` and `FilePointerArray`: tile records, the tile section,
  section pointers and the world's name.
- `app/main.rs`: the command-line program (file I/O, home directory lookup, timing).
- `tests/`: tests on byte buffers and on a small synthetic world file.
