# block_junk

The rules of a voxel village game, verified with Verus.

- `src/` is the library. Pathfinding, room detection, plans and the claims on
  them, the villagers' minds and errands, recipes, regrowth, the room wire
  format, saves and the declarations of mods stand here, each function with a
  contract that Verus proves. Public proof functions whose names start with
  `law_` state what holds across functions.
- `app/` is the shell: files, the wire, floating-point movement and the loop
  that runs the villagers' minds.
- `tests/` runs the library from outside.

Floats do not enter the library. Poses, saved levels and saved times are kept
as bit patterns; levels of needs are billionths, durations milliseconds and
rates per mille.

Three functions are trusted rather than proved, all in `src/protocol.rs`: the
check that bytes are UTF-8, the encoding of lists by `bincode`, and the digest
by `blake3`.
