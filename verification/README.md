# tile_world

The world logic of a 2D tile game, verified with Verus.

- `src/game/terrain`: chunks of 32 x 32 tiles in two layers, chunk and region
  coordinates, the chunk manager (which chunks to load, mesh and unload around
  the player, explosions, tile edits, the tile view handed to the lighting
  pass), and the marching-squares meshing of a chunk layer.
- `src/game/terrain/rounding.rs`: tile edits find their chunk by taking the
  world coordinate as a single-precision value, dividing by 32 and flooring;
  this module states that rounding over integers, so edits beyond 2^24 tiles
  from the origin reach the same chunk as in the game.
- `src/engine`: handles of GPU resources and the grouping of sprites into
  batches by material.
- `src/game/items`: the inventory.

Three pieces are simple stand-ins chosen for this crate, to be replaced by
the game's own rules: a tile is solid exactly when its id is not 0
(`tile.rs`), a region is 16 chunks wide (`region.rs`), and the terrain
generator makes flat ground below a surface row (`terrain_generator.rs`).

The loaded chunks and the sprite batches live in `ahash` hash maps; the
library reaches them through a few trusted wrappers whose contracts speak of
what the map holds.

`app/` is the program around the library: the window and event loop, GPU
rendering, chunk files on disk, and the parts of the game that move in
floating point (player, camera, bombs, particles).
