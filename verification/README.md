# mundo_voxel

A block world of 8 × 8 × 8 chunks of 64³ blocks each, with its rules proved
by Verus.

- `src/trozo.rs`: a chunk, its block array and its mesh record.
- `src/mundo.rs`: the world, how world coordinates map to chunks, which
  blocks touch air and are visible, the meshing plan and the draw calls.
- `src/terreno.rs`: the terrain rules of one column (surface type, trees).
- `src/camera.rs`: the camera's movement directions.
- `app/`: the program around the library: window, OpenGL, noise, camera.
