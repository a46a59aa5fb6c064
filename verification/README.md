# adventure

The core of a voxel adventure game, in verified Rust: the functions under `src/` have contracts that Verus proves. What
is trusted there are small wrappers around hash maps, a sort and a parallel map, each with its own contract.

- `src/`: the library. Sparse brick maps, palettes and packed voxels; the GPU buffers of a brick map and the
  incremental updates of them; light lists and alias tables; the Cornell box and the model gallery; build and dig edits
  and picking; collision boxes and the decisions of the walk mode; the height rings and clipmaps of the terrain and the
  sampling of them; scene files; and the decisions of the user interface.
- `tests/`: tests on concrete values.
- `app/`: the engine around the library. Windows, rays, rigid bodies, GPU buffers, files and everything in floating
  point. It hands the library integers, bit patterns of floats and closures, and carries out what comes back.

Numbers that the library only stores or compares for identity are held as the bits of a float. Where a float is
computed in the middle of a walk, the caller gives the computation as a closure, and the contract says which values
it is applied to.
