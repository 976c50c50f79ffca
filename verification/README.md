# rust_renderer

A Minecraft-style voxel demo whose frames are drawn offscreen with wgpu and
handed to a desktop embedder over a C ABI.

- `src/` is the verified library (Verus):
  - `world.rs`: the voxel world. Reads and writes of blocks, the solid
    block count and revision it keeps, terrain and tree generation from a
    height map, the choice of a flat spawn point, surface heights, face
    culling for the mesh, the collision box query, block placement, and the
    per-block colour variation.
  - `mesh.rs`: the corners of a block face, the two triangles that draw it,
    the quad layout (corners and index list) of the whole mesh, when it is
    stale, and the counts kept of an uploaded mesh.
  - `readback.rs`: the padded row layout of the read-back buffer, the copy
    of its rows into a tight RGBA or BGRA frame, and the codes answered to a
    request for the latest frame, and the size the targets are rendered at.
  - `input.rs`: the capture rectangle and its centre, the repeat rule of
    held mouse buttons, and the per-frame decisions about mouse capture and
    digging or placing.
- `app/` is the rest, in plain Rust: the C ABI, the winit event loop, the
  wgpu renderer and its shader, Win32 input polling, and everything that is
  floating point (camera, player physics, terrain noise, ray picking,
  vertex colours).
- `tests/` exercises the library on concrete values.
