# raytracer

A path tracer whose index bookkeeping is a verified library.

- `src/` (verified with Verus):
  - `bvh_utils` — in-place partition of a slice by a predicate (which entries
    move and where they go), per-bin counts
    and the left/right counts of binned SAH splits, with the laws that tie them
    together;
  - `bvh` — the node structure of a bounding volume hierarchy (leaves, interior
    nodes, item order), built by partitioning and splitting leaves, with the
    laws that every item lies in exactly one non-empty leaf and that there are
    at most `2n - 1` nodes;
  - `scene` — the ids of meshes, mesh instances and spheres, and the store
    they index into;
  - `image_texture` — texel lookup with clamping in a row-major RGB image;
  - `render` — the tile order in which the image is handed out, pixel buffer
    indexing, and packing of 8-bit colour channels.
- `app/` — the floating-point renderer (vector maths, intersections, materials,
  SAH costs, threads, image and model I/O) built on the library.
- `tests/` — tests of the library.
