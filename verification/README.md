# voxel_engine

A voxel engine's derived data and the rules of its renderer, proved with Verus.

- `src/world.rs`, `src/sorted.rs`: the sparse world of bricks that everything is derived from, and ordered
  maps.
- `src/derived/`: meshes of the exposed faces (merged or not, triangulated so that neighbouring triangles
  share whole edges), summaries, and the asynchronous pipeline that keeps published snapshots in step with
  edits: a bounded queue, groups that publish whole, generational slots, persistent snapshots with readers.
- `src/gpu/`: what the device holds and what each pass is told. Region meshes packed into 54 bits per quad,
  the byte images of tables, memory blocks and their free lists, the staging ring, the timeline of retired
  resources, scene updates that can be refused and rolled back, device selection, shader reflection checked
  against the host's declarations, and the comparison of two renderings of one frame.
- `app/`: the Vulkan calls, threads, files and floating-point arithmetic around the library.
- `tests/`: scenarios and exact values, run against the compiled library.

Every function in `src/` states what it returns or changes. Properties that span functions are the public
proof functions whose names begin with `law_`: for instance that the meshes of a world close up
(`derived::closed_surface`), that a drained pipeline shows the world and holds no result besides
(`derived::pipeline`), that over every history of calls a replaced result lasts exactly as long as its readers
and an edit copies only the shards it touches (`derived::history`), that a refused
scene update changes nothing (`gpu::scene`), and that regions do not depend on the order of the bricks nor
emitters on how the bricks are grouped (`gpu::regrouping`).

The contracts believed without proof are those of the small wrappers in `src/gpu/vulkan.rs`,
`src/gpu/json.rs` and `src/derived/snapshot.rs`; each says which outside function it calls.
