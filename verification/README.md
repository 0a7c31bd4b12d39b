# render_bundle

Groups the surface instances of a scene into render bundles: sets of instances that are drawn with
the same surface data and the same material, so that a renderer changes its state as rarely as
possible. The library is written in Rust and verified with Verus.

## Layout

- `src/` is the verified library.
  - `storage.rs`: the bundle storage, what a push makes of it, and sorting.
  - `pushes.rs`, `pushed.rs`: sequences of pushes, and the storage of a collection, which nothing but
    pushes changes.
  - `keys.rs`, `fx.rs`: the keys under which bundles are found, the Fx hash that they are computed
    with, and why keys differ when one parameter does.
  - `graph.rs`, `traversal.rs`: the scene graph, its levels of detail, and the collection of render
    data from its nodes.
  - `context.rs`: what a node is handed when it is asked for its render data.
  - `identifier.rs`: identifiers that stay the same from frame to frame.
  - `bundle.rs`, `instance.rs`, `resource.rs`: bundles, instances, and what they refer to.
  - `laws.rs`, `push_laws.rs`: what holds whatever is pushed.
  - `visit_laws.rs`, `preorder.rs`: which nodes are asked, whatever they answer, and in what order.
- `app/` is the side that works with floating-point numbers and with buffers: observers, distances,
  matrices, vertices and triangles.
- `tests/` runs the library on concrete values.

## Numbers

The library never computes with floating-point numbers. Where bundles carry them, they are held by
their bit patterns. `app/` turns distances into flags and depths into integers before it calls the
library.
