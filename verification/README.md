# cfa2_kernel

A ForceAtlas2 graph-layout kernel (the iteration scheme of
graphology-layout-forceatlas2), split in two:

- `src/` is the Verus-verified library: the slot layout of the node, edge
  and region matrices; the integer word access, exponent handling and the
  choice among the special cases of the JS-compatible `pow`; the structure of the Barnes-Hut quadtree
  (insertion with retries, and the depth-first walk with subtree skipping);
  and the control of a multi-iteration run (numbering, abort, which
  repulsion strategy runs where).
- `app/` is ordinary Rust around it: everything computed in floating
  point (matrix values, tree geometry and masses, forces, `pow` and `log`),
  and the `rayon` thread pool.

`tests/` exercises the library through its public API.
