# kdtree

A k-d tree over a vector of points with integer coordinates, verified with
Verus.

- `KDTree::build` reads the coordinates of every point and splits the points
  by medians, cycling through the axes.
- `KDTree::knn_search` returns the `k` points nearest to a query, nearest
  first; `KDTree::radius_search` returns the points strictly within a radius,
  in the order the search reaches them.
- The tree a build makes is a function of the coordinates it reads, so
  with a `dim` that always gives the same coordinate for the same point and
  axis, a rebuild, or a build with another split depth, makes the same tree.
- `FixedSizePriorityQueue` is the bounded ascending queue the nearest-point
  search collects its candidates in.

Distances are compared squared, so no square root is taken: a point lies
within radius `r` when its squared distance is below `r * r`.

Layout: `src/` is the verified library (see the module list in
`src/lib.rs`), `tests/` its tests, and `app/` a small command-line front end
that runs an example or a benchmark, storing decimal coordinates in fixed
point.
