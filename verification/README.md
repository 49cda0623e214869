# brush_render

Point-cloud preparation for Gaussian splatting, verified with Verus.

- `src/` — the verified library:
  - `subsample.rs`: density-aware subsampling of a point cloud and the extraction of the
    attributes of the kept points;
  - `sampling.rs`: the choice of the kept points (budget shared over voxels, random choice
    inside crowded voxels);
  - `voxel.rs`: grouping points by voxel and ordering voxels by population;
  - `budget.rs`: the fair-share budget allocation and its laws;
  - `order.rs`: sorting of indices;
  - `splat_layout.rs`: spherical-harmonics coefficient counts and tensor shapes;
  - `config.rs`: the settings of random splat initialisation.
- `app/` — the floating-point and tensor side: bounding boxes and voxel coordinates of
  clouds, and the `Splats` tensor module.
- `tests/` — tests of the library.
