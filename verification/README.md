# rustgeomapping

Tools for turning depth-camera point clouds into 2.5D heightmaps and for analysing
recorded tests, with the logic verified by Verus.

- `src/` is the verified library. Heights and coordinates are held as the bit patterns
  of `f32` values (`u32`), and comparisons on them follow IEEE-754 (`float_bits`).
  - `data_types::heightmap`: the heightmap type and its operations, binning points into
    cells, reducing each cell's heights, pasting maps, filling unknown cells, finding
    feature edges, and splitting heightmap files into tokens.
  - `data_types::pointcloud`: point clouds, their bounds, cropping, combining,
    decimation, and splitting point cloud files.
  - `data_types::text`: splitting and trimming text as `std` does.
  - `data_types::laws`: properties that hold across the operations.
  - `analysis::analyser`: comparing and averaging heightmaps, finding a test's files,
    and planning the parametric analyses.
  - `aruco`: reading the output of the marker detection script.
- `app/` is the program around it: file and camera I/O, and the floating-point
  arithmetic, which reaches the library as closures or as finished values.
- `tests/` exercises the library.
