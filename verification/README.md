# hdf_reader

Reading and writing unstructured meshes stored in HDF5: CGNS files (element
sections with start offsets for polygons and polyhedra, or length-prefixed
polygons with boundary-condition families) and VTKHDF unstructured grids.

- `src/` is the verified library (Verus). It decodes the integer arrays of CGNS
  element sections into cells, plans the sections that the writer emits,
  resolves boundary-condition families, orders sections, handles CGNS labels
  and character data, and builds and reads VTKHDF connectivity arrays. Its
  central law, `roundtrip::law_write_then_read`, states that a mesh written by
  the section planner and read back by the section decoder gives the same
  cells.
- `app/` is the program around it: HDF5 reads and writes, coordinates
  (floating point), and the conversion to and from the mesh library's types.
- `tests/` runs the library on concrete meshes and sections.
