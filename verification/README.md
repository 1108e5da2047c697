# scop

A viewer for Wavefront OBJ models with MTL materials and binary PPM textures.

The library (`src/`) holds everything that is decided rather than drawn, with
its behaviour stated in Verus contracts and proved:

- `ppm`: decoding P6 images (header grammar, numbers, pixel data).
- `mtl`: parsing material libraries into a `MaterialLibrary` (diffuse
  textures from `map_Kd`, normal maps from `map_Bump`, `bump` or `norm`).
- `obj`: parsing OBJ models (`parse_document`, `number_fields`), resolving
  face corners, and planning the mesh (`plan_mesh`): fan triangulation,
  texture tables without repeated paths, and draw batches that cover the
  vertices in order.
- `renderer`: checking renderer inputs, converting batches to OpenGL counts,
  choosing each batch's texture, and flipping image rows.
- `error`, `mesh`, `text`: the error type and its messages, draw batches,
  and the character-level helpers the parsers share.

Floating-point values are not computed in the library: an OBJ document
refers to its coordinates by the position of their numbers in
`number_fields`, and the caller says which of those numbers are valid; a
material's diffuse color is carried as the bit patterns of its components.

The program (`app/`) reads files, computes vertex positions, normals and
texture coordinates, and drives GLFW and OpenGL.
