# raster3d

A small software 3D renderer: OBJ meshes are transformed, lit, clipped and
rasterised into an RGBA frame shown in a window.

- `src/` is the verified library: the frame buffer operations (`frame`),
  Bresenham lines, triangle outlines and spans (`line`), the decision of how a
  triangle is clipped against a plane (`clip`), the 4x4 matrix cell store
  (`mat4`), the line format of OBJ mesh files (`obj`) and the keyboard
  controls (`controls`).
- `app/` is the viewer program: window and event loop (winit), the pixel
  surface (pixels), file reading, and all floating-point work (vectors,
  matrices, lighting, plane intersection, barycentric filling).
- `tests/` exercises the library on concrete values.
