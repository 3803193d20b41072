# trace4d

A viewer for four-dimensional meshes. The library (`src/`, verified with Verus)
holds what the viewer decides and computes without a GPU:

- `decimal`: unsigned decimal numbers as the mesh format writes them.
- `text`: splitting lines into `/`-separated fields and space-separated words.
- `wavefront`: the mesh file format (a four-line header, then `v `, `vn` and
  `f ` lines), read into positions, normals and face corners.
- `mesh`: from positions, normals and corners to the vertex list (splitting a
  vertex whose position meets a second normal), the wireframe corner order,
  restart markers between faces, and the index list.
- `viewer`: what the window does when the application resumes and on each
  window event.

The program around it (`app/`) opens the window, reads files, reads coordinate
text as `f32`, scales the positions, and draws with glium.
