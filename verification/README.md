# rotation_renderer

A render server: a client sends a scene and camera over HTTP, the graphics card renders it, and
the server answers with the rendered pixels grouped into runs.

`src/` is the verified library (Verus). It holds the integer side of the renderer:

- `screen_points`, `rows`: screen pixels, grouping them into rows and run-length encoding them;
- `layering`, `painting`: painting one layer of runs over another, and the law that the upper
  layer shows wherever it covers a pixel;
- `shading`, `illumination`: layering runs tagged with triangle signatures, and the decisions of
  the shadow test;
- `triangles`, `polygon`, `obj`: filling outlines, checking and indexing mesh corners, sphere
  faces, the connection rule of polygons, and reading OBJ model lines;
- `matrix`: reading the text entries of a rotation matrix;
- `server`, `order`, `sorting`, `color`: small pieces the rest builds on.

`app/` is the program around it: the HTTP server (actix-web), the graphics card (wgpu), and the
floating-point geometry (vectors, planes, projections), which the library does not hold.
The shaders are read at start-up from `src/*.wgsl`.

`tests/` runs the library on concrete values.
