# pathtracer

A GPU path tracer (wgpu compute shader, winit window, glTF scenes) whose
integer-valued core is a Verus-verified library.

- `src/` — the verified library:
  - `renderer::sobol_generator`: the Sobol direction-number table uploaded to the
    shader, proved equal to the recurrence, and proved to have its lowest set bit
    at `31 - j` for every index `j`.
  - `renderer::renderer_uniforms`, `renderer::renderer_state`,
    `renderer::path_tracer`: frame counter updates, key routing, compute
    dispatch size.
  - `scene::bvh`: the bounding volume hierarchy's topology (triangle
    partitioning, node allocation); its invariant keeps the triangle list a
    permutation, makes the leaves partition it, and bounds the node count by
    `2n - 1`.
  - `scene::camera`: keyboard state of the camera controller.
  - `scene::model`: texture deduplication and renumbering, pixel expansion to
    RGBA8, per-primitive triangle lists.
  - `scene::scene`: laying out the lists of several models in scene-wide buffers.
- `app/` — the program: window and GPU setup, shaders, floating-point geometry
  (bounds, split planes, camera matrices), glTF loading.
- `tests/` — tests of the library on concrete values.
