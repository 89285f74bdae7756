# ray_tracer

A ray tracer whose non-numeric logic is a library verified with Verus.

`src/` is the verified library:

- `text`: character-level text handling (lines, words, trimming, decimal numbers, the text
  forms that `f64` accepts), with a proof that decimal text reads back to its number.
- `obj`: reading Wavefront OBJ text into vertex, normal and face records, fanning faces into
  triangles, and sorting faces by group, with proofs of the shape of what is read and of how
  faces are sorted.
- `yaml` and `scene`: the description of a scene read from the text of a YAML scene file,
  loaded with yaml-rust (objects,
  materials, patterns, transformations, lights, camera), including named definitions and their
  extension, with proofs about extension and about the limit on following definitions.
- `canvas`: a grid of pixels and its text in the plain PPM format.
- `containers`: which objects a ray is inside of at a hit, which picks the refractive indices
  on either side.
- `output`: the names of the image and of the model cache, and the compression of the cache.

`app/` is the `rtc` program: command-line handling, file input and output, and the
floating-point renderer (geometry, shapes, lighting, camera), built on the library.

`tests/` exercises the library on concrete inputs.
