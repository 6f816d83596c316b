# gallery

The integer and text logic behind a gallery of WebGPU examples, verified with Verus.

`src/` is the verified library:

- loaders: `obj` (Wavefront OBJ faces, objects and material groups), `mtl` (material
  blocks), `gcode` (comments, commands and positioning modes), `vox` and `vox_scene`
  (MagicaVoxel chunks and scene graph), `vox_mesh` with `greedy` (greedy meshing of slice
  masks), `rgbe` (Radiance `.hdr` scanlines), `geometry_blob` (packed geometry files),
  `half` (single to half precision bits), `bytes` (shared byte and whitespace helpers);
- the triangulator's z-order list: `morton` (bit interleaving) and `zlist` (the stable
  merge sort of the linked list);
- interaction and frame planning: `controls`, `text_field`, `passes`, `schedule`, `lcg`.

Each public function states its result exactly over spec functions of the formats and
state machines; the `lemma_*` proof functions state properties that span calls, such as
the greedy partition of a mask or the bounds of OBJ material groups.

`tests/` runs the library on concrete inputs. `app/` holds what works in floating point
around the library: vertex buffers from OBJ and VOX data, half-float HDR pixels, G-code
segments and MTL colors.
