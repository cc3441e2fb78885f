# solid_formats

Readers and writers for common 3D interchange formats, with their logic
verified by Verus: every public function states what it returns in terms of
a mathematical model of the bytes or text it reads, and the proofs are
checked.

## Layout

- `src/` — the verified library
  - `bytes`, `text`, `floatbits`: little/big-endian fields, ASCII text
    (words, lines, numbers, float literals) and exact float bit patterns
  - `stl`: binary and ASCII STL, vertex welding, the binary writer
  - `ply`: PLY header and ASCII/binary bodies, face fans
  - `obj`, `obj_mesh`: OBJ and MTL files, and the indexed meshes of their
    groups
  - `mdl`, `mdl_scene`: Quake MDL files, their meshes and skins
  - `png`: CRC-32 and PNG framing of RGBA images
  - `gltf`: GLB containers, accessors and sparse data, primitive modes,
    data URIs
  - `gltf_nodes`, `gltf_write`, `gltf_read`, `gltf_fields`: the node
    hierarchy a glTF writer lays out and a reader rebuilds, mesh streams
    written into the binary buffer and vertices assembled from accessors,
    and the optional fields of materials, textures and images
  - `fbx`, `fbx_ascii`, `fbx_scene`, `fbx_anim`, `fbx_attr`, `fbx_write`:
    binary and ASCII FBX documents, the object graph of a document, its
    animations (stacks, curve nodes and curves), its cameras and lights,
    and the graph a writer emits
  - `blend`: the decisions of the Blender bridge
- `app/` — plain Rust around the library: files, processes, JSON documents,
  floating-point conversions
- `tests/` — tests of the library on concrete inputs

Besides the function contracts, the library proves laws such as: a binary
STL, an MDL file and a GLB container read back as what was written; the
indices and vertex streams of a written glTF mesh, and its embedded images,
read back as they were; a saved MDL model agrees with its header and reads
back; triangles saved as FBX polygon indices come back as the same
triangles; the bufferViews of a written glTF document tile its binary
buffer from offset 0 without gaps; a big-endian PLY body reads as its
little-endian twin; a leading comment line changes no ASCII FBX token; FBX
connections written for a scene resolve to that scene's links; scene nodes
are made parents first; every triangle index of a loaded mesh names one of
its vertices.
