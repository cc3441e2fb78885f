//! Verified readers and writers for common 3D interchange formats.
pub mod bytes;
pub mod text;
pub mod floatbits;
pub mod ply;
pub mod mdl;
pub mod stl;
pub mod gltf;
pub mod gltf_nodes;
pub mod gltf_write;
pub mod gltf_fields;
pub mod gltf_read;
pub mod png;
pub mod mdl_scene;
pub mod obj;
pub mod obj_mesh;
pub mod fbx;
pub mod fbx_ascii;
pub mod fbx_scene;
pub mod fbx_anim;
pub mod fbx_attr;
pub mod fbx_write;
pub mod blend;
