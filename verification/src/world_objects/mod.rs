//! The integer side of the objects spawned in a world: where bodies of the
//! benchmark scenes go, the triangles of a rounded cylinder, and how meshes
//! read from OBJ files are merged.

pub mod bench;
pub mod colliders;
pub mod mesh;
