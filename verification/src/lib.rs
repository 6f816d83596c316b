use vstd::prelude::*;

pub mod bytes;
pub mod controls;
pub mod gcode;
pub mod geometry_blob;
pub mod greedy;
pub mod half;
pub mod lcg;
pub mod morton;
pub mod mtl;
pub mod obj;
pub mod passes;
pub mod schedule;
pub mod text_field;
pub mod rgbe;
pub mod vox;
pub mod vox_mesh;
pub mod vox_scene;
pub mod zlist;

verus! {
} // verus!
