//! A block world made of cubic chunks: storage of block types, the world's
//! addressing rules, the choice of visible blocks for meshing and the
//! per-column terrain rules.

pub mod camera;
pub mod mundo;
pub mod terreno;
pub mod trozo;
