pub mod edgeset;
pub mod hexmesh;
pub mod trianglemesh;
pub mod medit;
pub mod medit_laws;
pub mod obj;
pub mod wireframe;
