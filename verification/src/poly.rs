pub mod binary;
pub mod torus;
