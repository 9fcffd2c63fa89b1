pub mod entropy;
pub mod gadget;
pub mod ideal;
pub mod modular;
pub mod pipeline;
pub mod poly;
pub mod prelude;
pub mod rotate;
pub mod sealed;
pub mod tlwe;
pub mod torus;
pub mod tree;
pub mod trgsw;
pub mod trlwe;
