pub mod dft;
pub mod key;
pub mod pack;
pub mod sample;
