pub mod dft;
pub mod key;
pub mod sample;
