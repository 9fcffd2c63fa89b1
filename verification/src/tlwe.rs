pub mod key;
pub mod sample;
pub mod switch;
