pub mod address;
pub mod infer;
pub mod layout;
pub mod params;
pub mod plain;
pub mod roundtrip;
pub mod samples;
pub mod score;
pub mod train;
