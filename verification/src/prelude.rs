pub use crate::poly::binary::BinaryPolynomial;
pub use crate::poly::torus::TorusPolynomial;
pub use crate::tlwe::key::TlweKey;
pub use crate::tlwe::sample::Tlwe;
pub use crate::tlwe::sample::TlweArray;
pub use crate::tlwe::switch::TlweKSKey;
pub use crate::torus::RawTorus;
pub use crate::torus::Torus;
pub use crate::trgsw::dft::TrgswDft;
pub use crate::trgsw::dft::TrgswDftArray;
pub use crate::trgsw::key::TrgswKey;
pub use crate::trgsw::sample::Trgsw;
pub use crate::trgsw::sample::TrgswArray;
pub use crate::trlwe::dft::TrlweDft;
pub use crate::trlwe::key::TrlweKey;
pub use crate::trlwe::pack::TrlwePKSKey;
pub use crate::trlwe::sample::Trlwe;
pub use crate::trlwe::sample::TrlweArray;
