use vstd::prelude::*;
use crate::gadget::gadget_params_ok;
use crate::trlwe::key::TrlweKey;

verus! {

/// Secret key of the gadget ciphertexts: a polynomial-ciphertext key together with the
/// digit count `l` and the digit width `bg_bit` of the decomposition.
pub struct TrgswKey {
    pub trlwe_key: TrlweKey,
    pub l: u32,
    pub bg_bit: u32,
}

impl TrgswKey {
    /// The inner key is well formed and the decomposition fits 64 bits.
    pub open spec fn wf(&self) -> bool {
        &&& self.trlwe_key.wf()
        &&& gadget_params_ok(self.l as nat, self.bg_bit as nat)
    }

    /// Builds a gadget key over a copy of `trlwe_key`.
    pub fn new(trlwe_key: &TrlweKey, l: u32, bg_bit: u32) -> (key: Self)
        requires
            trlwe_key.wf(),
            gadget_params_ok(l as nat, bg_bit as nat),
        ensures
            key.wf(),
            key.trlwe_key@ == trlwe_key@,
            key.l == l,
            key.bg_bit == bg_bit,
    {
        TrgswKey { trlwe_key: trlwe_key.clone(), l, bg_bit }
    }

    /// Digit count of the decomposition.
    pub fn l(&self) -> (r: u32)
        ensures
            r == self.l,
    {
        self.l
    }

    /// Digit width of the decomposition, in bits.
    pub fn bg_bit(&self) -> (r: u32)
        ensures
            r == self.bg_bit,
    {
        self.bg_bit
    }

    /// Number of mask polynomials of the inner key.
    pub fn k(&self) -> (r: u32)
        requires
            self.wf(),
        ensures
            r == self.trlwe_key@.len(),
    {
        self.trlwe_key.k()
    }

    /// Number of coefficients per polynomial of the inner key.
    pub fn upper_n(&self) -> (r: u32)
        requires
            self.wf(),
        ensures
            r == self.trlwe_key@[0].len(),
    {
        self.trlwe_key.upper_n()
    }
}

} // verus!
