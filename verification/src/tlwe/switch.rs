use vstd::prelude::*;
use crate::gadget::gadget_params_ok;
use crate::gadget::pow2_word;
use crate::gadget::round_word;
use crate::gadget::switch_digit;
use crate::gadget::switch_digit_word;
use crate::gadget::switch_round;
use crate::tlwe::key::TlweKey;
use crate::tlwe::sample::Tlwe;
use crate::tlwe::sample::TlweView;
use crate::tlwe::sample::tlwe_add;
use crate::tlwe::sample::tlwe_phase;
use crate::tlwe::sample::tlwe_sub;
use crate::tlwe::sample::tlwe_trivial;
use crate::tlwe::sample::tlwe_views;
use crate::torus::Torus;
use crate::torus::modulus;
use crate::gadget::digit_weight;

verus! {

/// What a key-switching key holds: `n * t` scalar ciphertexts under the target key and
/// the two parameters of the decomposition. Row `i * t + j` seals coefficient `i` of the
/// source key times the weight of digit `j`.
pub struct SwitchKeyView {
    pub rows: Seq<TlweView>,
    pub t: nat,
    pub base_bit: nat,
}

/// Every entry of a ciphertext multiplied by the integer `d`, modulo `2^64`.
pub open spec fn tlwe_scaled(x: TlweView, d: int) -> TlweView {
    TlweView {
        mask: Seq::new(x.mask.len(), |i: int| (d * x.mask[i]) % modulus()),
        body: (d * x.body) % modulus(),
    }
}

/// The sum of the first `upto` terms of a key switch: term `q` is row `q` of the key
/// times digit `q % t` of mask entry `q / t` of `x`.
pub open spec fn switch_sum(x: TlweView, key: SwitchKeyView, n_out: nat, upto: nat) -> TlweView
    decreases upto,
{
    if upto == 0 {
        tlwe_trivial(n_out, 0)
    } else {
        let q = upto - 1;
        tlwe_add(
            switch_sum(x, key, n_out, q as nat),
            tlwe_scaled(
                key.rows[q],
                switch_digit(x.mask[q / (key.t as int)], key.t, key.base_bit, (q % (key.t as int)) as nat),
            ),
        )
    }
}

/// The ciphertext `x` switched to the target key: the trivial ciphertext of its body
/// minus the key rows times the digits of its mask. It decrypts under the target key to
/// what `x` decrypts to under the source key, up to the rounding of the mask to `t`
/// digits.
pub open spec fn switched(x: TlweView, key: SwitchKeyView, n_out: nat) -> TlweView {
    tlwe_sub(tlwe_trivial(n_out, x.body), switch_sum(x, key, n_out, key.rows.len()))
}

/// Key of the key switch between two scalar keys.
pub struct TlweKSKey {
    pub rows: Vec<Tlwe>,
    pub t: u32,
    pub base_bit: u32,
}

impl View for TlweKSKey {
    type V = SwitchKeyView;

    open spec fn view(&self) -> SwitchKeyView {
        SwitchKeyView {
            rows: tlwe_views(self.rows@),
            t: self.t as nat,
            base_bit: self.base_bit as nat,
        }
    }
}

impl TlweKSKey {
    /// Valid parameters, a whole number of rows per source coefficient, and every row of
    /// one mask length.
    pub open spec fn wf(&self) -> bool {
        &&& gadget_params_ok(self.t as nat, self.base_bit as nat)
        &&& self@.rows.len() >= 1
        &&& self@.rows.len() == self.spec_in_n() * self.t
        &&& self.spec_out_n() <= u32::MAX
        &&& self.spec_in_n() <= u32::MAX
        &&& forall|q: int|
            0 <= q < self@.rows.len() ==> (#[trigger] self@.rows[q]).mask.len() == self.spec_out_n()
    }

    /// Number of coefficients of the source key.
    pub open spec fn spec_in_n(&self) -> nat {
        self@.rows.len() / (self.t as nat)
    }

    /// Number of coefficients of the target key.
    pub open spec fn spec_out_n(&self) -> nat {
        self@.rows[0].mask.len()
    }

    /// Builds the key that switches from `from_key` to `into_key`: for every coefficient
    /// `s_i` of `from_key` and every digit `j`, a fresh sealing under `into_key` of
    /// `s_i * 2^(64 - (j + 1) * base_bit)`.
    pub fn new(from_key: &TlweKey, into_key: &TlweKey, t: u32, base_bit: u32) -> (key: Self)
        requires
            gadget_params_ok(t as nat, base_bit as nat),
            1 <= from_key@.len() <= u32::MAX,
            from_key@.len() * t <= usize::MAX,
            into_key@.len() <= u32::MAX,
        ensures
            key.wf(),
            key.t == t,
            key.base_bit == base_bit,
            key.spec_in_n() == from_key@.len(),
            key.spec_out_n() == into_key@.len(),
            switch_key_seals(key@, from_key@, into_key@, into_key@.len()),
            forall|i: int, j: int|
                0 <= i < from_key@.len() && 0 <= j < t ==> tlwe_phase(
                    #[trigger] key@.rows[i * t + j],
                    into_key@,
                ) == (from_key@[i] * digit_weight(base_bit as nat, j as nat)) % modulus(),
    {
        let n_in: usize = from_key.s.len();
        let mut rows: Vec<Tlwe> = Vec::new();
        let mut i: usize = 0;
        proof {
            assert(t <= 64 && base_bit <= 64) by (nonlinear_arith)
                requires
                    1 <= t,
                    1 <= base_bit,
                    t * base_bit <= 64,
            ;
            assert(0 * t == 0) by (nonlinear_arith);
        }
        while i < n_in
            invariant
                i <= n_in,
                n_in == from_key@.len(),
                gadget_params_ok(t as nat, base_bit as nat),
                t <= 64,
                base_bit <= 64,
                rows@.len() == i * t,
                forall|q: int| 0 <= q < rows@.len() ==> (#[trigger] rows@[q])@.mask.len() == into_key@.len(),
                forall|p: int, j: int|
                    0 <= p < i && 0 <= j < t ==> tlwe_phase(
                        (#[trigger] rows@[p * t + j])@,
                        into_key@,
                    ) == (from_key@[p] * digit_weight(base_bit as nat, j as nat)) % modulus(),
            decreases n_in - i,
        {
            let mut j: u32 = 0;
            proof {
                assert((i + 1) * t == i * t + t) by (nonlinear_arith);
            }
            while j < t
                invariant
                    j <= t,
                    i < n_in,
                    n_in == from_key@.len(),
                    gadget_params_ok(t as nat, base_bit as nat),
                    t <= 64,
                    base_bit <= 64,
                    (i + 1) * t == i * t + t,
                    rows@.len() == i * t + j,
                    forall|q: int|
                        0 <= q < rows@.len() ==> (#[trigger] rows@[q])@.mask.len() == into_key@.len(),
                    forall|p: int, d: int|
                        0 <= p < i && 0 <= d < t ==> tlwe_phase(
                            (#[trigger] rows@[p * t + d])@,
                            into_key@,
                        ) == (from_key@[p] * digit_weight(base_bit as nat, d as nat)) % modulus(),
                    forall|d: int|
                        0 <= d < j ==> tlwe_phase((#[trigger] rows@[i * t + d])@, into_key@) == (
                        from_key@[i as int] * digit_weight(base_bit as nat, d as nat)) % modulus(),
                decreases t - j,
            {
                proof {
                    assert(1 <= (j + 1) * base_bit <= t * base_bit) by (nonlinear_arith)
                        requires
                            0 <= j,
                            j + 1 <= t,
                            base_bit >= 1,
                    ;
                }
                let weight: u64 = pow2_word(64 - (j + 1) * base_bit);
                let c: u64 = from_key.s[i].wrapping_mul(weight);
                let ghost before = rows@;
                rows.push(Tlwe::new(Torus(c), into_key));
                proof {
                    assert forall|p: int, d: int| 0 <= p < i && 0 <= d < t implies tlwe_phase(
                        (#[trigger] rows@[p * t + d])@,
                        into_key@,
                    ) == (from_key@[p] * digit_weight(base_bit as nat, d as nat)) % modulus() by {
                        assert(p * t + t <= i * t) by (nonlinear_arith)
                            requires
                                p + 1 <= i,
                                t >= 0,
                        ;
                        assert(rows@[p * t + d] == before[p * t + d]);
                    }
                    assert forall|d: int| 0 <= d < j + 1 implies tlwe_phase(
                        (#[trigger] rows@[i * t + d])@,
                        into_key@,
                    ) == (from_key@[i as int] * digit_weight(base_bit as nat, d as nat))
                        % modulus() by {
                        if d < j {
                            assert(rows@[i * t + d] == before[i * t + d]);
                        }
                    }
                }
                j += 1;
            }
            i += 1;
        }
        let key = TlweKSKey { rows, t, base_bit };
        proof {
            assert(key@.rows.len() == n_in * t);
            assert(n_in * t >= 1) by (nonlinear_arith)
                requires
                    n_in >= 1,
                    t >= 1,
            ;
            assert(key@.rows.len() / (t as nat) == n_in) by {
                vstd::arithmetic::div_mod::lemma_div_multiples_vanish(n_in as int, t as int);
                assert(n_in * t == t * n_in) by (nonlinear_arith);
            }
            assert forall|q: int| 0 <= q < key@.rows.len() implies (#[trigger] key@.rows[q]).mask.len()
                == into_key@.len() by {
                assert(key@.rows[q] == key.rows@[q]@);
            }
            assert forall|p: int, d: int| 0 <= p < from_key@.len() && 0 <= d < t implies tlwe_phase(
                #[trigger] key@.rows[p * t + d],
                into_key@,
            ) == (from_key@[p] * digit_weight(base_bit as nat, d as nat)) % modulus() by {
                assert(p * t + t <= n_in * t) by (nonlinear_arith)
                    requires
                        p + 1 <= n_in,
                        t >= 0,
                ;
                assert(key@.rows[p * t + d] == key.rows@[p * t + d]@);
            }
            assert forall|q: int| 0 <= q < key@.rows.len() implies (#[trigger] key@.rows[q]).mask.len()
                == into_key@.len() && tlwe_phase(key@.rows[q], into_key@) == (from_key@[q / (
            t as int)] * crate::gadget::digit_weight(base_bit as nat, (q % (t as int)) as nat))
                % modulus() by {
                let p = q / (t as int);
                let d = q % (t as int);
                vstd::arithmetic::div_mod::lemma_fundamental_div_mod(q, t as int);
                vstd::arithmetic::div_mod::lemma_mod_bound(q, t as int);
                assert(0 <= p < n_in) by (nonlinear_arith)
                    requires
                        0 <= q < n_in * t,
                        q == t * p + d,
                        0 <= d < t,
                ;
                assert(p * t + d == q) by (nonlinear_arith)
                    requires
                        q == t * p + d,
                ;
                assert(tlwe_phase(key@.rows[p * t + d], into_key@) == (from_key@[p]
                    * crate::gadget::digit_weight(base_bit as nat, d as nat)) % modulus());
            }
        }
        key
    }

    /// Number of coefficients of the source key.
    pub fn in_lower_n(&self) -> (r: u32)
        requires
            self.wf(),
        ensures
            r == self.spec_in_n(),
    {
        (self.rows.len() / (self.t as usize)) as u32
    }

    /// Number of coefficients of the target key.
    pub fn out_lower_n(&self) -> (r: u32)
        requires
            self.wf(),
        ensures
            r == self.spec_out_n(),
    {
        proof {
            assert(self@.rows[0] == self.rows@[0]@);
        }
        self.rows[0].lower_n()
    }

    /// Number of digits of the decomposition.
    pub fn t(&self) -> (r: u32)
        ensures
            r == self.t,
    {
        self.t
    }

    /// Width of a digit of the decomposition, in bits.
    pub fn base_bit(&self) -> (r: u32)
        ensures
            r == self.base_bit,
    {
        self.base_bit
    }
}

impl Tlwe {
    /// Every entry multiplied by the integer `d`, modulo `2^64`.
    pub fn scaled(&self, d: u64) -> (r: Self)
        ensures
            r@ == tlwe_scaled(self@, d as int),
    {
        let mut a: Vec<Torus> = Vec::new();
        let mut i: usize = 0;
        while i < self.a.len()
            invariant
                i <= self.a@.len(),
                a@.len() == i,
                forall|j: int| 0 <= j < i ==> (#[trigger] a@[j])@ == (d * self.a@[j]@) % modulus(),
            decreases self.a@.len() - i,
        {
            proof {
                assert(d * self.a@[i as int]@ >= 0) by (nonlinear_arith)
                    requires
                        d >= 0,
                        self.a@[i as int]@ >= 0,
                ;
            }
            a.push(Torus(d.wrapping_mul(self.a[i].0)));
            i += 1;
        }
        proof {
            assert(d * self.b@ >= 0) by (nonlinear_arith)
                requires
                    d >= 0,
                    self.b@ >= 0,
            ;
        }
        let r = Tlwe { a, b: Torus(d.wrapping_mul(self.b.0)) };
        assert(r@.mask =~= tlwe_scaled(self@, d as int).mask);
        r
    }

    /// Switches `self` to the target key of `key`.
    pub fn key_switch(&self, key: &TlweKSKey) -> (r: Self)
        requires
            key.wf(),
            self@.mask.len() == key.spec_in_n(),
        ensures
            r@ == switched(self@, key@, key.spec_out_n()),
    {
        let n_out: u32 = key.out_lower_n();
        let t: usize = key.t as usize;
        let round: u64 = round_word(key.t, key.base_bit);
        let mut acc: Tlwe = Tlwe::zero_noiseless(n_out);
        let mut q: usize = 0;
        while q < key.rows.len()
            invariant
                q <= key.rows@.len(),
                key.wf(),
                self@.mask.len() == key.spec_in_n(),
                n_out == key.spec_out_n(),
                t == key.t,
                round == switch_round(key.t as nat, key.base_bit as nat),
                acc@.mask.len() == n_out,
                acc@ == switch_sum(self@, key@, n_out as nat, q as nat),
            decreases key.rows@.len() - q,
        {
            let i: usize = q / t;
            let j: u32 = (q % t) as u32;
            proof {
                assert(key@.rows.len() == key.rows@.len());
                assert(i < key.spec_in_n()) by (nonlinear_arith)
                    requires
                        q < key.spec_in_n() * t,
                        i == q / t,
                        t >= 1,
                ;
                assert(key@.rows[q as int] == key.rows@[q as int]@);
                assert(self@.mask[i as int] == self.a@[i as int]@);
            }
            let d: u64 = switch_digit_word(self.a[i].0, round, key.t, key.base_bit, j);
            let term = key.rows[q].scaled(d);
            acc.add_assign(&term);
            q += 1;
        }
        proof {
            assert(key@.rows.len() == key.rows@.len());
        }
        let plain = Tlwe::new_noiseless(self.b, n_out);
        plain.sub(&acc)
    }

    /// Stores `input` switched to the target key of `key` in `self`.
    pub fn key_switch_from(&mut self, input: &Self, key: &TlweKSKey)
        requires
            key.wf(),
            input@.mask.len() == key.spec_in_n(),
        ensures
            final(self)@ == switched(input@, key@, key.spec_out_n()),
    {
        *self = input.key_switch(key);
    }
}

/// The key-switching key `key` seals the source key `s_in` under the target key `s_out`:
/// row `i * t + j` has a mask of `n_out` entries and decrypts to `s_in[i]` times the
/// weight of digit `j`.
pub open spec fn switch_key_seals(
    key: SwitchKeyView,
    s_in: Seq<int>,
    s_out: Seq<int>,
    n_out: nat,
) -> bool {
    &&& gadget_params_ok(key.t, key.base_bit)
    &&& key.rows.len() == s_in.len() * key.t
    &&& forall|q: int|
        0 <= q < key.rows.len() ==> (#[trigger] key.rows[q]).mask.len() == n_out && tlwe_phase(
            key.rows[q],
            s_out,
        ) == (s_in[q / (key.t as int)] * crate::gadget::digit_weight(
            key.base_bit,
            (q % (key.t as int)) as nat,
        )) % modulus()
}

/// The inner product of a scaled mask is, modulo `2^64`, the scaled inner product.
proof fn lemma_dot_scaled(a: Seq<int>, s: Seq<int>, d: int)
    ensures
        crate::modular::dot(Seq::new(a.len(), |i: int| (d * a[i]) % modulus()), s) % modulus() == (d
            * crate::modular::dot(a, s)) % modulus(),
    decreases a.len(),
{
    let m = modulus();
    let scaled = Seq::new(a.len(), |i: int| (d * a[i]) % m);
    if a.len() == 0 || s.len() == 0 {
        assert(crate::modular::dot(scaled, s) == 0);
        assert(crate::modular::dot(a, s) == 0);
        assert(d * 0 == 0);
    } else {
        let a0 = a.drop_last();
        let s0 = s.drop_last();
        lemma_dot_scaled(a0, s0, d);
        assert(scaled.drop_last() =~= Seq::new(a0.len(), |i: int| (d * a0[i]) % m));
        let x = a.last();
        let k = s.last();
        assert(scaled.last() == (d * x) % m);
        vstd::arithmetic::div_mod::lemma_mul_mod_noop_left(d * x, k, m);
        vstd::arithmetic::div_mod::lemma_add_mod_noop(
            crate::modular::dot(scaled.drop_last(), s0),
            ((d * x) % m) * k,
            m,
        );
        vstd::arithmetic::div_mod::lemma_add_mod_noop(d * crate::modular::dot(a0, s0), (d * x) * k, m);
        assert(d * (crate::modular::dot(a0, s0) + x * k) == d * crate::modular::dot(a0, s0) + (d
            * x) * k) by (nonlinear_arith);
    }
}

/// A ciphertext times an integer decrypts to what it decrypts to, times that integer.
pub proof fn lemma_phase_scaled(y: TlweView, d: int, s: Seq<int>)
    ensures
        tlwe_phase(tlwe_scaled(y, d), s) == (d * tlwe_phase(y, s)) % modulus(),
{
    let m = modulus();
    lemma_dot_scaled(y.mask, s, d);
    let dy = crate::modular::dot(y.mask, s);
    let ds = crate::modular::dot(tlwe_scaled(y, d).mask, s);
    vstd::arithmetic::div_mod::lemma_sub_mod_noop((d * y.body) % m, ds, m);
    vstd::arithmetic::div_mod::lemma_mod_twice(d * y.body, m);
    vstd::arithmetic::div_mod::lemma_sub_mod_noop(d * y.body, d * dy, m);
    vstd::arithmetic::div_mod::lemma_mul_mod_noop_right(d, y.body - dy, m);
    assert(d * (y.body - dy) == d * y.body - d * dy) by (nonlinear_arith);
}

/// What the sum over the rows of the first `i` source coefficients and the first `j` rows
/// of the next decrypts to: the inner product of the first `i` mask entries with the
/// source key, plus source coefficient `i` times the first `j` weighted digits of mask
/// entry `i`, as a residue.
proof fn lemma_switch_sum_phase(
    x: TlweView,
    key: SwitchKeyView,
    s_in: Seq<int>,
    s_out: Seq<int>,
    n_out: nat,
    i: nat,
    j: nat,
)
    requires
        switch_key_seals(key, s_in, s_out, n_out),
        key.t * key.base_bit == 64,
        x.mask.len() == s_in.len(),
        crate::poly::torus::poly_in_range(x.mask),
        i <= s_in.len(),
        j <= key.t,
        i == s_in.len() ==> j == 0,
    ensures
        i * key.t + j <= key.rows.len(),
        switch_sum(x, key, n_out, i * key.t + j).mask.len() == n_out,
        tlwe_phase(switch_sum(x, key, n_out, i * key.t + j), s_out) == (crate::modular::dot(
            x.mask.take(i as int),
            s_in.take(i as int),
        ) + if j == 0 {
            0
        } else {
            s_in[i as int] * crate::gadget::switch_sum(x.mask[i as int], key.t, key.base_bit, j)
        }) % modulus(),
    decreases i, j,
{
    let m = modulus();
    let t = key.t;
    let bb = key.base_bit;
    let n_in = s_in.len();
    assert(i * t + j <= n_in * t) by (nonlinear_arith)
        requires
            i <= n_in,
            j <= t,
            i == n_in ==> j == 0,
    ;
    vstd::arithmetic::div_mod::lemma_small_mod(0nat, m as nat);
    if j > 0 {
        let q = (i * t + j - 1) as int;
        lemma_switch_sum_phase(x, key, s_in, s_out, n_out, i, (j - 1) as nat);
        assert(q / (t as int) == i && q % (t as int) == j - 1) by {
            vstd::arithmetic::div_mod::lemma_fundamental_div_mod_converse(
                q,
                t as int,
                i as int,
                j - 1,
            );
        }
        let a = x.mask[i as int];
        let dgt = switch_digit(a, t, bb, (j - 1) as nat);
        let g = crate::gadget::digit_weight(bb, (j - 1) as nat);
        let k0 = s_in[i as int];
        let row = key.rows[q];
        let before = switch_sum(x, key, n_out, q as nat);
        let term = tlwe_scaled(row, dgt);
        assert((i * t + j) as nat == (q + 1) as nat);
        assert(switch_sum(x, key, n_out, (q + 1) as nat) == tlwe_add(before, term));
        assert(row.mask.len() == n_out);
        crate::tlwe::sample::lemma_phase_linear(before, term, s_out);
        lemma_phase_scaled(row, dgt, s_out);
        assert(tlwe_phase(row, s_out) == (k0 * g) % m);
        vstd::arithmetic::div_mod::lemma_mul_mod_noop_right(dgt, k0 * g, m);
        let d0 = crate::modular::dot(x.mask.take(i as int), s_in.take(i as int));
        let part = if j - 1 == 0 {
            0
        } else {
            k0 * crate::gadget::switch_sum(a, t, bb, (j - 1) as nat)
        };
        vstd::arithmetic::div_mod::lemma_add_mod_noop(d0 + part, dgt * (k0 * g), m);
        assert(crate::gadget::switch_sum(a, t, bb, 0) == 0);
        assert(k0 * crate::gadget::switch_sum(a, t, bb, j) == k0 * crate::gadget::switch_sum(
            a,
            t,
            bb,
            (j - 1) as nat,
        ) + dgt * (k0 * g)) by (nonlinear_arith)
            requires
                crate::gadget::switch_sum(a, t, bb, j) == crate::gadget::switch_sum(
                    a,
                    t,
                    bb,
                    (j - 1) as nat,
                ) + g * dgt,
        ;
        assert(k0 * 0 == 0);
    } else if i > 0 {
        let p = (i - 1) as nat;
        lemma_switch_sum_phase(x, key, s_in, s_out, n_out, p, t);
        assert(p * t + t == i * t + 0) by (nonlinear_arith)
            requires
                p + 1 == i,
        ;
        let a = x.mask[p as int];
        crate::gadget::lemma_switch_digits_recompose(a, t, bb);
        crate::modular::lemma_dot_step(x.mask, s_in, p as int);
        assert(s_in[p as int] * a == a * s_in[p as int]) by (nonlinear_arith);
    } else {
        assert(0 * t + 0 == 0) by (nonlinear_arith);
        assert(x.mask.take(0).len() == 0);
        crate::tlwe::sample::lemma_trivial_phase(n_out, 0, s_out);
        assert(crate::modular::dot(x.mask.take(0), s_in.take(0)) == 0);
    }
}

/// Key switching: where the digits of the key cover all 64 bits, the switched ciphertext
/// decrypts under the target key to what the ciphertext decrypts to under the source key.
pub proof fn lemma_switched_phase(
    x: TlweView,
    key: SwitchKeyView,
    s_in: Seq<int>,
    s_out: Seq<int>,
    n_out: nat,
)
    requires
        switch_key_seals(key, s_in, s_out, n_out),
        key.t * key.base_bit == 64,
        x.mask.len() == s_in.len(),
        crate::poly::torus::poly_in_range(x.mask),
        0 <= x.body < modulus(),
    ensures
        tlwe_phase(switched(x, key, n_out), s_out) == tlwe_phase(x, s_in),
{
    let m = modulus();
    lemma_switch_sum_phase(x, key, s_in, s_out, n_out, s_in.len(), 0);
    assert(s_in.len() * key.t + 0 == key.rows.len());
    let sum = switch_sum(x, key, n_out, key.rows.len());
    let plain = tlwe_trivial(n_out, x.body);
    crate::tlwe::sample::lemma_trivial_phase(n_out, x.body, s_out);
    assert(plain.mask.len() == n_out);
    crate::tlwe::sample::lemma_phase_linear(plain, sum, s_out);
    assert(x.mask.take(s_in.len() as int) =~= x.mask);
    assert(s_in.take(s_in.len() as int) =~= s_in);
    let d = crate::modular::dot(x.mask, s_in);
    vstd::arithmetic::div_mod::lemma_sub_mod_noop(x.body, d, m);
    vstd::arithmetic::div_mod::lemma_sub_mod_noop(x.body, d % m, m);
    vstd::arithmetic::div_mod::lemma_mod_twice(d, m);
}

} // verus!
