use vstd::prelude::*;
use vstd::arithmetic::power2::pow2;
use crate::poly::torus::TorusPolynomial;
use crate::poly::torus::poly_const;
use crate::rotate::left_rotation;
use crate::torus::Torus;
use crate::torus::encode;
use crate::tree::cdemux_tree;
use crate::tree::cdemux_tree_passes;
use crate::tree::gadgets;
use crate::tree::selectors_wf;
use crate::trgsw::dft::TrgswDft;
use crate::trgsw::dft::bank_wf;
use crate::trgsw::sample::bank;
use crate::trlwe::key::TrlweKey;
use crate::poly::torus::constant_poly;
use crate::trlwe::sample::Trlwe;
use crate::trlwe::sample::TrlweArray;
use crate::trlwe::sample::same_shape;
use crate::trlwe::sample::trlwe_add;
use crate::trlwe::sample::trlwe_phase;
use crate::trlwe::sample::trlwe_trivial;

verus! {

/// The plaintext of a fresh mask: the count one, at a precision of `count_bits` bits, in
/// slot 0 and zero in every other slot.
pub open spec fn unit_plain(n: nat, count_bits: nat) -> Seq<int> {
    constant_poly(n, encode(1, count_bits))
}

/// The run after a mask is spread: polynomial 0 is rotated to the left under the `low`
/// first selectors, and the run is then distributed under the others.
pub open spec fn spread_run(sel: Seq<TrgswDft>, v: Seq<Seq<Seq<int>>>, low: int) -> Seq<
    Seq<Seq<int>>,
> {
    cdemux_tree_passes(
        gadgets(sel.subrange(low, sel.len() as int)),
        v.update(0, left_rotation(gadgets(sel.subrange(0, low)), v[0], low as nat)),
        (sel.len() - low) as nat,
    )
}

/// The table after a mask is added to it, slot by slot, as far as the shorter of the two
/// reaches.
pub open spec fn accumulated(t: Seq<Seq<Seq<int>>>, m: Seq<Seq<Seq<int>>>) -> Seq<Seq<Seq<int>>> {
    Seq::new(t.len(), |i: int| if i < m.len() { trlwe_add(t[i], m[i]) } else { t[i] })
}

/// The views of a run of tables.
pub open spec fn tables_view(v: Seq<TrlweArray>) -> Seq<Seq<Seq<Seq<int>>>> {
    Seq::new(v.len(), |s: int| v[s]@)
}

/// The tables after the tables `part` are added to them, table by table and slot by slot.
pub open spec fn merged(acc: Seq<Seq<Seq<Seq<int>>>>, part: Seq<Seq<Seq<Seq<int>>>>) -> Seq<
    Seq<Seq<Seq<int>>>,
> {
    Seq::new(acc.len(), |s: int| if s < part.len() { accumulated(acc[s], part[s]) } else { acc[s] })
}

/// Every table of the run holds well-formed ciphertexts of `k` masks and `n` coefficients.
pub open spec fn tables_wf(v: Seq<TrlweArray>, k: nat, n: nat) -> bool {
    forall|s: int| 0 <= s < v.len() ==> bank_wf(#[trigger] v[s].items@, k, n)
}

/// The plaintext of a fresh mask.
pub fn unit_polynomial(upper_n: u32, count_bits: usize) -> (r: TorusPolynomial)
    requires
        1 <= upper_n,
        1 <= count_bits < 32,
    ensures
        r@ == unit_plain(upper_n as nat, count_bits as nat),
{
    proof {
        vstd::arithmetic::power2::lemma_pow2_strictly_increases(0, count_bits as nat);
        vstd::arithmetic::power2::lemma2_to64();
    }
    let one = Torus::from_unsigned(1, count_bits);
    let mut coeffs: Vec<Torus> = Vec::new();
    coeffs.push(one);
    let mut j: u32 = 1;
    while j < upper_n
        invariant
            1 <= j <= upper_n,
            coeffs@.len() == j,
            coeffs@[0] == one,
            forall|q: int| 1 <= q < j ==> coeffs@[q].0 == 0,
        decreases upper_n - j,
    {
        coeffs.push(Torus(0));
        j += 1;
    }
    let r = TorusPolynomial::from_vec(coeffs);
    assert(r@ =~= unit_plain(upper_n as nat, count_bits as nat));
    r
}

/// A fresh mask of `count` polynomials sealed under `key`: it decrypts to the count one in
/// slot 0 of polynomial 0 and to zero everywhere else.
pub fn unit_mask(count: usize, key: &TrlweKey, count_bits: usize) -> (r: TrlweArray)
    requires
        key.wf(),
        1 <= key@[0].len(),
        1 <= count_bits < 32,
    ensures
        r@.len() == count,
        bank_wf(r.items@, key@.len(), key@[0].len()),
        forall|i: int|
            0 <= i < count ==> trlwe_phase(#[trigger] r@[i], key@) == if i == 0 {
                unit_plain(key@[0].len(), count_bits as nat)
            } else {
                poly_const(key@[0].len(), 0)
            },
{
    let upper_n = key.upper_n();
    let mut items: Vec<Trlwe> = Vec::new();
    let mut i: usize = 0;
    while i < count
        invariant
            i <= count,
            key.wf(),
            upper_n == key@[0].len(),
            1 <= upper_n,
            1 <= count_bits < 32,
            items@.len() == i,
            bank_wf(items@, key@.len(), key@[0].len()),
            forall|j: int|
                0 <= j < i ==> trlwe_phase((#[trigger] items@[j])@, key@) == if j == 0 {
                    unit_plain(key@[0].len(), count_bits as nat)
                } else {
                    poly_const(key@[0].len(), 0)
                },
        decreases count - i,
    {
        let m = if i == 0 {
            unit_polynomial(upper_n, count_bits)
        } else {
            TorusPolynomial::zeroed(upper_n)
        };
        items.push(Trlwe::new(m, key));
        i += 1;
    }
    let r = TrlweArray { items };
    assert forall|j: int| 0 <= j < count implies trlwe_phase(#[trigger] r@[j], key@) == if j == 0 {
        unit_plain(key@[0].len(), count_bits as nat)
    } else {
        poly_const(key@[0].len(), 0)
    } by {
        assert(r@[j] == r.items@[j]@);
    }
    r
}

/// A fresh mask of `count` trivial ciphertexts: the count one in slot 0 of polynomial 0
/// and zero everywhere else.
pub fn unit_mask_noiseless(count: usize, k: u32, upper_n: u32, count_bits: usize) -> (r:
    TrlweArray)
    requires
        k < u32::MAX,
        1 <= upper_n,
        1 <= count_bits < 32,
    ensures
        r@.len() == count,
        bank_wf(r.items@, k as nat, upper_n as nat),
        forall|i: int|
            0 <= i < count ==> #[trigger] r@[i] == trlwe_trivial(
                k as nat,
                if i == 0 {
                    unit_plain(upper_n as nat, count_bits as nat)
                } else {
                    poly_const(upper_n as nat, 0)
                },
            ),
{
    let mut items: Vec<Trlwe> = Vec::new();
    let mut i: usize = 0;
    while i < count
        invariant
            i <= count,
            k < u32::MAX,
            1 <= upper_n,
            1 <= count_bits < 32,
            items@.len() == i,
            bank_wf(items@, k as nat, upper_n as nat),
            forall|j: int|
                0 <= j < i ==> (#[trigger] items@[j])@ == trlwe_trivial(
                    k as nat,
                    if j == 0 {
                        unit_plain(upper_n as nat, count_bits as nat)
                    } else {
                        poly_const(upper_n as nat, 0)
                    },
                ),
        decreases count - i,
    {
        let m = if i == 0 {
            unit_polynomial(upper_n, count_bits)
        } else {
            TorusPolynomial::zeroed(upper_n)
        };
        items.push(Trlwe::new_noiseless(m, k, upper_n));
        i += 1;
    }
    let r = TrlweArray { items };
    assert forall|j: int| 0 <= j < count implies #[trigger] r@[j] == trlwe_trivial(
        k as nat,
        if j == 0 {
            unit_plain(upper_n as nat, count_bits as nat)
        } else {
            poly_const(upper_n as nat, 0)
        },
    ) by {
        assert(r@[j] == r.items@[j]@);
    }
    r
}

/// Spreads a mask over its run under the selectors of an extended address, least
/// significant first: the `low` first selectors rotate polynomial 0 to the left, the
/// others distribute it over the run. A mask that holds a count in slot 0 of polynomial 0
/// ends up holding it in the slot that the address names.
pub fn spread(mask: &mut Vec<Trlwe>, sel: &[TrgswDft], low: usize)
    requires
        old(mask)@.len() >= 1,
        low <= sel@.len(),
        sel@.len() - low < usize::BITS,
        old(mask)@[0].wf(),
        bank_wf(old(mask)@, old(mask)@[0].spec_k(), old(mask)@[0].spec_n()),
        selectors_wf(sel@, old(mask)@[0].spec_k(), old(mask)@[0].spec_n()),
        pow2(low as nat) <= 2 * old(mask)@[0].spec_n(),
        2 * old(mask)@[0].spec_n() <= u32::MAX,
    ensures
        bank(final(mask)@) == spread_run(sel@, bank(old(mask)@), low as int),
        final(mask)@.len() == old(mask)@.len(),
        bank_wf(final(mask)@, old(mask)@[0].spec_k(), old(mask)@[0].spec_n()),
{
    let ghost k = mask@[0].spec_k();
    let ghost n = mask@[0].spec_n();
    let ghost start = bank(mask@);
    let (lower, upper) = sel.split_at(low);
    proof {
        assert(selectors_wf(lower@, k, n)) by {
            assert forall|i: int| 0 <= i < lower@.len() implies (#[trigger] lower@[i]).wf()
                && lower@[i].spec_k() == k && lower@[i].spec_n() == n by {
                assert(lower@[i] == sel@[i]);
            }
        }
        assert(selectors_wf(upper@, k, n)) by {
            assert forall|i: int| 0 <= i < upper@.len() implies (#[trigger] upper@[i]).wf()
                && upper@[i].spec_k() == k && upper@[i].spec_n() == n by {
                assert(upper@[i] == sel@[low + i]);
            }
        }
    }
    let mut first = mask[0].clone();
    proof {
        assert(first@ == mask@[0]@);
        assert(first.wf());
    }
    first.rotate_left(lower);
    let ghost before = mask@;
    mask[0] = first;
    proof {
        assert(bank(mask@) =~= start.update(
            0,
            left_rotation(gadgets(sel@.subrange(0, low as int)), start[0], low as nat),
        ));
        assert(bank_wf(mask@, k, n)) by {
            assert forall|i: int| 0 <= i < mask@.len() implies (#[trigger] mask@[i]).wf()
                && mask@[i].spec_k() == k && mask@[i].spec_n() == n by {
                if i != 0 {
                    assert(mask@[i] == before[i]);
                }
            }
        }
        assert(crate::tree::tree_fits(mask@, upper@));
    }
    cdemux_tree(mask, upper);
}

/// Adds a mask to a table, slot by slot, as far as the shorter of the two reaches.
pub fn accumulate(table: &mut Vec<Trlwe>, mask: &Vec<Trlwe>)
    requires
        forall|i: int|
            0 <= i < old(table)@.len() && i < mask@.len() ==> same_shape(
                (#[trigger] old(table)@[i])@,
                mask@[i]@,
            ),
    ensures
        bank(final(table)@) == accumulated(bank(old(table)@), bank(mask@)),
        final(table)@.len() == old(table)@.len(),
        forall|k: nat, n: nat|
            bank_wf(old(table)@, k, n) ==> #[trigger] bank_wf(final(table)@, k, n),
{
    let ghost start = table@;
    let mut i: usize = 0;
    while i < table.len() && i < mask.len()
        invariant
            table@.len() == start.len(),
            i <= table@.len(),
            i <= mask@.len(),
            forall|j: int|
                0 <= j < start.len() && j < mask@.len() ==> same_shape(
                    (#[trigger] start[j])@,
                    mask@[j]@,
                ),
            forall|j: int| 0 <= j < i ==> (#[trigger] table@[j])@ == trlwe_add(start[j]@, mask@[j]@),
            forall|j: int| 0 <= j < i ==> same_shape((#[trigger] table@[j])@, start[j]@),
            forall|j: int| i <= j < table@.len() ==> table@[j] == start[j],
        decreases table@.len() - i,
    {
        proof {
            assert(table@[i as int] == start[i as int]);
            assert(same_shape(start[i as int]@, mask@[i as int]@));
        }
        let sum = table[i].add(&mask[i]);
        table[i] = sum;
        i += 1;
    }
    proof {
        assert(bank(table@) =~= accumulated(bank(start), bank(mask@)));
        assert forall|k: nat, n: nat| bank_wf(start, k, n) implies #[trigger] bank_wf(
            table@,
            k,
            n,
        ) by {
            assert forall|j: int| 0 <= j < table@.len() implies (#[trigger] table@[j]).wf()
                && table@[j].spec_k() == k && table@[j].spec_n() == n by {
                assert(start[j].wf());
                if j < i {
                    crate::trlwe::sample::lemma_shape_carries(table@[j]@, start[j]@, k, n);
                }
            }
        }
    }
}

/// Adds the tables `part` to the tables `acc`, table by table and slot by slot: the one
/// step that combines what the workers of a training run have gathered.
pub fn merge(acc: &mut Vec<TrlweArray>, part: &Vec<TrlweArray>)
    requires
        forall|s: int, i: int|
            0 <= s < old(acc)@.len() && s < part@.len() && 0 <= i < old(acc)@[s]@.len() && i
                < part@[s]@.len() ==> same_shape(
                #[trigger] old(acc)@[s].items@[i]@,
                #[trigger] part@[s].items@[i]@,
            ),
    ensures
        tables_view(final(acc)@) == merged(tables_view(old(acc)@), tables_view(part@)),
        final(acc)@.len() == old(acc)@.len(),
        forall|k: nat, n: nat|
            tables_wf(old(acc)@, k, n) ==> #[trigger] tables_wf(final(acc)@, k, n),
{
    let ghost start = acc@;
    let mut s: usize = 0;
    while s < acc.len() && s < part.len()
        invariant
            acc@.len() == start.len(),
            s <= acc@.len(),
            s <= part@.len(),
            forall|t: int, i: int|
                0 <= t < start.len() && t < part@.len() && 0 <= i < start[t]@.len() && i
                    < part@[t]@.len() ==> same_shape(
                    #[trigger] start[t].items@[i]@,
                    #[trigger] part@[t].items@[i]@,
                ),
            forall|t: int| 0 <= t < s ==> (#[trigger] acc@[t])@ == accumulated(start[t]@, part@[t]@),
            forall|t: int, k: nat, n: nat|
                0 <= t < s && bank_wf(start[t].items@, k, n) ==> #[trigger] bank_wf(
                    acc@[t].items@,
                    k,
                    n,
                ),
            forall|t: int| s <= t < acc@.len() ==> acc@[t] == start[t],
        decreases acc@.len() - s,
    {
        let mut table = acc[s].clone();
        proof {
            assert(table@ == start[s as int]@);
            assert forall|i: int| 0 <= i < table.items@.len() && i < part@[s as int].items@.len() implies same_shape(
                (#[trigger] table.items@[i])@,
                part@[s as int].items@[i]@,
            ) by {
                assert(table@[i] == start[s as int]@[i]);
                assert(same_shape(start[s as int].items@[i]@, part@[s as int].items@[i]@));
            }
        }
        let ghost copied = table.items@;
        accumulate(&mut table.items, &part[s].items);
        proof {
            assert(bank(copied) =~= start[s as int]@);
            assert(bank(part@[s as int].items@) =~= part@[s as int]@);
            assert(table@ =~= bank(table.items@));
        }
        acc[s] = table;
        s += 1;
    }
    proof {
        assert(tables_view(acc@) =~= merged(tables_view(start), tables_view(part@)));
        assert forall|k: nat, n: nat| tables_wf(start, k, n) implies #[trigger] tables_wf(
            acc@,
            k,
            n,
        ) by {
            assert forall|t: int| 0 <= t < acc@.len() implies bank_wf(
                #[trigger] acc@[t].items@,
                k,
                n,
            ) by {
                assert(bank_wf(start[t].items@, k, n));
            }
        }
    }
}

/// Every table of the run has `slots` ciphertexts, each of `k` masks of `n` coefficients
/// in range.
pub open spec fn tables_ok(v: Seq<Seq<Seq<Seq<int>>>>, slots: nat, k: nat, n: nat) -> bool {
    forall|s: int, i: int|
        0 <= s < v.len() && 0 <= i < slots ==> v[s].len() == slots && crate::ideal::ct_ok(
            #[trigger] v[s][i],
            k,
            n,
        )
}

/// Adding two ciphertexts to a third gives one result in either order.
pub proof fn lemma_add_swaps(
    a: Seq<Seq<int>>,
    x: Seq<Seq<int>>,
    y: Seq<Seq<int>>,
    k: nat,
    n: nat,
)
    requires
        crate::trlwe::sample::trlwe_shape(a, k, n),
        crate::trlwe::sample::trlwe_shape(x, k, n),
        crate::trlwe::sample::trlwe_shape(y, k, n),
    ensures
        trlwe_add(trlwe_add(a, x), y) == trlwe_add(trlwe_add(a, y), x),
{
    assert forall|c: int| 0 <= c <= k implies #[trigger] trlwe_add(trlwe_add(a, x), y)[c]
        =~= trlwe_add(trlwe_add(a, y), x)[c] by {
        assert(a[c].len() == n && x[c].len() == n && y[c].len() == n);
        assert forall|i: int| 0 <= i < n implies crate::torus::wrap_add(
            crate::torus::wrap_add(a[c][i], x[c][i]),
            y[c][i],
        ) == crate::torus::wrap_add(crate::torus::wrap_add(a[c][i], y[c][i]), x[c][i]) by {
            crate::modular::lemma_mod_add_left(a[c][i] + x[c][i], y[c][i]);
            crate::modular::lemma_mod_add_left(a[c][i] + y[c][i], x[c][i]);
        }
    }
    assert(trlwe_add(trlwe_add(a, x), y) =~= trlwe_add(trlwe_add(a, y), x));
}

/// Merging the tables of two workers into the same tables gives the same tables in
/// either order, bit for bit.
pub proof fn lemma_merge_order(
    acc: Seq<Seq<Seq<Seq<int>>>>,
    p: Seq<Seq<Seq<Seq<int>>>>,
    q: Seq<Seq<Seq<Seq<int>>>>,
    slots: nat,
    k: nat,
    n: nat,
)
    requires
        acc.len() == p.len(),
        acc.len() == q.len(),
        tables_ok(acc, slots, k, n),
        tables_ok(p, slots, k, n),
        tables_ok(q, slots, k, n),
        slots >= 1,
    ensures
        merged(merged(acc, p), q) == merged(merged(acc, q), p),
{
    let left = merged(merged(acc, p), q);
    let right = merged(merged(acc, q), p);
    assert forall|s: int| 0 <= s < acc.len() implies #[trigger] left[s] =~= right[s] by {
        assert(crate::ideal::ct_ok(acc[s][0], k, n));
        assert(crate::ideal::ct_ok(p[s][0], k, n));
        assert(crate::ideal::ct_ok(q[s][0], k, n));
        assert forall|i: int| 0 <= i < slots implies #[trigger] left[s][i] == right[s][i] by {
            assert(crate::ideal::ct_ok(acc[s][i], k, n));
            assert(crate::ideal::ct_ok(p[s][i], k, n));
            assert(crate::ideal::ct_ok(q[s][i], k, n));
            lemma_add_swaps(acc[s][i], p[s][i], q[s][i], k, n);
        }
    }
    assert(left =~= right);
}

} // verus!
