use vstd::prelude::*;
use vstd::arithmetic::div_mod::{lemma_fundamental_div_mod, lemma_fundamental_div_mod_converse};

verus! {

/// A rotation in fractional revolutions, held exactly as `num / den`.
pub struct Rot {
    pub num: i128,
    pub den: u64,
}

impl View for Rot {
    type V = (int, int);

    open spec fn view(&self) -> (int, int) {
        (self.num as int, self.den as int)
    }
}

/// Two fractions `a.0 / a.1` and `b.0 / b.1` stand for the same number.
pub open spec fn same_value(a: (int, int), b: (int, int)) -> bool {
    a.0 * b.1 == b.0 * a.1
}

/// The rotation `-r`.
pub open spec fn neg(r: (int, int)) -> (int, int) {
    (-r.0, r.1)
}

/// The rotation of a gear with `teeth` teeth meshed against a driver with
/// `in_teeth` teeth that turns by `r`: `r * (in_teeth / teeth) * -1`.
/// Where `in_teeth` divides the denominator, it is cancelled out.
pub open spec fn own_rot(r: (int, int), in_teeth: int, teeth: int) -> (int, int) {
    if r.1 % in_teeth == 0 {
        (-r.0, r.1 / in_teeth * teeth)
    } else {
        (-r.0 * in_teeth, r.1 * teeth)
    }
}

/// The index among `k` symbols that a rotation selects: the rotation is
/// brought into `[0, 1)` and scaled by `k`.
pub open spec fn symbol_index(r: (int, int), k: int) -> int {
    ((r.0 % r.1) * k) / r.1
}

/// An ender that turns by `r` has made at least one full revolution.
pub open spec fn fires(r: (int, int)) -> bool {
    r.0 >= r.1 || -r.0 >= r.1
}

/// What every rotation handed down a gear train satisfies: the driver's
/// teeth divide the denominator, what is left fits in 32 bits, and the
/// numerator in 64 bits.
pub open spec fn in_train(r: (int, int), in_teeth: int) -> bool {
    &&& 0 < in_teeth <= u32::MAX
    &&& 0 < r.1
    &&& r.1 % in_teeth == 0
    &&& r.1 / in_teeth <= u32::MAX
    &&& -0x8000_0000_0000_0000 <= r.0 <= 0x8000_0000_0000_0000
}

/// `own_rot` is the ratio formula `r * (in_teeth / teeth) * -1`.
pub proof fn lemma_own_rot_ratio(r: (int, int), in_teeth: int, teeth: int)
    requires
        r.1 > 0,
        in_teeth > 0,
        teeth > 0,
    ensures
        own_rot(r, in_teeth, teeth).1 > 0,
        same_value(own_rot(r, in_teeth, teeth), (-r.0 * in_teeth, r.1 * teeth)),
{
    if r.1 % in_teeth == 0 {
        lemma_fundamental_div_mod(r.1, in_teeth);
        let q = r.1 / in_teeth;
        assert(r.1 == in_teeth * q);
        assert(q > 0) by (nonlinear_arith)
            requires
                r.1 == in_teeth * q,
                r.1 > 0,
                in_teeth > 0,
        ;
        assert(q * teeth > 0) by (nonlinear_arith)
            requires
                q > 0,
                teeth > 0,
        ;
        assert(-r.0 * (r.1 * teeth) == (-r.0 * in_teeth) * (q * teeth)) by (nonlinear_arith)
            requires
                r.1 == in_teeth * q,
        ;
    } else {
        assert(r.1 * teeth > 0) by (nonlinear_arith)
            requires
                r.1 > 0,
                teeth > 0,
        ;
    }
}

/// A gear inside a train hands its children rotations that stay in the train.
pub proof fn lemma_own_rot_in_train(r: (int, int), in_teeth: int, teeth: int)
    requires
        in_train(r, in_teeth),
        0 < teeth <= u32::MAX,
    ensures
        in_train(own_rot(r, in_teeth, teeth), teeth),
        in_train(neg(own_rot(r, in_teeth, teeth)), teeth),
        own_rot(r, in_teeth, teeth) == (-r.0, r.1 / in_teeth * teeth),
{
    let q = r.1 / in_teeth;
    lemma_fundamental_div_mod(r.1, in_teeth);
    assert(q >= 0) by (nonlinear_arith)
        requires
            r.1 == in_teeth * q + r.1 % in_teeth,
            r.1 % in_teeth == 0,
            r.1 > 0,
            in_teeth > 0,
    ;
    assert(q > 0) by (nonlinear_arith)
        requires
            r.1 == in_teeth * q,
            r.1 > 0,
            in_teeth > 0,
    ;
    assert(q * teeth > 0) by (nonlinear_arith)
        requires
            q > 0,
            teeth > 0,
    ;
    lemma_fundamental_div_mod_converse(q * teeth, teeth, q, 0);
}

/// `self_rot`: the rotation of a gear with `sn` teeth driven by `rot` through
/// a gear with `n` teeth.
pub fn self_rot(rot: Rot, n: u32, sn: u32) -> (r: Rot)
    requires
        in_train(rot@, n as int),
        sn > 0,
    ensures
        r@ == own_rot(rot@, n as int, sn as int),
        in_train(r@, sn as int),
{
    proof {
        lemma_own_rot_in_train(rot@, n as int, sn as int);
        let q = rot.den / (n as u64);
        assert(q * sn <= u32::MAX * u32::MAX) by (nonlinear_arith)
            requires
                0 <= q <= u32::MAX,
                0 <= sn <= u32::MAX,
        ;
    }
    Rot { num: -rot.num, den: rot.den / (n as u64) * (sn as u64) }
}

/// The index among `k` symbols that `rot` selects.
pub fn select(rot: &Rot, k: usize) -> (i: usize)
    requires
        rot.den > 0,
        rot.num > i128::MIN,
        k > 0,
    ensures
        i == symbol_index(rot@, k as int),
        i < k,
{
    let d = rot.den as u128;
    let a: u128 = if rot.num >= 0 {
        rot.num as u128
    } else {
        (-rot.num) as u128
    };
    let rem = a % d;
    let m: u128 = if rot.num >= 0 || rem == 0 {
        rem
    } else {
        d - rem
    };
    proof {
        let q = a as int / d as int;
        lemma_fundamental_div_mod(a as int, d as int);
        if rot.num >= 0 {
        } else if rem == 0 {
            assert(rot.num as int == (d as int) * (-q)) by (nonlinear_arith)
                requires
                    a as int == (d as int) * q + rem as int,
                    rot.num as int == -(a as int),
                    rem == 0,
            ;
            lemma_fundamental_div_mod_converse(rot.num as int, d as int, -q, 0);
        } else {
            assert(rot.num as int == (d as int) * (-q - 1) + m as int) by (nonlinear_arith)
                requires
                    a as int == (d as int) * q + rem as int,
                    rot.num as int == -(a as int),
                    m as int == d as int - rem as int,
            ;
            lemma_fundamental_div_mod_converse(rot.num as int, d as int, -q - 1, m as int);
        }
        assert(m < d);
        assert(m * (k as u128) < (d as int) * (k as int)) by (nonlinear_arith)
            requires
                m < d,
                k > 0,
        ;
        assert((d as int) * (k as int) <= u64::MAX * u64::MAX) by (nonlinear_arith)
            requires
                d <= u64::MAX,
                k <= u64::MAX,
        ;
    }
    let p = m * (k as u128);
    let i = p / d;
    proof {
        lemma_fundamental_div_mod(p as int, d as int);
        assert(i < k) by (nonlinear_arith)
            requires
                p as int == (d as int) * (i as int) + (p % d) as int,
                p % d >= 0,
                p < (d as int) * (k as int),
                d > 0,
        ;
    }
    i as usize
}

/// Whether an ender that turns by `rot` has made a full revolution.
pub fn is_done(rot: &Rot) -> (b: bool)
    requires
        rot.num > i128::MIN,
    ensures
        b == fires(rot@),
{
    rot.num >= rot.den as i128 || -rot.num >= rot.den as i128
}

} // verus!
