use vstd::prelude::*;
use vstd::arithmetic::power2::{pow2, lemma_pow2_pos, lemma_pow2_adds};
use crate::fixed::{FixedPoint, fits, trunc_div, power_of_two, trunc_div_wide, lemma_pow2_128};

verus! {

/// A source of square roots, supplied by the caller (a table or an iterative
/// method on a target without floating point).
pub trait SquareRootState<T> {
    fn sqrt(&self, val: T) -> T;
}

/// A source of sine and cosine, supplied by the caller; `sin_cos` returns
/// `(sin, cos)`.
pub trait TrigonometryState<T> {
    fn sin_cos(&self, val: T) -> (T, T);
}

/// Fixed-point scales that the transforms accept: every scale valid for `i64`.
pub open spec fn transform_scale(q: nat) -> bool {
    q <= 64
}

/// The fixed-point product of raw values `a` and `b` at scale `q`, rounded
/// toward zero back to scale `q`.
pub open spec fn scaled_mul(a: int, b: int, q: nat) -> int {
    trunc_div(a * b, pow2(q) as int)
}

/// A pair of fixed-point components.
#[derive(Clone, Copy)]
pub struct Vector2<const Q: u32> {
    pub x: FixedPoint<i64, Q>,
    pub y: FixedPoint<i64, Q>,
}

impl<const Q: u32> Vector2<Q> {
    /// The raw components.
    pub open spec fn raw(self) -> (int, int) {
        (self.x.raw_int(), self.y.raw_int())
    }
}

/// `(cos·a − sin·b, sin·a + cos·b)` in fixed point: the vector `(a, b)` turned
/// by the angle whose sine and cosine are given.
pub open spec fn rotation(a: int, b: int, sin: int, cos: int, q: nat) -> (int, int) {
    (scaled_mul(cos, a, q) - scaled_mul(sin, b, q), scaled_mul(sin, a, q) + scaled_mul(cos, b, q))
}

/// Multiplying by one (raw `2^q`) at scale `q` leaves a raw value unchanged.
proof fn lemma_scaled_mul_one(a: int, q: nat)
    ensures
        scaled_mul(pow2(q) as int, a, q) == a,
{
    lemma_pow2_pos(q);
    let p = pow2(q) as int;
    let x = p * a;
    if a >= 0 {
        assert(x >= 0) by (nonlinear_arith) requires p > 0, a >= 0, x == p * a;
        vstd::arithmetic::div_mod::lemma_div_multiples_vanish(a, p);
    } else {
        assert(-x == p * (-a)) by (nonlinear_arith) requires x == p * a;
        assert(x < 0) by (nonlinear_arith) requires p > 0, a < 0, x == p * a;
        vstd::arithmetic::div_mod::lemma_div_multiples_vanish(-a, p);
    }
}

/// Multiplying by zero gives zero.
proof fn lemma_scaled_mul_zero(a: int, q: nat)
    ensures
        scaled_mul(0, a, q) == 0,
{
    lemma_pow2_pos(q);
}

/// At angle zero (sine `0`, cosine one) the rotation leaves every vector as it
/// is; at a quarter turn (sine one, cosine `0`) it maps `(a, b)` to `(-b, a)`.
pub proof fn lemma_rotation_identity_and_quarter_turn(a: int, b: int, q: nat)
    ensures
        rotation(a, b, 0, pow2(q) as int, q) == (a, b),
        rotation(a, b, pow2(q) as int, 0, q) == (-b, a),
{
    lemma_scaled_mul_one(a, q);
    lemma_scaled_mul_one(b, q);
    lemma_scaled_mul_zero(a, q);
    lemma_scaled_mul_zero(b, q);
}

/// The fixed-point product of two raw `i64` values at scale `q`, in `i128`.
fn mul_scaled(a: i64, b: i64, q: u32) -> (r: i128)
    requires
        transform_scale(q as nat),
    ensures
        r as int == scaled_mul(a as int, b as int, q as nat),
        -0x4000_0000_0000_0000_0000_0000_0000_0000 <= r <= 0x4000_0000_0000_0000_0000_0000_0000_0000,
{
    proof {
        lemma_pow2_128();
        vstd::arithmetic::power2::lemma2_to64();
        if q < 64 {
            vstd::arithmetic::power2::lemma_pow2_strictly_increases(q as nat, 64);
        }
        lemma_pow2_pos(q as nat);
    }
    let p = power_of_two(q) as i128;
    proof {
        let ai = a as int;
        let bi = b as int;
        assert(-0x4000_0000_0000_0000_0000_0000_0000_0000 <= ai * bi <= 0x4000_0000_0000_0000_0000_0000_0000_0000)
            by (nonlinear_arith)
            requires -0x8000_0000_0000_0000 <= ai <= 0x7fff_ffff_ffff_ffff,
                -0x8000_0000_0000_0000 <= bi <= 0x7fff_ffff_ffff_ffff;
    }
    let prod = (a as i128) * (b as i128);
    proof {
        let x = prod as int;
        let d = p as int;
        let ax = if x < 0 { -x } else { x };
        assert(ax / d <= ax / 1) by {
            vstd::arithmetic::div_mod::lemma_div_is_ordered_by_denominator(ax, 1, d);
        }
    }
    trunc_div_wide(prod, p)
}

/// Turns `v` by the angle whose sine and cosine are `sin` and `cos`; `None`
/// where a component of the result leaves `i64`.
pub fn rotate_checked<const Q: u32>(sin: FixedPoint<i64, Q>, cos: FixedPoint<i64, Q>, v: Vector2<Q>) -> (r: Option<Vector2<Q>>)
    requires
        transform_scale(Q as nat),
    ensures
        r is Some <==> fits::<i64>(rotation(v.raw().0, v.raw().1, sin.raw_int(), cos.raw_int(), Q as nat).0)
            && fits::<i64>(rotation(v.raw().0, v.raw().1, sin.raw_int(), cos.raw_int(), Q as nat).1),
        r matches Some(w) ==> w.raw() == rotation(v.raw().0, v.raw().1, sin.raw_int(), cos.raw_int(), Q as nat),
{
    let (a, b) = (v.x.raw_value(), v.y.raw_value());
    let (s, c) = (sin.raw_value(), cos.raw_value());
    let ca = mul_scaled(c, a, Q);
    let sb = mul_scaled(s, b, Q);
    let sa = mul_scaled(s, a, Q);
    let cb = mul_scaled(c, b, Q);
    let x = match ca.checked_sub(sb) {
        Some(x) => x,
        None => return None,
    };
    let y = match sa.checked_add(cb) {
        Some(y) => y,
        None => return None,
    };
    if i64::MIN as i128 <= x && x <= i64::MAX as i128 && i64::MIN as i128 <= y && y <= i64::MAX as i128 {
        Some(Vector2 { x: FixedPoint::raw(x as i64), y: FixedPoint::raw(y as i64) })
    } else {
        None
    }
}

/// Turns `v` by the angle whose sine and cosine are `sin` and `cos`.
pub fn rotate_by<const Q: u32>(sin: FixedPoint<i64, Q>, cos: FixedPoint<i64, Q>, v: Vector2<Q>) -> (r: Vector2<Q>)
    requires
        transform_scale(Q as nat),
        fits::<i64>(rotation(v.raw().0, v.raw().1, sin.raw_int(), cos.raw_int(), Q as nat).0),
        fits::<i64>(rotation(v.raw().0, v.raw().1, sin.raw_int(), cos.raw_int(), Q as nat).1),
    ensures
        r.raw() == rotation(v.raw().0, v.raw().1, sin.raw_int(), cos.raw_int(), Q as nat),
{
    match rotate_checked(sin, cos, v) {
        Some(w) => w,
        None => v,
    }
}

/// Turns a stationary-frame vector into the rotating frame at angle `theta`,
/// with sine and cosine from `trig`. `None` where the result leaves `i64`.
pub fn dqz<const Q: u32, S: TrigonometryState<FixedPoint<i64, Q>>>(
    trig: &S,
    alpha_beta: Vector2<Q>,
    theta: FixedPoint<i64, Q>,
) -> (r: Option<Vector2<Q>>)
    requires
        transform_scale(Q as nat),
    ensures
        exists|s: int, c: int| {
            let t = #[trigger] rotation(alpha_beta.raw().0, alpha_beta.raw().1, s, c, Q as nat);
            &&& (r is Some <==> fits::<i64>(t.0) && fits::<i64>(t.1))
            &&& (r matches Some(w) ==> w.raw() == t)
        },
{
    let (sin, cos) = trig.sin_cos(theta);
    let r = rotate_checked(sin, cos, alpha_beta);
    assert({
        let t = rotation(alpha_beta.raw().0, alpha_beta.raw().1, sin.raw_int(), cos.raw_int(), Q as nat);
        &&& (r is Some <==> fits::<i64>(t.0) && fits::<i64>(t.1))
        &&& (r matches Some(w) ==> w.raw() == t)
    });
    r
}

/// The constants that derive the beta axis from stationary-frame samples:
/// `1/√3` and `2/√3` at scale `Q`.
pub struct AlphaBetaGamma<const Q: u32> {
    inv_sqrt3: FixedPoint<i64, Q>,
    two_inv_sqrt3: FixedPoint<i64, Q>,
}

/// `1 / s` at scale `q` for the raw square root `s` of three: `2^(2q) / s`.
pub open spec fn inverse_raw(s: int, q: nat) -> int {
    pow2(2 * q) as int / s
}

/// Whether the raw square root `s` gives constants that fit `i64`.
pub open spec fn usable_root(s: int, q: nat) -> bool {
    s > 0 && 2 * inverse_raw(s, q) <= i64::MAX
}

impl<const Q: u32> AlphaBetaGamma<Q> {
    /// The raw constant `1/√3`.
    pub closed spec fn first(self) -> int {
        self.inv_sqrt3.raw_int()
    }

    /// The raw constant `2/√3`.
    pub closed spec fn second(self) -> int {
        self.two_inv_sqrt3.raw_int()
    }

    /// Builds the constants from `sqrt3`, a square root of three at scale `Q`.
    /// `None` where it is not positive or its inverse leaves `i64`.
    pub fn from_sqrt3(sqrt3: FixedPoint<i64, Q>) -> (r: Option<Self>)
        requires
            Q <= 63,
        ensures
            r is Some <==> usable_root(sqrt3.raw_int(), Q as nat),
            r matches Some(k) ==> k.first() == inverse_raw(sqrt3.raw_int(), Q as nat)
                && k.second() == 2 * inverse_raw(sqrt3.raw_int(), Q as nat),
    {
        let s = sqrt3.raw_value();
        if s <= 0 {
            return None;
        }
        proof {
            lemma_pow2_128();
            lemma_pow2_pos((2 * Q) as nat);
            vstd::arithmetic::power2::lemma_pow2_strictly_increases((2 * Q) as nat, 127);
        }
        let p = power_of_two(2 * Q);
        let inv = p / (s as u128);
        proof {
            assert(inv as int == inverse_raw(s as int, Q as nat));
        }
        if inv > 0x3fff_ffff_ffff_ffff {
            return None;
        }
        let k = inv as i64;
        Some(AlphaBetaGamma { inv_sqrt3: FixedPoint::raw(k), two_inv_sqrt3: FixedPoint::raw(k + k) })
    }

    /// Asks `sqrtctx` once for the square root of three and builds the
    /// constants from it.
    pub fn precompute<S: SquareRootState<FixedPoint<i64, Q>>>(sqrtctx: &S) -> (r: Option<Self>)
        requires
            Q <= 61,
        ensures
            exists|s: int| {
                &&& (r is Some <==> #[trigger] usable_root(s, Q as nat))
                &&& (r matches Some(k) ==> k.first() == inverse_raw(s, Q as nat)
                    && k.second() == 2 * inverse_raw(s, Q as nat))
            },
    {
        proof {
            vstd::arithmetic::power2::lemma2_to64();
            if Q < 61 {
                vstd::arithmetic::power2::lemma_pow2_strictly_increases(Q as nat, 61);
            }
            assert(pow2(61) == 0x2000_0000_0000_0000) by {
                lemma_pow2_adds(30, 31);
            }
            assert(3 * pow2(Q as nat) <= i64::MAX);
        }
        let three = FixedPoint::<i64, Q>::new(3);
        let root = sqrtctx.sqrt(three);
        let r = Self::from_sqrt3(root);
        assert(r is Some <==> usable_root(root.raw_int(), Q as nat));
        r
    }

    /// Keeps the first component and replaces the second by
    /// `(1/√3)·a + (2/√3)·b`, each product rounded toward zero.
    pub fn apply(&self, ab: Vector2<Q>) -> (r: Vector2<Q>)
        requires
            transform_scale(Q as nat),
            fits::<i64>(beta_of(ab.raw().0, ab.raw().1, self.first(), self.second(), Q as nat)),
        ensures
            r.raw().0 == ab.raw().0,
            r.raw().1 == beta_of(ab.raw().0, ab.raw().1, self.first(), self.second(), Q as nat),
    {
        let a = mul_scaled(self.inv_sqrt3.raw_value(), ab.x.raw_value(), Q);
        let b = mul_scaled(self.two_inv_sqrt3.raw_value(), ab.y.raw_value(), Q);
        let y = a + b;
        Vector2 { x: ab.x, y: FixedPoint::raw(y as i64) }
    }
}

/// The beta component `k1·a + k2·b` in fixed point, each product rounded
/// toward zero.
pub open spec fn beta_of(a: int, b: int, k1: int, k2: int, q: nat) -> int {
    scaled_mul(k1, a, q) + scaled_mul(k2, b, q)
}

} // verus!
