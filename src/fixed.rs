use vstd::prelude::*;
use vstd::arithmetic::power2::{pow2, lemma_pow2_unfold, lemma_pow2_adds, lemma_pow2_pos};

verus! {

/// The bit pattern of `v` in a two's-complement word of `w` bits.
pub open spec fn bit_pattern(v: int, w: nat) -> int {
    if v < 0 { v + pow2(w) } else { v }
}

/// Primitive integers that can store the raw bits of a fixed-point value.
pub trait FixedInt: Copy + Sized {
    /// Number of bits of the storage type.
    spec fn bit_width() -> nat;

    /// Smallest value of the storage type.
    spec fn min_int() -> int;

    /// Largest value of the storage type.
    spec fn max_int() -> int;

    /// The integer that `self` holds.
    spec fn int_of(self) -> int;

    /// The range of the storage type: `2^width` values, signed or unsigned,
    /// within `i128`.
    proof fn lemma_bounds()
        ensures
            0 < Self::bit_width() <= 128,
            i128::MIN <= Self::min_int() <= 0 < Self::max_int() <= i128::MAX,
            Self::max_int() - Self::min_int() + 1 == pow2(Self::bit_width()),
            Self::min_int() == 0 || Self::min_int() == -pow2((Self::bit_width() - 1) as nat),
    ;

    /// Every value of the storage type lies in its range.
    proof fn lemma_in_range(x: Self)
        ensures
            Self::min_int() <= x.int_of() <= Self::max_int(),
    ;

    /// Number of bits of the storage type.
    fn width() -> (r: u32)
        ensures
            r as nat == Self::bit_width(),
    ;

    /// The same integer in the widest signed type.
    fn to_wide(self) -> (r: i128)
        ensures
            r as int == self.int_of(),
    ;

    /// The storage integer that holds `v`.
    fn from_wide(v: i128) -> (r: Self)
        requires
            Self::min_int() <= v <= Self::max_int(),
        ensures
            r.int_of() == v as int,
    ;

    /// The two's-complement bit pattern of `self`, read as an unsigned number.
    fn to_pattern(self) -> (r: u128)
        ensures
            r as int == bit_pattern(self.int_of(), Self::bit_width()),
    ;

    /// The storage integer whose two's-complement bit pattern is `p`.
    fn from_pattern(p: u128) -> (r: Self)
        requires
            (p as int) < pow2(Self::bit_width()),
        ensures
            bit_pattern(r.int_of(), Self::bit_width()) == p as int,
    ;
}

impl FixedInt for u8 {
    open spec fn bit_width() -> nat { 8 }

    open spec fn min_int() -> int { 0 }

    open spec fn max_int() -> int { 255 }

    open spec fn int_of(self) -> int { self as int }

    proof fn lemma_bounds() {
        vstd::arithmetic::power2::lemma2_to64();
    }

    proof fn lemma_in_range(x: Self) {
    }

    fn width() -> (r: u32) {
        8
    }

    fn to_wide(self) -> (r: i128) {
        self as i128
    }

    fn from_wide(v: i128) -> (r: Self) {
        v as u8
    }

    fn to_pattern(self) -> (r: u128) {
        self as u128
    }

    fn from_pattern(p: u128) -> (r: Self) {
        proof {
            vstd::arithmetic::power2::lemma2_to64();
        }
        p as u8
    }
}

impl FixedInt for i64 {
    open spec fn bit_width() -> nat { 64 }

    open spec fn min_int() -> int { i64::MIN as int }

    open spec fn max_int() -> int { i64::MAX as int }

    open spec fn int_of(self) -> int { self as int }

    proof fn lemma_bounds() {
        vstd::arithmetic::power2::lemma2_to64();
        lemma_pow2_unfold(64);
    }

    proof fn lemma_in_range(x: Self) {
    }

    fn width() -> (r: u32) {
        64
    }

    fn to_wide(self) -> (r: i128) {
        self as i128
    }

    fn from_wide(v: i128) -> (r: Self) {
        v as i64
    }

    fn to_pattern(self) -> (r: u128) {
        proof {
            vstd::arithmetic::power2::lemma2_to64();
        }
        if self < 0 {
            (self as i128 + 0x1_0000_0000_0000_0000i128) as u128
        } else {
            self as u128
        }
    }

    fn from_pattern(p: u128) -> (r: Self) {
        proof {
            vstd::arithmetic::power2::lemma2_to64();
        }
        if p >= 0x8000_0000_0000_0000u128 {
            (p as i128 - 0x1_0000_0000_0000_0000i128) as i64
        } else {
            p as i64
        }
    }
}

impl FixedInt for i128 {
    open spec fn bit_width() -> nat { 128 }

    open spec fn min_int() -> int { i128::MIN as int }

    open spec fn max_int() -> int { i128::MAX as int }

    open spec fn int_of(self) -> int { self as int }

    proof fn lemma_bounds() {
        lemma_pow2_128();
    }

    proof fn lemma_in_range(x: Self) {
    }

    fn width() -> (r: u32) {
        128
    }

    fn to_wide(self) -> (r: i128) {
        self
    }

    fn from_wide(v: i128) -> (r: Self) {
        v
    }

    fn to_pattern(self) -> (r: u128) {
        proof {
            lemma_pow2_128();
        }
        if self < 0 {
            let low = (self - i128::MIN) as u128;
            low + 0x8000_0000_0000_0000_0000_0000_0000_0000u128
        } else {
            self as u128
        }
    }

    fn from_pattern(p: u128) -> (r: Self) {
        proof {
            lemma_pow2_128();
        }
        if p >= 0x8000_0000_0000_0000_0000_0000_0000_0000u128 {
            ((p - 0x8000_0000_0000_0000_0000_0000_0000_0000u128) as i128) + i128::MIN
        } else {
            p as i128
        }
    }
}


/// Whether `q` fractional bits fit in the storage type `T`.
pub open spec fn valid_fraction<T: FixedInt>(q: nat) -> bool {
    q <= T::bit_width()
}

/// Whether the storage type `T` holds `v`.
pub open spec fn fits<T: FixedInt>(v: int) -> bool {
    T::min_int() <= v <= T::max_int()
}

/// The integer that Rust's `/` gives: the quotient rounded toward zero.
pub open spec fn trunc_div(a: int, b: int) -> int {
    let q = abs(a) / abs(b);
    if (a < 0) != (b < 0) { -q } else { q }
}

pub open spec fn abs(a: int) -> int {
    if a < 0 { -a } else { a }
}

/// Adding two values of one scale gives the same raw integer in either order.
pub proof fn lemma_add_commutative<T: FixedInt, const Q: u32>(a: FixedPoint<T, Q>, b: FixedPoint<T, Q>)
    ensures
        fits::<T>(a.raw_int() + b.raw_int()) <==> fits::<T>(b.raw_int() + a.raw_int()),
        a.raw_int() + b.raw_int() == b.raw_int() + a.raw_int(),
{
}

/// Where every partial sum fits the storage type, `(a + b) + c` and
/// `a + (b + c)` have the same raw integer.
pub proof fn lemma_add_associative<T: FixedInt, const Q: u32>(
    a: FixedPoint<T, Q>,
    b: FixedPoint<T, Q>,
    c: FixedPoint<T, Q>,
)
    requires
        fits::<T>(a.raw_int() + b.raw_int()),
        fits::<T>(b.raw_int() + c.raw_int()),
        fits::<T>(a.raw_int() + b.raw_int() + c.raw_int()),
    ensures
        (a.raw_int() + b.raw_int()) + c.raw_int() == a.raw_int() + (b.raw_int() + c.raw_int()),
{
}

/// Subtracting `b` undoes adding `b`.
pub proof fn lemma_sub_undoes_add<T: FixedInt, const Q: u32>(a: FixedPoint<T, Q>, b: FixedPoint<T, Q>)
    requires
        fits::<T>(a.raw_int() + b.raw_int()),
    ensures
        fits::<T>((a.raw_int() + b.raw_int()) - b.raw_int()),
        (a.raw_int() + b.raw_int()) - b.raw_int() == a.raw_int(),
{
    a.lemma_raw_in_range();
}

/// The product of raw values `a` at scale `qa` and `b` at scale `qb`, read at
/// scale `qa + qb`, is the product of the two values: as fractions,
/// `(a·b) / 2^(qa+qb) == (a / 2^qa)·(b / 2^qb)`.
pub proof fn lemma_mul_scales_add(a: int, b: int, qa: nat, qb: nat)
    ensures
        (a * b) * (pow2(qa) * pow2(qb)) == (a * b) * pow2(qa + qb),
        pow2(qa + qb) == pow2(qa) * pow2(qb),
{
    lemma_pow2_adds(qa, qb);
}

/// A number stored as a raw integer of type `T`, read as `raw / 2^Q`.
#[derive(Clone, Copy)]
pub struct FixedPoint<T, const Q: u32> {
    bits: T,
}

impl<T: FixedInt, const Q: u32> FixedPoint<T, Q> {
    /// The raw integer, before scaling by `2^Q`.
    pub closed spec fn raw_int(self) -> int {
        self.bits.int_of()
    }

    /// The raw integer lies in the storage type's range.
    pub proof fn lemma_raw_in_range(self)
        ensures
            fits::<T>(self.raw_int()),
    {
        T::lemma_in_range(self.bits);
    }

    /// The value that represents the whole number `num`: its raw bits are
    /// `num << Q` in the storage type, high bits dropped as `<<` drops them.
    pub fn new(num: T) -> (r: Self)
        requires
            Q < T::bit_width(),
        ensures
            bit_pattern(r.raw_int(), T::bit_width())
                == (bit_pattern(num.int_of(), T::bit_width()) * pow2(Q as nat)) % (pow2(T::bit_width()) as int),
            fits::<T>(num.int_of() * pow2(Q as nat)) ==> r.raw_int() == num.int_of() * pow2(Q as nat),
    {
        let w = T::width();
        let ghost m = pow2(T::bit_width()) as int;
        let p0 = num.to_pattern();
        proof {
            T::lemma_bounds();
            T::lemma_in_range(num);
            lemma_pattern::<T>(num.int_of());
            lemma_pow2_pos(T::bit_width());
            assert(pow2(0) == 1) by { vstd::arithmetic::power2::lemma2_to64(); }
            vstd::arithmetic::div_mod::lemma_small_mod(p0 as nat, m as nat);
            assert((p0 as int * pow2(0)) % m == p0 as int);
        }
        let mut p: u128 = p0;
        let mut i: u32 = 0;
        while i < Q
            invariant
                i <= Q < w,
                w as nat == T::bit_width(),
                1 <= w <= 128,
                m == pow2(T::bit_width()),
                m > 0,
                p as int == (p0 as int * pow2(i as nat)) % m,
            decreases Q - i,
        {
            proof {
                vstd::arithmetic::div_mod::lemma_mod_bound(p0 as int * pow2(i as nat), m);
            }
            p = double_mod(p, w);
            proof {
                lemma_pow2_unfold((i + 1) as nat);
                let x = p0 as int * pow2(i as nat);
                vstd::arithmetic::div_mod::lemma_mul_mod_noop_right(2, x, m);
                assert(2 * x == p0 as int * pow2((i + 1) as nat)) by (nonlinear_arith)
                    requires x == p0 as int * pow2(i as nat), pow2((i + 1) as nat) == 2 * pow2(i as nat);
            }
            i = i + 1;
        }
        let r = FixedPoint { bits: T::from_pattern(p) };
        proof {
            vstd::arithmetic::div_mod::lemma_mod_bound(p0 as int * pow2(Q as nat), m);
            let v = num.int_of() * pow2(Q as nat);
            vstd::arithmetic::div_mod::lemma_mul_mod_noop_left(num.int_of(), pow2(Q as nat) as int, m);
            if fits::<T>(v) {
                lemma_pattern::<T>(v);
                T::lemma_in_range(r.bits);
                lemma_pattern::<T>(r.raw_int());
                lemma_pattern_injective::<T>(r.raw_int(), v);
            }
        }
        r
    }

    /// The value whose raw bits are `num`, taken as already scaled.
    pub fn raw(num: T) -> (r: Self)
        requires
            valid_fraction::<T>(Q as nat),
        ensures
            r.raw_int() == num.int_of(),
    {
        FixedPoint { bits: num }
    }

    /// The raw bits.
    pub fn raw_value(&self) -> (r: T)
        ensures
            r.int_of() == self.raw_int(),
    {
        self.bits
    }

    /// Sum of two values of the same scale; the raw integers add.
    pub fn add(self, rhs: FixedPoint<T, Q>) -> (r: FixedPoint<T, Q>)
        requires
            fits::<T>(self.raw_int() + rhs.raw_int()),
        ensures
            r.raw_int() == self.raw_int() + rhs.raw_int(),
    {
        proof {
            T::lemma_bounds();
        }
        FixedPoint { bits: T::from_wide(self.bits.to_wide() + rhs.bits.to_wide()) }
    }

    /// Adds `rhs` in place, keeping the storage type.
    pub fn add_assign(&mut self, rhs: FixedPoint<T, Q>)
        requires
            fits::<T>(old(self).raw_int() + rhs.raw_int()),
        ensures
            final(self).raw_int() == old(self).raw_int() + rhs.raw_int(),
    {
        proof {
            T::lemma_bounds();
        }
        self.bits = T::from_wide(self.bits.to_wide() + rhs.bits.to_wide());
    }

    /// Difference of two values of the same scale; the raw integers subtract.
    pub fn sub(self, rhs: FixedPoint<T, Q>) -> (r: FixedPoint<T, Q>)
        requires
            fits::<T>(self.raw_int() - rhs.raw_int()),
        ensures
            r.raw_int() == self.raw_int() - rhs.raw_int(),
    {
        proof {
            T::lemma_bounds();
        }
        FixedPoint { bits: T::from_wide(self.bits.to_wide() - rhs.bits.to_wide()) }
    }

    /// Product: the raw integers multiply and the scales add (`O == Q + R`).
    pub fn mul<const R: u32, const O: u32>(self, rhs: FixedPoint<T, R>) -> (r: FixedPoint<T, O>)
        requires
            O == Q + R,
            valid_fraction::<T>(O as nat),
            fits::<T>(self.raw_int() * rhs.raw_int()),
        ensures
            r.raw_int() == self.raw_int() * rhs.raw_int(),
    {
        proof {
            T::lemma_bounds();
        }
        FixedPoint { bits: T::from_wide(self.bits.to_wide() * rhs.bits.to_wide()) }
    }

    /// Quotient: the raw integers divide, rounding toward zero, and the scales
    /// subtract (`O == Q - R`).
    pub fn div<const R: u32, const O: u32>(self, rhs: FixedPoint<T, R>) -> (r: FixedPoint<T, O>)
        requires
            R <= Q,
            O == Q - R,
            rhs.raw_int() != 0,
            fits::<T>(trunc_div(self.raw_int(), rhs.raw_int())),
        ensures
            r.raw_int() == trunc_div(self.raw_int(), rhs.raw_int()),
    {
        proof {
            T::lemma_bounds();
            lemma_pow2_128();
            T::lemma_in_range(self.bits);
            T::lemma_in_range(rhs.bits);
        }
        let v = trunc_div_wide(self.bits.to_wide(), rhs.bits.to_wide());
        FixedPoint { bits: T::from_wide(v) }
    }

    /// The same value in a storage type that holds every value of `T`.
    pub fn cast<U: FixedInt>(self) -> (r: FixedPoint<U, Q>)
        requires
            U::min_int() <= T::min_int(),
            T::max_int() <= U::max_int(),
            valid_fraction::<U>(Q as nat),
        ensures
            r.raw_int() == self.raw_int(),
    {
        proof {
            T::lemma_in_range(self.bits);
        }
        FixedPoint { bits: U::from_wide(self.bits.to_wide()) }
    }
}



/// The bit pattern of a value of the storage type is that value modulo `2^width`.
proof fn lemma_pattern<T: FixedInt>(x: int)
    requires
        fits::<T>(x),
    ensures
        0 <= bit_pattern(x, T::bit_width()) < pow2(T::bit_width()),
        bit_pattern(x, T::bit_width()) == x % (pow2(T::bit_width()) as int),
{
    T::lemma_bounds();
    let m = pow2(T::bit_width()) as int;
    if x < 0 {
        vstd::arithmetic::div_mod::lemma_mod_add_multiples_vanish(x, m);
        vstd::arithmetic::div_mod::lemma_small_mod((m + x) as nat, m as nat);
    } else {
        vstd::arithmetic::div_mod::lemma_small_mod(x as nat, m as nat);
    }
}

/// Two values of the storage type with one bit pattern are equal.
proof fn lemma_pattern_injective<T: FixedInt>(a: int, b: int)
    requires
        fits::<T>(a),
        fits::<T>(b),
        bit_pattern(a, T::bit_width()) == bit_pattern(b, T::bit_width()),
    ensures
        a == b,
{
    T::lemma_bounds();
}

/// `2p mod 2^w`.
fn double_mod(p: u128, w: u32) -> (r: u128)
    requires
        1 <= w <= 128,
        (p as int) < pow2(w as nat),
    ensures
        r as int == (2 * p as int) % (pow2(w as nat) as int),
{
    proof {
        lemma_pow2_128();
        lemma_pow2_pos(w as nat);
    }
    let ghost m = pow2(w as nat) as int;
    if w == 128 {
        if p >= 0x8000_0000_0000_0000_0000_0000_0000_0000u128 {
            let r = (p - 0x8000_0000_0000_0000_0000_0000_0000_0000u128) * 2;
            proof {
                vstd::arithmetic::div_mod::lemma_fundamental_div_mod_converse_mod(2 * p as int, m, 1, r as int);
            }
            r
        } else {
            let r = p * 2;
            proof {
                vstd::arithmetic::div_mod::lemma_small_mod(r as nat, m as nat);
            }
            r
        }
    } else {
        proof {
            vstd::arithmetic::power2::lemma_pow2_strictly_increases(w as nat, 128);
            if w < 127 {
                vstd::arithmetic::power2::lemma_pow2_strictly_increases(w as nat, 127);
            }
        }
        let mw = power_of_two(w);
        let t = p * 2;
        if t >= mw {
            proof {
                vstd::arithmetic::div_mod::lemma_fundamental_div_mod_converse_mod(t as int, m, 1, t - mw);
            }
            t - mw
        } else {
            proof {
                vstd::arithmetic::div_mod::lemma_small_mod(t as nat, m as nat);
            }
            t
        }
    }
}

/// Rust's `/` on the widest signed type, for a quotient that fits.
pub(crate) fn trunc_div_wide(a: i128, b: i128) -> (r: i128)
    requires
        b != 0,
        i128::MIN <= trunc_div(a as int, b as int) <= i128::MAX,
    ensures
        r as int == trunc_div(a as int, b as int),
{
    proof {
        lemma_pow2_128();
    }
    let ua = magnitude(a);
    let ub = magnitude(b);
    let q = ua / ub;
    proof {
        assert(q as int == abs(a as int) / abs(b as int));
    }
    if (a < 0) != (b < 0) {
        if q == 0x8000_0000_0000_0000_0000_0000_0000_0000u128 {
            i128::MIN
        } else {
            -(q as i128)
        }
    } else {
        q as i128
    }
}

/// `2^k` as a `u128`.
pub(crate) fn power_of_two(k: u32) -> (r: u128)
    requires
        k < 128,
    ensures
        r as int == pow2(k as nat),
{
    proof {
        vstd::arithmetic::power2::lemma2_to64();
        lemma_pow2_128();
    }
    let mut r: u128 = 1;
    let mut i: u32 = 0;
    while i < k
        invariant
            i <= k < 128,
            r as int == pow2(i as nat),
            pow2(128) == 0x1_0000_0000_0000_0000_0000_0000_0000_0000,
        decreases k - i,
    {
        proof {
            lemma_pow2_unfold((i + 1) as nat);
            if i + 1 < 128 {
                vstd::arithmetic::power2::lemma_pow2_strictly_increases((i + 1) as nat, 128);
            }
        }
        r = r * 2;
        i = i + 1;
    }
    r
}

/// The absolute value of `a`, which always fits in `u128`.
pub(crate) fn magnitude(a: i128) -> (r: u128)
    ensures
        r as int == abs(a as int),
{
    if a < 0 {
        if a == i128::MIN {
            0x8000_0000_0000_0000_0000_0000_0000_0000u128
        } else {
            (-a) as u128
        }
    } else {
        a as u128
    }
}

pub(crate) proof fn lemma_pow2_128()
    ensures
        pow2(127) == 0x8000_0000_0000_0000_0000_0000_0000_0000,
        pow2(128) == 0x1_0000_0000_0000_0000_0000_0000_0000_0000,
{
    vstd::arithmetic::power2::lemma2_to64();
    lemma_pow2_unfold(64);
    lemma_pow2_adds(64, 63);
    lemma_pow2_adds(64, 64);
    assert(pow2(63) == 0x8000_0000_0000_0000);
    assert(pow2(64) == 0x1_0000_0000_0000_0000);
    assert(pow2(127) == pow2(64) * pow2(63));
    assert(pow2(128) == pow2(64) * pow2(64));
}

} // verus!
