use vstd::prelude::*;
use vstd::arithmetic::power2::{pow2, lemma_pow2_unfold, lemma_pow2_pos};
use vstd::arithmetic::power::pow;
use vstd::arithmetic::div_mod::lemma_div_denominator;
use crate::fixed::{FixedInt, FixedPoint, abs, bit_pattern, magnitude, lemma_pow2_128, valid_fraction, power_of_two};

verus! {

/// The character of the decimal digit `d`.
pub open spec fn digit_char(d: int) -> char {
    if d == 0 { '0' }
    else if d == 1 { '1' }
    else if d == 2 { '2' }
    else if d == 3 { '3' }
    else if d == 4 { '4' }
    else if d == 5 { '5' }
    else if d == 6 { '6' }
    else if d == 7 { '7' }
    else if d == 8 { '8' }
    else { '9' }
}

/// The decimal digits of `n`, most significant first, with no leading zero
/// (none at all for zero).
pub open spec fn decimal_digits(n: nat) -> Seq<char>
    decreases n,
{
    if n == 0 {
        seq![]
    } else {
        decimal_digits(n / 10).push(digit_char((n % 10) as int))
    }
}

/// One step of long division by repeated multiplication: the remainder times
/// ten, or ten where that product leaves `u128`.
pub open spec fn times_ten(f: nat) -> nat {
    if f * 10 <= u128::MAX { f * 10 } else { 10 }
}

/// `k` decimal digits of the fraction `f / 2^q`, read off one by one.
pub open spec fn fraction_digits(f: nat, q: nat, k: nat) -> Seq<char>
    decreases k,
{
    if k == 0 {
        seq![]
    } else {
        let t = times_ten(f);
        seq![digit_char((t / pow2(q)) as int)] + fraction_digits(t % pow2(q), q, (k - 1) as nat)
    }
}

/// Decimal text of the raw integer `v` read with `q` fractional bits: a `-`
/// for a negative value, the whole part without leading zeros, a `.`, and
/// exactly `q` fractional digits.
pub open spec fn decimal_text(v: int, q: nat) -> Seq<char> {
    let m = abs(v) as nat;
    let sign: Seq<char> = if v < 0 { seq!['-'] } else { seq![] };
    sign + decimal_digits(m / pow2(q)) + seq!['.'] + fraction_digits(m % pow2(q), q, q)
}

/// The character of the binary digit `b`.
pub open spec fn bit_char(b: int) -> char {
    if b == 0 { '0' } else { '1' }
}

/// The low `n` bits of `p`, most significant first.
pub open spec fn low_bits(p: nat, n: nat) -> Seq<char>
    decreases n,
{
    if n == 0 {
        seq![]
    } else {
        seq![bit_char(((p / pow2((n - 1) as nat)) % 2) as int)] + low_bits(p, (n - 1) as nat)
    }
}

/// Binary text of the bit pattern `p` of a `w`-bit word with `q` fractional
/// bits: `w - q` integer digits, a `.`, and `q` fractional digits.
pub open spec fn binary_text(p: nat, w: nat, q: nat) -> Seq<char> {
    low_bits(p / pow2(q), (w - q) as nat) + seq!['.'] + low_bits(p, q)
}

/// `low_bits(p, n)` has `n` digits.
pub proof fn lemma_low_bits_len(p: nat, n: nat)
    ensures
        low_bits(p, n).len() == n,
    decreases n,
{
    if n > 0 {
        lemma_low_bits_len(p, (n - 1) as nat);
    }
}

/// The digit that the character `c` stands for.
pub open spec fn char_value(c: char) -> int {
    if c == '1' { 1 }
    else if c == '2' { 2 }
    else if c == '3' { 3 }
    else if c == '4' { 4 }
    else if c == '5' { 5 }
    else if c == '6' { 6 }
    else if c == '7' { 7 }
    else if c == '8' { 8 }
    else if c == '9' { 9 }
    else { 0 }
}

/// The number that a string of decimal digits reads as.
pub open spec fn digits_value(s: Seq<char>) -> int
    decreases s.len(),
{
    if s.len() == 0 {
        0
    } else {
        10 * digits_value(s.drop_last()) + char_value(s.last())
    }
}

proof fn lemma_digits_value_prepend(c: char, s: Seq<char>)
    ensures
        digits_value(seq![c] + s) == char_value(c) * pow(10, s.len()) + digits_value(s),
    decreases s.len(),
{
    let t = seq![c] + s;
    assert(digits_value(t) == 10 * digits_value(t.drop_last()) + char_value(t.last()));
    if s.len() == 0 {
        assert(t.drop_last() =~= Seq::<char>::empty());
        assert(digits_value(t.drop_last()) == 0);
        assert(t.last() == c);
        vstd::arithmetic::power::lemma_pow0(10);
    } else {
        assert(t.drop_last() =~= seq![c] + s.drop_last());
        assert(t.last() == s.last());
        assert(digits_value(s) == 10 * digits_value(s.drop_last()) + char_value(s.last()));
        lemma_digits_value_prepend(c, s.drop_last());
        vstd::arithmetic::power::lemma_pow_adds(10, 1, (s.len() - 1) as nat);
        vstd::arithmetic::power::lemma_pow1(10);
        assert(pow(10, s.len()) == 10 * pow(10, (s.len() - 1) as nat));
        let a = char_value(c);
        let p = pow(10, (s.len() - 1) as nat);
        let r = digits_value(s.drop_last());
        assert(10 * (a * p + r) == a * (10 * p) + 10 * r) by (nonlinear_arith);
    }
}

proof fn lemma_whole_digits_read_back(n: nat)
    ensures
        digits_value(decimal_digits(n)) == n,
    decreases n,
{
    if n > 0 {
        lemma_whole_digits_read_back(n / 10);
        let s = decimal_digits(n);
        assert(s.drop_last() =~= decimal_digits(n / 10));
    }
}

proof fn lemma_fraction_digits_len(f: nat, q: nat, k: nat)
    ensures
        fraction_digits(f, q, k).len() == k,
    decreases k,
{
    if k > 0 {
        let p = pow2(q);
        let t: nat = times_ten(f);
        let d = t / p;
        let g = t % p;
        lemma_fraction_digits_len(g, q, (k - 1) as nat);
        lemma_pow2_pos(q);
        assert(fraction_digits(f, q, k) == seq![digit_char(d as int)] + fraction_digits(g, q, (k - 1) as nat));
    }
}

proof fn lemma_fraction_digits_read_back(f: nat, q: nat, k: nat)
    requires
        q <= 124,
        f < pow2(q),
    ensures
        digits_value(fraction_digits(f, q, k)) * pow2(q) <= f * pow(10, k),
        f * pow(10, k) < (digits_value(fraction_digits(f, q, k)) + 1) * pow2(q),
    decreases k,
{
    lemma_pow2_pos(q);
    if k == 0 {
        vstd::arithmetic::power::lemma_pow0(10);
        assert(digits_value(fraction_digits(f, q, k)) == 0);
    } else {
        let p = pow2(q);
        if q < 124 {
            vstd::arithmetic::power2::lemma_pow2_strictly_increases(q, 124);
        }
        assert(pow2(124) == 0x1000_0000_0000_0000_0000_0000_0000_0000) by {
            lemma_pow2_128();
            vstd::arithmetic::power2::lemma_pow2_adds(124, 4);
            vstd::arithmetic::power2::lemma2_to64();
        }
        assert(f * 10 <= u128::MAX);
        let t: nat = f * 10;
        let d = t / p;
        let g = t % p;
        vstd::arithmetic::div_mod::lemma_fundamental_div_mod(t as int, p as int);
        assert(d < 10) by (nonlinear_arith)
            requires t == f * 10, f < p, d == t / p, p > 0;
        let rest = fraction_digits(g as nat, q, (k - 1) as nat);
        lemma_fraction_digits_read_back(g as nat, q, (k - 1) as nat);
        lemma_digits_value_prepend(digit_char(d as int), rest);
        lemma_fraction_digits_len(g as nat, q, (k - 1) as nat);
        assert(char_value(digit_char(d as int)) == d);
        vstd::arithmetic::power::lemma_pow_adds(10, 1, (k - 1) as nat);
        vstd::arithmetic::power::lemma_pow1(10);
        let e = pow(10, (k - 1) as nat);
        let r = digits_value(rest);
        assert(times_ten(f) == t);
        assert(fraction_digits(f, q, k) == seq![digit_char(d as int)] + rest);
        assert(pow(10, k) == 10 * e);
        assert(digits_value(fraction_digits(f, q, k)) == d * e + r);
        assert(f * pow(10, k) == f * (10 * e));
        assert(f * (10 * e) == (d * p + g) * e) by (nonlinear_arith)
            requires t == p * d + g, t == f * 10;
        assert((d * e + r) * p <= (d * p + g) * e < (d * e + r + 1) * p) by (nonlinear_arith)
            requires r * p <= g * e, g * e < (r + 1) * p;
    }
}

/// Reading the decimal text back gives the whole part exactly and the
/// fraction to within one unit in the last fractional digit: with `D` the
/// fractional digits read as a number, `D / 10^q <= frac / 2^q < (D + 1) / 10^q`.
/// (At `q > 124` the digit step leaves `u128` and the digits are a fallback.)
pub proof fn lemma_decimal_text_reads_back(v: int, q: nat)
    requires
        q <= 124,
    ensures
        ({
            let m = abs(v) as nat;
            let d = digits_value(fraction_digits(m % pow2(q), q, q));
            &&& digits_value(decimal_digits(m / pow2(q))) == m / pow2(q)
            &&& d * pow2(q) <= (m % pow2(q)) * pow(10, q)
            &&& (m % pow2(q)) * pow(10, q) < (d + 1) * pow2(q)
        }),
{
    let m = abs(v) as nat;
    lemma_pow2_pos(q);
    lemma_whole_digits_read_back(m / pow2(q));
    vstd::arithmetic::div_mod::lemma_mod_bound(m as int, pow2(q) as int);
    lemma_fraction_digits_read_back(m % pow2(q), q, q);
}

fn digit_of(d: u128) -> (c: char)
    requires
        d < 10,
    ensures
        c == digit_char(d as int),
{
    if d == 0 { '0' }
    else if d == 1 { '1' }
    else if d == 2 { '2' }
    else if d == 3 { '3' }
    else if d == 4 { '4' }
    else if d == 5 { '5' }
    else if d == 6 { '6' }
    else if d == 7 { '7' }
    else if d == 8 { '8' }
    else { '9' }
}

/// Decimal digits of `n`, most significant first.
fn whole_digits(n: u128) -> (r: Vec<char>)
    ensures
        r@ == decimal_digits(n as nat),
{
    let mut s: Vec<char> = Vec::new();
    let mut k: u128 = n;
    while k > 0
        invariant
            decimal_digits(n as nat) == decimal_digits(k as nat) + s@,
        decreases k,
    {
        let c = digit_of(k % 10);
        let ghost old_s = s@;
        s.insert(0, c);
        assert(decimal_digits(k as nat) == decimal_digits((k / 10) as nat).push(c));
        assert(decimal_digits(k as nat) + old_s =~= decimal_digits((k / 10) as nat) + s@);
        k = k / 10;
    }
    assert(decimal_digits(0) + s@ =~= s@);
    s
}

/// Appends the `q` fractional digits of `f / 2^q` to `out`.
fn push_fraction_digits(out: &mut Vec<char>, f: u128, q: u32)
    requires
        q <= 128,
        q < 128 ==> (f as int) < pow2(q as nat),
    ensures
        final(out)@ == old(out)@ + fraction_digits(f as nat, q as nat, q as nat),
{
    proof {
        lemma_pow2_128();
        lemma_pow2_pos(q as nat);
    }
    let ghost start = old(out)@;
    let pw: u128 = if q < 128 { power_of_two(q) } else { 0 };
    let mut val: u128 = f;
    let mut i: u32 = 0;
    while i < q
        invariant
            i <= q <= 128,
            q < 128 ==> pw as int == pow2(q as nat),
            q == 128 ==> pow2(q as nat) == 0x1_0000_0000_0000_0000_0000_0000_0000_0000,
            pow2(q as nat) > 0,
            q < 128 ==> (val as int) < pow2(q as nat),
            start + fraction_digits(f as nat, q as nat, q as nat)
                == out@ + fraction_digits(val as nat, q as nat, (q - i) as nat),
        decreases q - i,
    {
        let t: u128 = match val.checked_mul(10) {
            Some(x) => x,
            None => 10,
        };
        assert(t as nat == times_ten(val as nat));
        let d: u128 = if q < 128 { t / pw } else { 0 };
        let next: u128 = if q < 128 { t % pw } else { t };
        proof {
            if q < 128 {
                assert(d as int == (t as nat) / pow2(q as nat));
                assert(next as int == (t as nat) % pow2(q as nat));
            } else {
                assert((t as nat) / pow2(q as nat) == 0);
                assert((t as nat) % pow2(q as nat) == t as nat);
            }
            if q < 128 {
                let p = pow2(q as nat) as int;
                if (val as int) * 10 <= u128::MAX {
                    assert((t as int) < 10 * p);
                } else {
                    assert(p > 1);
                    assert((t as int) < 10 * p);
                }
                assert((t as int) / p < 10) by (nonlinear_arith)
                    requires (t as int) < 10 * p, p > 0, t >= 0;
                assert((t as int) % p < p) by (nonlinear_arith)
                    requires p > 0;
            }
        }
        let c = digit_of(d);
        let ghost before = out@;
        out.push(c);
        assert(fraction_digits(val as nat, q as nat, (q - i) as nat)
            == seq![c] + fraction_digits(next as nat, q as nat, (q - i - 1) as nat));
        assert(before + (seq![c] + fraction_digits(next as nat, q as nat, (q - i - 1) as nat))
            =~= out@ + fraction_digits(next as nat, q as nat, (q - i - 1) as nat));
        val = next;
        i = i + 1;
    }
    assert(out@ + fraction_digits(val as nat, q as nat, 0) =~= out@);
}

/// The low `n` bits of `p`, most significant first.
fn low_bits_of(p: u128, n: u32) -> (r: Vec<char>)
    requires
        n <= 128,
    ensures
        r@ == low_bits(p as nat, n as nat),
{
    let mut s: Vec<char> = Vec::new();
    let mut cur: u128 = p;
    let mut i: u32 = 0;
    proof {
        vstd::arithmetic::power2::lemma2_to64();
    }
    while i < n
        invariant
            i <= n <= 128,
            cur as nat == (p as nat) / pow2(i as nat),
            s@ == low_bits(p as nat, i as nat),
        decreases n - i,
    {
        let c = if cur % 2 == 0 { '0' } else { '1' };
        s.insert(0, c);
        proof {
            lemma_pow2_pos(i as nat);
            lemma_pow2_unfold((i + 1) as nat);
            lemma_div_denominator(p as int, pow2(i as nat) as int, 2);
            assert(low_bits(p as nat, (i + 1) as nat)
                == seq![bit_char((((p as nat) / pow2(i as nat)) % 2) as int)] + low_bits(p as nat, i as nat));
            assert(s@ =~= low_bits(p as nat, (i + 1) as nat));
        }
        cur = cur / 2;
        i = i + 1;
    }
    s
}

/// The characters that the renderings use.
pub open spec fn text_char(c: char) -> bool {
    c == '-' || c == '.' || c == '0' || c == '1' || c == '2' || c == '3' || c == '4'
        || c == '5' || c == '6' || c == '7' || c == '8' || c == '9'
}

pub open spec fn all_text_chars(s: Seq<char>) -> bool {
    forall|i: int| 0 <= i < s.len() ==> text_char(#[trigger] s[i])
}

proof fn lemma_decimal_digits_chars(n: nat)
    ensures
        all_text_chars(decimal_digits(n)),
    decreases n,
{
    if n > 0 {
        lemma_decimal_digits_chars(n / 10);
        let s = decimal_digits(n);
        assert forall|i: int| 0 <= i < s.len() implies text_char(#[trigger] s[i]) by {
            if i < s.len() - 1 {
                assert(s[i] == decimal_digits(n / 10)[i]);
            }
        }
    }
}

proof fn lemma_fraction_digits_chars(f: nat, q: nat, k: nat)
    ensures
        all_text_chars(fraction_digits(f, q, k)),
    decreases k,
{
    if k > 0 {
        let t = times_ten(f);
        lemma_pow2_pos(q);
        lemma_fraction_digits_chars(t % pow2(q), q, (k - 1) as nat);
        let rest = fraction_digits(t % pow2(q), q, (k - 1) as nat);
        let s = fraction_digits(f, q, k);
        assert(s == seq![digit_char((t / pow2(q)) as int)] + rest);
        assert forall|i: int| 0 <= i < s.len() implies text_char(#[trigger] s[i]) by {
            if i > 0 {
                assert(s[i] == rest[i - 1]);
            }
        }
    }
}

proof fn lemma_low_bits_chars(p: nat, n: nat)
    ensures
        all_text_chars(low_bits(p, n)),
    decreases n,
{
    if n > 0 {
        lemma_low_bits_chars(p, (n - 1) as nat);
        let rest = low_bits(p, (n - 1) as nat);
        let s = low_bits(p, n);
        assert forall|i: int| 0 <= i < s.len() implies text_char(#[trigger] s[i]) by {
            if i > 0 {
                assert(s[i] == rest[i - 1]);
            }
        }
    }
}

proof fn lemma_concat_chars(a: Seq<char>, b: Seq<char>)
    requires
        all_text_chars(a),
        all_text_chars(b),
    ensures
        all_text_chars(a + b),
{
    assert forall|i: int| 0 <= i < (a + b).len() implies text_char(#[trigger] (a + b)[i]) by {
        if i >= a.len() {
            assert((a + b)[i] == b[i - a.len()]);
        }
    }
}

/// The one-character string of `c`.
fn char_text(c: char) -> (r: &'static str)
    requires
        text_char(c),
    ensures
        r@ == seq![c],
{
    if c == '-' {
        proof { reveal_strlit("-"); }
        "-"
    } else if c == '.' {
        proof { reveal_strlit("."); }
        "."
    } else if c == '0' {
        proof { reveal_strlit("0"); }
        "0"
    } else if c == '1' {
        proof { reveal_strlit("1"); }
        "1"
    } else if c == '2' {
        proof { reveal_strlit("2"); }
        "2"
    } else if c == '3' {
        proof { reveal_strlit("3"); }
        "3"
    } else if c == '4' {
        proof { reveal_strlit("4"); }
        "4"
    } else if c == '5' {
        proof { reveal_strlit("5"); }
        "5"
    } else if c == '6' {
        proof { reveal_strlit("6"); }
        "6"
    } else if c == '7' {
        proof { reveal_strlit("7"); }
        "7"
    } else if c == '8' {
        proof { reveal_strlit("8"); }
        "8"
    } else {
        proof { reveal_strlit("9"); }
        "9"
    }
}

/// The string of the characters `chars`, in order.
fn text_of(chars: Vec<char>) -> (r: String)
    requires
        all_text_chars(chars@),
    ensures
        r@ == chars@,
{
    let mut s = String::new();
    let mut i: usize = 0;
    while i < chars.len()
        invariant
            i <= chars@.len(),
            all_text_chars(chars@),
            s@ == chars@.subrange(0, i as int),
        decreases chars@.len() - i,
    {
        let t = char_text(chars[i]);
        s.append(t);
        assert(chars@.subrange(0, i as int + 1) =~= chars@.subrange(0, i as int) + seq![chars@[i as int]]);
        i = i + 1;
    }
    assert(chars@.subrange(0, chars@.len() as int) =~= chars@);
    s
}

impl<T: FixedInt, const Q: u32> FixedPoint<T, Q> {
    /// Decimal text of the value, worked out with integer arithmetic alone.
    pub fn to_decimal_string(&self) -> (r: String)
        requires
            valid_fraction::<T>(Q as nat),
        ensures
            r@ == decimal_text(self.raw_int(), Q as nat),
    {
        proof {
            T::lemma_bounds();
            lemma_pow2_128();
            lemma_pow2_pos(Q as nat);
        }
        let v = self.raw_value().to_wide();
        let m = magnitude(v);
        let (whole, frac): (u128, u128) = if Q < 128 {
            let p = power_of_two(Q);
            (m / p, m % p)
        } else {
            proof {
                assert(Q == 128);
                vstd::arithmetic::div_mod::lemma_basic_div(m as int, pow2(Q as nat) as int);
                vstd::arithmetic::div_mod::lemma_small_mod(m as nat, pow2(Q as nat));
            }
            (0, m)
        };
        assert(whole as nat == (abs(v as int) as nat) / pow2(Q as nat));
        assert(frac as nat == (abs(v as int) as nat) % pow2(Q as nat));
        let mut out: Vec<char> = Vec::new();
        if v < 0 {
            out.push('-');
        }
        let mut w = whole_digits(whole);
        out.append(&mut w);
        out.push('.');
        push_fraction_digits(&mut out, frac, Q);
        assert(out@ =~= decimal_text(self.raw_int(), Q as nat));
        proof {
            let m = abs(v as int) as nat;
            let sign: Seq<char> = if v < 0 { seq!['-'] } else { seq![] };
            lemma_decimal_digits_chars(m / pow2(Q as nat));
            lemma_fraction_digits_chars(m % pow2(Q as nat), Q as nat, Q as nat);
            assert(all_text_chars(sign));
            assert(all_text_chars(seq!['.']));
            lemma_concat_chars(sign, decimal_digits(m / pow2(Q as nat)));
            lemma_concat_chars(sign + decimal_digits(m / pow2(Q as nat)), seq!['.']);
            lemma_concat_chars(
                sign + decimal_digits(m / pow2(Q as nat)) + seq!['.'],
                fraction_digits(m % pow2(Q as nat), Q as nat, Q as nat),
            );
        }
        text_of(out)
    }

    /// Binary text of the raw two's-complement bits: `width - Q` integer
    /// digits, a `.`, and `Q` fractional digits, without a separate sign.
    pub fn to_binary_string(&self) -> (r: String)
        requires
            valid_fraction::<T>(Q as nat),
        ensures
            r@ == binary_text(bit_pattern(self.raw_int(), T::bit_width()) as nat, T::bit_width(), Q as nat),
            r@.len() == T::bit_width() + 1,
            r@[T::bit_width() - Q] == '.',
    {
        proof {
            T::lemma_bounds();
            lemma_pow2_128();
            lemma_pow2_pos(Q as nat);
        }
        let p = self.raw_value().to_pattern();
        let w = T::width();
        let hi_bits: u128 = if Q < 128 {
            p / power_of_two(Q)
        } else {
            proof {
                assert(Q == 128);
                vstd::arithmetic::div_mod::lemma_basic_div(p as int, pow2(Q as nat) as int);
            }
            0
        };
        let mut out = low_bits_of(hi_bits, w - Q);
        out.push('.');
        let mut lo = low_bits_of(p, Q);
        out.append(&mut lo);
        proof {
            lemma_low_bits_len(hi_bits as nat, (w - Q) as nat);
            lemma_low_bits_len(p as nat, Q as nat);
        }
        assert(out@ =~= binary_text(p as nat, T::bit_width(), Q as nat));
        proof {
            lemma_low_bits_chars(hi_bits as nat, (w - Q) as nat);
            lemma_low_bits_chars(p as nat, Q as nat);
            assert(all_text_chars(seq!['.']));
            lemma_concat_chars(low_bits(hi_bits as nat, (w - Q) as nat), seq!['.']);
            lemma_concat_chars(low_bits(hi_bits as nat, (w - Q) as nat) + seq!['.'], low_bits(p as nat, Q as nat));
        }
        text_of(out)
    }
}

} // verus!
