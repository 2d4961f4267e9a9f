//! Human-readable byte counts.
use vstd::prelude::*;
use vstd::arithmetic::power2::{
    lemma2_to64, lemma2_to64_rest, lemma_pow2_adds, lemma_pow2_pos, lemma_pow2_strictly_increases,
    lemma_pow2_unfold, pow2,
};
use crate::text;
use crate::text::{push_char, push_decimal, push_decimal_padded};

verus! {

/// Binary (KiB, 1024) or decimal (KB, 1000) units.
#[derive(PartialEq, Eq, Structural, Debug, Clone, Copy)]
pub enum Units {
    Binary,
    Decimal,
}

impl Default for Units {
    fn default() -> (r: Self)
        ensures
            r == Units::Binary,
    {
        Units::Binary
    }
}

/// The factor between consecutive units.
pub open spec fn base_of(u: Units) -> nat {
    match u {
        Units::Binary => 1024,
        Units::Decimal => 1000,
    }
}

/// The name of unit `i` (0 = bytes).
pub open spec fn unit_label(u: Units, i: int) -> Seq<char> {
    match u {
        Units::Binary => if i == 0 { seq!['B'] } else if i == 1 { seq!['K', 'i', 'B'] } else if i == 2 {
            seq!['M', 'i', 'B']
        } else if i == 3 { seq!['G', 'i', 'B'] } else { seq!['T', 'i', 'B'] },
        Units::Decimal => if i == 0 { seq!['B'] } else if i == 1 { seq!['K', 'B'] } else if i == 2 {
            seq!['M', 'B']
        } else if i == 3 { seq!['G', 'B'] } else { seq!['T', 'B'] },
    }
}

impl Units {
    /// The factor between consecutive units and the unit names, bytes first.
    pub fn scale(self) -> (r: (u64, [&'static str; 5]))
        ensures
            r.0 == base_of(self),
            forall|i: int| 0 <= i < 5 ==> (#[trigger] r.1@[i])@ == unit_label(self, i),
    {
        proof {
            reveal_strlit("B");
            reveal_strlit("KiB");
            reveal_strlit("MiB");
            reveal_strlit("GiB");
            reveal_strlit("TiB");
            reveal_strlit("KB");
            reveal_strlit("MB");
            reveal_strlit("GB");
            reveal_strlit("TB");
        }
        match self {
            Units::Binary => (1024, ["B", "KiB", "MiB", "GiB", "TiB"]),
            Units::Decimal => (1000, ["B", "KB", "MB", "GB", "TB"]),
        }
    }
}

/// Decimal places per unit index: bytes whole, KiB/MiB to one place, GiB/TiB to two.
pub open spec fn size_decimals(i: int) -> nat {
    if i == 0 { 0 } else if i <= 2 { 1 } else { 2 }
}

/// `b` to the power `e`.
pub open spec fn power(b: nat, e: nat) -> nat
    decreases e,
{
    if e == 0 { 1 } else { b * power(b, (e - 1) as nat) }
}

/// `a / b` rounded to the nearest integer, ties to even.
pub open spec fn div_round_even(a: nat, b: nat) -> nat {
    let q = a / b;
    let r = a % b;
    if 2 * r > b || (2 * r == b && q % 2 == 1) { q + 1 } else { q }
}

/// A fixed-point number `n / 10^d` written with `d` decimals.
pub open spec fn fixed_text(n: nat, d: nat) -> Seq<char> {
    let f = power(10, d);
    if d == 0 {
        text::decimal(n)
    } else {
        text::decimal(n / f) + seq!['.'] + text::zero_pad(text::decimal(n % f), d)
    }
}

/// 2^52: the smallest 53-bit significand.
pub open spec fn two52() -> nat {
    4503599627370496
}

/// 2^53: one past the largest 53-bit significand.
pub open spec fn two53() -> nat {
    9007199254740992
}

/// A pair `(m, e)` stands for the value `m · 2^e`. It is a non-negative
/// binary64 number in normal form when `m` is zero or has exactly 53 bits.
pub open spec fn is_binary64(v: (nat, int)) -> bool {
    v.0 == 0 || two52() <= v.0 < two53()
}

/// Shifts a significand below 2^53 left until it has 53 bits (exact).
pub open spec fn normalized(m: nat, e: int) -> (nat, int)
    decreases two53() - m,
{
    if 0 < m < two52() {
        normalized(2 * m, e - 1)
    } else {
        (m, e)
    }
}

/// The number of low bits to drop from `m` so that 53 remain, searching from `t`.
pub open spec fn excess_bits(m: nat, t: nat) -> nat
    decreases 64 - t,
{
    if t >= 64 || m < two53() * pow2(t) {
        t
    } else {
        excess_bits(m, t + 1)
    }
}

/// The binary64 number nearest to `m · 2^e` (ties to even), for `m < 2^64`:
/// how an integer converts to `f64`, and how a product is rounded.
pub open spec fn to_binary64(m: nat, e: int) -> (nat, int) {
    if m < two53() {
        normalized(m, e)
    } else {
        let t = excess_bits(m, 0);
        let q = div_round_even(m, pow2(t));
        if q == two53() {
            (two52(), e + t + 1)
        } else {
            (q, e + t)
        }
    }
}

/// The binary64 quotient of `v` by `k`, correctly rounded (ties to even),
/// for `v` in normal form and `512 <= k <= 1024`: the exact quotient is
/// scaled by 2^10 or 2^9 so that its integer part has 53 bits.
pub open spec fn binary64_div(v: (nat, int), k: nat) -> (nat, int) {
    if v.0 == 0 {
        v
    } else {
        let s: nat = if v.0 * 1024 < two53() * k { 10 } else { 9 };
        let q = div_round_even(v.0 * pow2(s), k);
        if q == two53() {
            (two52(), v.1 - s + 1)
        } else {
            (q, v.1 - s)
        }
    }
}

/// Whether the value of `v` is at least `n`.
pub open spec fn binary64_at_least(v: (nat, int), n: nat) -> bool {
    if v.1 >= 0 {
        v.0 * pow2(v.1 as nat) >= n
    } else {
        v.0 >= n * pow2((-v.1) as nat)
    }
}

/// The value of `v` rounded to an integer, halves away from zero.
pub open spec fn binary64_round(v: (nat, int)) -> nat {
    if v.1 >= 0 {
        v.0 * pow2(v.1 as nat)
    } else {
        let d = pow2((-v.1) as nat);
        (2 * v.0 + d) / (2 * d)
    }
}

/// The value of `v` times 10^d rounded to an integer, ties to even: the
/// digits that formatting `v` with `d` decimals prints.
pub open spec fn binary64_scaled(v: (nat, int), d: nat) -> nat {
    if v.1 >= 0 {
        v.0 * pow2(v.1 as nat) * power(10, d)
    } else {
        div_round_even(v.0 * power(10, d), pow2((-v.1) as nat))
    }
}

/// Divides `v` by the base while it is at least the base and a larger unit
/// is left; gives the value and the unit index reached from index `i`.
pub open spec fn settle(v: (nat, int), k: nat, i: nat) -> ((nat, int), nat)
    decreases 4 - i,
{
    if i < 4 && binary64_at_least(v, k) {
        settle(binary64_div(v, k), k, i + 1)
    } else {
        (v, i)
    }
}

/// The value and unit index a byte count is shown in: the count as a
/// binary64 number, divided by the base while it reaches the base, and once
/// more when rounding to the unit's decimals would show a whole next unit
/// (1048575 bytes are 1023.999 KiB, shown as 1.0 MiB).
pub open spec fn shown_value(bytes: nat, u: Units) -> ((nat, int), nat) {
    let k = base_of(u);
    let r = settle(to_binary64(bytes, 0), k, 0);
    let f = power(10, size_decimals(r.1 as int));
    if r.1 < 4 && binary64_round(to_binary64(r.0.0 * f, r.0.1)) >= k * f {
        (binary64_div(r.0, k), r.1 + 1)
    } else {
        r
    }
}

/// The digits printed for a byte count, as an integer: the value in its unit
/// times 10^d, for the unit's `d` decimals.
pub open spec fn shown_digits(bytes: nat, u: Units) -> nat {
    let r = shown_value(bytes, u);
    binary64_scaled(r.0, size_decimals(r.1 as int))
}

/// The text shown for a byte count: the binary64 value in its unit, printed
/// with the unit's decimals, a space and the unit's name.
pub open spec fn size_text(bytes: nat, u: Units) -> Seq<char> {
    let r = shown_value(bytes, u);
    fixed_text(shown_digits(bytes, u), size_decimals(r.1 as int)) + seq![' '] + unit_label(u, r.1 as int)
}

fn push_label(out: &mut String, u: Units, i: usize)
    requires
        i < 5,
    ensures
        final(out)@ == old(out)@ + unit_label(u, i as int),
{
    let (_, names) = u.scale();
    out.append(names[i]);
}


/// `a / b` rounded half to even.
fn div_round_half_even(a: u128, b: u128) -> (r: u128)
    requires
        1 <= b <= u128::MAX / 4,
        a <= u128::MAX / 4,
    ensures
        r == div_round_even(a as nat, b as nat),
{
    let q = a / b;
    let rem = a % b;
    if 2 * rem > b || (2 * rem == b && q % 2 == 1) { q + 1 } else { q }
}

/// Appends `n / 10^d` with `d` decimals.
fn push_fixed(out: &mut String, n: u128, d: usize, f: u128)
    requires
        d <= 2,
        f == power(10, d as nat),
    ensures
        final(out)@ == old(out)@ + fixed_text(n as nat, d as nat),
{
    if d == 0 {
        push_decimal(out, n);
    } else {
        assert(f == 10 || f == 100) by { reveal_with_fuel(power, 3); }
        push_decimal(out, n / f);
        push_char(out, '.');
        push_decimal_padded(out, (n % f) as u64, d);
        assert(final(out)@ =~= old(out)@ + fixed_text(n as nat, d as nat));
    }
}

/// Formats a byte count in the largest fitting unit, stepping up when

/// A multiple of 2^12: rounding a number of at most 64 bits to 53 never
/// crosses one.
spec fn grid(c: nat) -> nat {
    c * 4096
}

/// Rounding `a / b` is at least `c` when `a / b` is.
proof fn lemma_round_at_least(a: nat, b: nat, c: nat)
    requires
        b > 0,
        c * b <= a,
    ensures
        c <= div_round_even(a, b),
{
    let q = a / b;
    let r = a % b;
    assert(a == q * b + r && 0 <= r < b) by (nonlinear_arith)
        requires b > 0, q == a / b, r == a % b;
    assert(c <= q) by (nonlinear_arith)
        requires a == q * b + r, 0 <= r < b, c * b <= a, b > 0;
}

/// Rounding `a / b` is at most `c` when `a / b` is.
proof fn lemma_round_at_most(a: nat, b: nat, c: nat)
    requires
        b > 0,
        a <= c * b,
    ensures
        div_round_even(a, b) <= c,
{
    let q = a / b;
    let r = a % b;
    assert(a == q * b + r && 0 <= r < b) by (nonlinear_arith)
        requires b > 0, q == a / b, r == a % b;
    assert(q <= c) by (nonlinear_arith)
        requires a == q * b + r, 0 <= r < b, a <= c * b, b > 0;
    if q == c {
        assert(r == 0) by (nonlinear_arith)
            requires a == q * b + r, 0 <= r, a <= c * b, q == c;
    }
}

/// Rounding `a / b` stays below `c` when `a / b < c - 1/2`.
proof fn lemma_round_below(a: nat, b: nat, c: nat)
    requires
        b > 0,
        c >= 1,
        2 * a < (2 * c - 1) * b,
    ensures
        div_round_even(a, b) < c,
{
    let q = a / b;
    let r = a % b;
    assert(a == q * b + r && 0 <= r < b) by (nonlinear_arith)
        requires b > 0, q == a / b, r == a % b;
    assert(q <= c - 1) by (nonlinear_arith)
        requires a == q * b + r, 0 <= r, b > 0, 2 * a < (2 * c - 1) * b, c >= 1;
    if q == c - 1 {
        assert(2 * r < b) by (nonlinear_arith)
            requires a == q * b + r, q == c - 1, 2 * a < (2 * c - 1) * b;
    }
}

proof fn lemma_pow2_bound(n: nat)
    requires
        n <= 120,
    ensures
        1 <= pow2(n) <= 1329227995784915872903807060280344576,
{
    lemma2_to64();
    lemma2_to64_rest();
    lemma_pow2_adds(64, 56);
    lemma_pow2_pos(n);
    if n < 120 {
        lemma_pow2_strictly_increases(n, 120);
    }
}

/// Rounding `a / b` lands between `lo` and `hi` when `a / b` does.
proof fn lemma_round_between(a: nat, b: nat, lo: nat, hi: nat)
    requires
        b > 0,
        lo * b <= a < hi * b,
    ensures
        lo <= div_round_even(a, b) <= hi,
{
    let q = a / b;
    let r = a % b;
    assert(a == q * b + r && 0 <= r < b) by (nonlinear_arith)
        requires b > 0, q == a / b, r == a % b;
    assert(lo <= q < hi) by (nonlinear_arith)
        requires a == q * b + r, 0 <= r < b, lo * b <= a < hi * b, b > 0;
}

proof fn lemma_normalized(m: nat, e: int)
    requires
        m < two53(),
    ensures
        is_binary64(normalized(m, e)),
        e - 52 <= normalized(m, e).1 <= e,
        normalized(m, e).0 == m * pow2((e - normalized(m, e).1) as nat),
        0 < m < two52() ==> normalized(m, e).1 < e,
        m > 0 ==> normalized(m, e).0 > 0,
        (m == 0 || two52() <= m) ==> normalized(m, e) == (m, e),
    decreases two53() - m,
{
    lemma2_to64();
    lemma2_to64_rest();
    if 0 < m < two52() {
        lemma_normalized(2 * m, e - 1);
        let r = normalized(m, e);
        let j = (e - r.1) as nat;
        lemma_pow2_unfold(j);
        assert(r.0 == m * pow2(j)) by (nonlinear_arith)
            requires
                r.0 == 2 * m * pow2((j - 1) as nat),
                pow2(j) == 2 * pow2((j - 1) as nat),
        ;
        if j == 53 {
            assert(m * pow2(j) >= pow2(j)) by (nonlinear_arith)
                requires m >= 1, pow2(j) >= 0;
        }
        assert(normalized(m, e).0 == m * pow2((e - normalized(m, e).1) as nat));
    } else {
        assert(normalized(m, e) == (m, e));
        assert(m * pow2(0) == m);
    }
}

/// 2^n.
fn pow2_u128(n: u32) -> (r: u128)
    requires
        n <= 120,
    ensures
        r == pow2(n as nat),
        1 <= r <= 1329227995784915872903807060280344576,
{
    let mut r: u128 = 1;
    let mut i: u32 = 0;
    proof {
        lemma2_to64();
    }
    while i < n
        invariant
            i <= n <= 120,
            r == pow2(i as nat),
        decreases n - i,
    {
        proof {
            lemma_pow2_unfold((i + 1) as nat);
            lemma_pow2_bound((i + 1) as nat);
        }
        r = r * 2;
        i = i + 1;
    }
    proof {
        lemma_pow2_bound(n as nat);
    }
    r
}

/// `m · 2^e` for `m < 2^53`, shifted into normal form.
fn normalize(m: u64, e: i32) -> (r: (u64, i32))
    requires
        m < two53(),
        -200 <= e <= 100,
    ensures
        (r.0 as nat, r.1 as int) == normalized(m as nat, e as int),
{
    let mut x = m;
    let mut f = e;
    proof {
        lemma_normalized(m as nat, e as int);
    }
    while 0 < x && x < 4503599627370496
        invariant
            x < two53(),
            -200 <= e <= 100,
            normalized(x as nat, f as int) == normalized(m as nat, e as int),
            normalized(m as nat, e as int).1 >= e - 52,
            normalized(x as nat, f as int).1 <= f,
        decreases two53() - x,
    {
        proof {
            lemma_normalized(x as nat, f as int);
            lemma_normalized((2 * x) as nat, (f - 1) as int);
        }
        x = x * 2;
        f = f - 1;
    }
    (x, f)
}

/// The binary64 number nearest to `m · 2^e` for `m >= 2^53`.
fn round_wide(m: u64, e: i32) -> (r: (u64, i32))
    requires
        two53() <= m,
        -200 <= e <= 100,
    ensures
        (r.0 as nat, r.1 as int) == to_binary64(m as nat, e as int),
        is_binary64((r.0 as nat, r.1 as int)),
        e < r.1 <= e + 12,
        forall|c: nat| #[trigger] grid(c) <= m ==> grid(c) <= r.0 * pow2((r.1 - e) as nat),
{
    let mut t: u32 = 0;
    let mut p: u128 = 1;
    proof {
        lemma2_to64();
        lemma2_to64_rest();
    }
    while (m as u128) >= 9007199254740992u128 * p
        invariant
            two53() <= m,
            t <= 11,
            p == pow2(t as nat),
            p <= 2048,
            m >= two52() * p,
            t == 0 ==> m >= two53() * p,
            excess_bits(m as nat, t as nat) == excess_bits(m as nat, 0),
        decreases 11 - t,
    {
        proof {
            lemma2_to64();
            if t < 10 {
                lemma_pow2_strictly_increases(t as nat, 10);
            }
            lemma_pow2_unfold((t + 1) as nat);
        }
        t = t + 1;
        p = p * 2;
    }
    let q = div_round_half_even(m as u128, p);
    proof {
        lemma_round_between(m as nat, p as nat, two52(), two53());
        lemma_pow2_adds((12 - t) as nat, t as nat);
        lemma2_to64();
        assert forall|c: nat| #[trigger] grid(c) <= m implies grid(c) <= q * p by {
            let g = pow2((12 - t) as nat);
            assert(grid(c) == (c * g) * p) by (nonlinear_arith)
                requires grid(c) == c * 4096, 4096 == g * p;
            lemma_round_at_least(m as nat, p as nat, c * g);
            assert(grid(c) <= q * p) by (nonlinear_arith)
                requires grid(c) == (c * g) * p, c * g <= q;
        }
        if q == 9007199254740992 {
            lemma_pow2_unfold((t + 1) as nat);
            assert(4503599627370496 * pow2((t + 1) as nat) == q * p);
        }
    }
    if q == 9007199254740992 {
        (4503599627370496, e + (t as i32) + 1)
    } else {
        (q as u64, e + (t as i32))
    }
}

/// The binary64 number nearest to `m · 2^e`.
fn to_float(m: u64, e: i32) -> (r: (u64, i32))
    requires
        -200 <= e <= 100,
    ensures
        (r.0 as nat, r.1 as int) == to_binary64(m as nat, e as int),
        is_binary64((r.0 as nat, r.1 as int)),
        e - 52 <= r.1 <= e + 12,
        (m == 0 || two52() <= m) ==> e <= r.1,
        (m == 0 || two52() <= m) && m < two53() ==> r == (m, e),
        two53() <= m ==> forall|c: nat| #[trigger] grid(c) <= m ==> grid(c) <= r.0 * pow2((r.1 - e) as nat),
{
    if m < 9007199254740992 {
        proof {
            lemma_normalized(m as nat, e as int);
        }
        normalize(m, e)
    } else {
        round_wide(m, e)
    }
}

/// `v / k` in binary64, for the bases 1000 and 1024.
fn divide(v: (u64, i32), k: u64) -> (r: (u64, i32))
    requires
        is_binary64((v.0 as nat, v.1 as int)),
        k == 1000 || k == 1024,
        -200 <= v.1 <= 100,
    ensures
        (r.0 as nat, r.1 as int) == binary64_div((v.0 as nat, v.1 as int), k as nat),
        is_binary64((r.0 as nat, r.1 as int)),
        v.1 - 10 <= r.1 <= v.1,
{
    if v.0 == 0 {
        return v;
    }
    proof {
        lemma2_to64();
    }
    let m = v.0 as u128;
    let wide = m * 1024 < 9007199254740992u128 * (k as u128);
    let s: u32 = if wide { 10 } else { 9 };
    let ps: u128 = if wide { 1024 } else { 512 };
    let q = div_round_half_even(m * ps, k as u128);
    proof {
        lemma_round_between((m * ps) as nat, k as nat, two52(), two53());
    }
    if q == 9007199254740992 {
        (4503599627370496, v.1 - (s as i32) + 1)
    } else {
        (q as u64, v.1 - (s as i32))
    }
}

/// Whether the value of `v` is at least `n`.
fn at_least(v: (u64, i32), n: u64) -> (r: bool)
    requires
        v.0 < two53(),
        -100 <= v.1 <= 20,
        n <= 1048576,
    ensures
        r == binary64_at_least((v.0 as nat, v.1 as int), n as nat),
{
    if v.1 >= 0 {
        let p = pow2_u128(v.1 as u32);
        proof {
            lemma_pow2_bound(20);
            if v.1 < 20 {
                lemma_pow2_strictly_increases(v.1 as nat, 20);
            }
            lemma2_to64();
        }
        assert((v.0 as u128) * p <= 9007199254740992u128 * 1048576) by (nonlinear_arith)
            requires v.0 < 9007199254740992u128, p <= 1048576;
        (v.0 as u128) * p >= n as u128
    } else {
        let p = pow2_u128((-v.1) as u32);
        proof {
            lemma2_to64_rest();
            lemma_pow2_adds(64, 36);
            if -v.1 < 100 {
                lemma_pow2_strictly_increases((-v.1) as nat, 100);
            }
            lemma2_to64();
        }
        assert((n as u128) * p <= 1048576u128 * 1267650600228229401496703205376u128) by (nonlinear_arith)
            requires n <= 1048576u128, p <= 1267650600228229401496703205376u128;
        v.0 as u128 >= (n as u128) * p
    }
}

/// The value of `v` rounded to an integer, halves away from zero.
fn round_value(v: (u64, i32)) -> (r: u128)
    requires
        v.0 < two53(),
        -100 <= v.1 <= 30,
    ensures
        r == binary64_round((v.0 as nat, v.1 as int)),
{
    if v.1 >= 0 {
        let p = pow2_u128(v.1 as u32);
        proof {
            lemma2_to64();
            if v.1 < 30 {
                lemma_pow2_strictly_increases(v.1 as nat, 30);
            }
        }
        assert((v.0 as u128) * p <= 9007199254740992u128 * 1073741824) by (nonlinear_arith)
            requires v.0 < 9007199254740992u128, p <= 1073741824;
        (v.0 as u128) * p
    } else {
        let d = pow2_u128((-v.1) as u32);
        (2 * (v.0 as u128) + d) / (2 * d)
    }
}

/// The value of `v` times 10^d, rounded to an integer, ties to even.
fn scaled_value(v: (u64, i32), d: usize, f: u128) -> (r: u128)
    requires
        v.0 < two53(),
        -100 <= v.1 <= 20,
        d <= 2,
        f == power(10, d as nat),
    ensures
        r == binary64_scaled((v.0 as nat, v.1 as int), d as nat),
{
    assert(f <= 100) by {
        reveal_with_fuel(power, 3);
    }
    if v.1 >= 0 {
        let p = pow2_u128(v.1 as u32);
        proof {
            lemma2_to64();
            if v.1 < 20 {
                lemma_pow2_strictly_increases(v.1 as nat, 20);
            }
        }
        assert((v.0 as u128) * p <= 9007199254740992u128 * 1048576) by (nonlinear_arith)
            requires v.0 < 9007199254740992u128, p <= 1048576;
        assert((v.0 as u128) * p * f <= 9007199254740992u128 * 1048576 * 100) by (nonlinear_arith)
            requires (v.0 as u128) * p <= 9007199254740992u128 * 1048576, f <= 100;
        (v.0 as u128) * p * f
    } else {
        let p = pow2_u128((-v.1) as u32);
        proof {
            lemma2_to64_rest();
            lemma_pow2_adds(64, 36);
            if -v.1 < 100 {
                lemma_pow2_strictly_increases((-v.1) as nat, 100);
            }
        }
        assert((v.0 as u128) * f <= 9007199254740992u128 * 100) by (nonlinear_arith)
            requires v.0 < 9007199254740992u128, f <= 100;
        div_round_half_even((v.0 as u128) * f, p)
    }
}

/// A value in normal form below the base has an exponent of at most -43.
proof fn lemma_below_base_exponent(v: (nat, int), k: nat)
    requires
        two52() <= v.0 < two53(),
        k <= 1024,
        !binary64_at_least(v, k),
    ensures
        v.1 <= -43,
{
    lemma2_to64();
    lemma2_to64_rest();
    if v.1 >= 0 {
        lemma_pow2_pos(v.1 as nat);
        assert(v.0 * pow2(v.1 as nat) >= v.0) by (nonlinear_arith)
            requires pow2(v.1 as nat) >= 1;
    } else {
        let j = (-v.1) as nat;
        if j <= 42 {
            if j < 42 {
                lemma_pow2_strictly_increases(j, 42);
            }
            assert(k * pow2(j) <= 1024 * pow2(42)) by (nonlinear_arith)
                requires k <= 1024, pow2(j) <= pow2(42);
        }
    }
}

/// Without a step up, the number printed stays below a whole next unit:
/// `round(v · f) < k · f` for the binary64 product means the exact
/// `v · f` is below `k · f - 1/2`.
proof fn lemma_no_step(x: nat, e: int, w: (nat, int), kf: nat)
    requires
        -100 <= e <= -43,
        e <= w.1 <= e + 12,
        forall|c: nat| #[trigger] grid(c) <= x ==> grid(c) <= w.0 * pow2((w.1 - e) as nat),
        binary64_round(w) < kf,
        kf >= 1,
    ensures
        2 * x < (2 * kf - 1) * pow2((-e) as nat),
{
    let g = (w.1 - e) as nat;
    let j = (-w.1) as nat;
    let dw = pow2(j);
    let gg = pow2(g);
    let d = pow2((-e) as nat);
    lemma_pow2_adds(j, g);
    assert(d == dw * gg);
    lemma_pow2_pos(j);
    lemma_pow2_pos(g);
    let h = pow2(((-e) - 13) as nat);
    lemma_pow2_adds(((-e) - 13) as nat, 13);
    lemma2_to64();
    assert(d == h * 8192);
    if 2 * x >= (2 * kf - 1) * d {
        let c = ((2 * kf - 1) * h) as nat;
        assert(grid(c) * 2 == (2 * kf - 1) * d) by (nonlinear_arith)
            requires grid(c) == c * 4096, c == (2 * kf - 1) * h, d == h * 8192;
        assert(grid(c) <= x);
        assert(grid(c) <= w.0 * gg);
        assert(2 * w.0 >= (2 * kf - 1) * dw) by (nonlinear_arith)
            requires grid(c) * 2 == (2 * kf - 1) * d, d == dw * gg, grid(c) <= w.0 * gg, gg > 0;
        assert((2 * w.0 + dw) / (2 * dw) >= kf) by (nonlinear_arith)
            requires 2 * w.0 >= (2 * kf - 1) * dw, dw > 0, kf >= 1;
    }
}

/// Stepping up from a value below the base shows at most 1 in the next
/// unit.
proof fn lemma_step_small(v: (nat, int), k: nat, dd: nat)
    requires
        two52() <= v.0 < two53(),
        -100 <= v.1 <= -43,
        k == 1000 || k == 1024,
        !binary64_at_least(v, k),
        dd <= 2,
    ensures
        binary64_scaled(binary64_div(v, k), dd) <= power(10, dd),
{
    lemma2_to64();
    let f = power(10, dd);
    assert(f >= 1) by {
        reveal_with_fuel(power, 3);
    }
    let s: nat = if v.0 * 1024 < two53() * k { 10 } else { 9 };
    let ps = pow2(s);
    let j = (-v.1) as nat;
    let dj = pow2(j);
    let big = pow2(s + j);
    lemma_pow2_adds(s, j);
    lemma_pow2_pos(j);
    assert(v.0 * ps < big * k) by (nonlinear_arith)
        requires v.0 < k * dj, big == ps * dj, ps > 0;
    let q = div_round_even(v.0 * ps, k);
    lemma_round_at_most(v.0 * ps, k, big);
    assert(q <= big);
    let r = binary64_div(v, k);
    if q == two53() {
        assert(r == (two52(), v.1 - s + 1));
        let half = pow2((s + j - 1) as nat);
        lemma_pow2_unfold(s + j);
        assert(two52() * f <= f * half) by (nonlinear_arith)
            requires two53() <= big, big == 2 * half, f >= 1, two53() == 2 * two52();
        lemma_round_at_most(two52() * f, half, f);
    } else {
        assert(r == (q, v.1 - s));
        assert(q * f <= f * big) by (nonlinear_arith)
            requires q <= big, f >= 1;
        lemma_round_at_most(q * f, big, f);
    }
}

/// The byte count as a binary64 number, divided by the base `k` while it
/// reaches the base and a larger unit is left, with the unit index reached.
fn settled(bytes: u64, k: u64) -> (r: ((u64, i32), usize))
    requires
        k == 1000 || k == 1024,
    ensures
        settle(to_binary64(bytes as nat, 0), k as nat, 0) == ((r.0.0 as nat, r.0.1 as int), r.1 as nat),
        is_binary64((r.0.0 as nat, r.0.1 as int)),
        r.1 <= 4,
        -52 - 10 * r.1 <= r.0.1 <= 12,
        r.1 < 4 ==> !binary64_at_least((r.0.0 as nat, r.0.1 as int), k as nat),
{
    let mut v = to_float(bytes, 0);
    let mut i: usize = 0;
    let mut go = at_least(v, k);
    while go
        invariant
            k == 1000 || k == 1024,
            i <= 4,
            is_binary64((v.0 as nat, v.1 as int)),
            -52 - 10 * i <= v.1 <= 12,
            go == (i < 4 && binary64_at_least((v.0 as nat, v.1 as int), k as nat)),
            settle(to_binary64(bytes as nat, 0), k as nat, 0) == settle((v.0 as nat, v.1 as int), k as nat, i as nat),
        decreases 4 - i,
    {
        v = divide(v, k);
        i = i + 1;
        go = i < 4 && at_least(v, k);
    }
    (v, i)
}

/// The value and unit index a byte count is shown in.
fn shown(bytes: u64, units: Units) -> (r: ((u64, i32), usize))
    ensures
        shown_value(bytes as nat, units) == ((r.0.0 as nat, r.0.1 as int), r.1 as nat),
        is_binary64((r.0.0 as nat, r.0.1 as int)),
        r.1 <= 4,
        -92 <= r.0.1 <= 12,
        r.1 < 4 ==> binary64_scaled((r.0.0 as nat, r.0.1 as int), size_decimals(r.1 as int)) < base_of(units)
            * power(10, size_decimals(r.1 as int)),
{
    let k: u64 = match units {
        Units::Binary => 1024,
        Units::Decimal => 1000,
    };
    let (v, i) = settled(bytes, k);
    let d0: usize = if i == 0 { 0 } else if i <= 2 { 1 } else { 2 };
    let f0: u64 = if d0 == 0 { 1 } else if d0 == 1 { 10 } else { 100 };
    assert(f0 == power(10, size_decimals(i as int))) by {
        reveal_with_fuel(power, 3);
    }
    assert(v.0 * f0 <= 9007199254740992u64 * 100) by (nonlinear_arith)
        requires v.0 < 9007199254740992u64, f0 <= 100;
    assert(v.0 * f0 == 0 || two52() <= v.0 * f0) by (nonlinear_arith)
        requires v.0 == 0 || two52() <= v.0, 1 <= f0;
    let ghost vv = (v.0 as nat, v.1 as int);
    if i < 4 {
        let w = to_float(v.0 * f0, v.1);
        if round_value(w) >= (k * f0) as u128 {
            let r = divide(v, k);
            proof {
                if v.0 != 0 {
                    lemma_below_base_exponent(vv, k as nat);
                    lemma_step_small(vv, k as nat, size_decimals(i + 1));
                    assert(power(10, size_decimals(i + 1)) >= 1) by {
                        reveal_with_fuel(power, 3);
                    }
                }
            }
            return (r, i + 1);
        }
        proof {
            if v.0 != 0 {
                let x = (v.0 * f0) as nat;
                let ww = (w.0 as nat, w.1 as int);
                lemma_below_base_exponent(vv, k as nat);
                if i == 0 {
                    lemma2_to64();
                    assert(ww == (x, vv.1));
                    assert forall|c: nat| #[trigger] grid(c) <= x implies grid(c) <= ww.0 * pow2((ww.1 - vv.1) as nat) by {}
                }
                lemma_no_step(x, vv.1, ww, (k * f0) as nat);
                lemma_pow2_pos((-vv.1) as nat);
                lemma_round_below(x, pow2((-vv.1) as nat), (k * f0) as nat);
            }
        }
    }
    (v, i)
}

/// Formats a byte count the way the value prints as an `f64`: divided by the
/// base into the largest unit it reaches, stepping up when rounding would
/// show a full unit ("1024.0 KiB" becomes "1.0 MiB").
pub fn format_size(bytes: u64, units: Units) -> (r: String)
    ensures
        r@ == size_text(bytes as nat, units),
        shown_value(bytes as nat, units).1 < 4 ==> shown_digits(bytes as nat, units) < base_of(units) * power(
            10,
            size_decimals(shown_value(bytes as nat, units).1 as int),
        ),
{
    let (v, i) = shown(bytes, units);
    let d: usize = if i == 0 { 0 } else if i <= 2 { 1 } else { 2 };
    let f: u128 = if d == 0 { 1 } else if d == 1 { 10 } else { 100 };
    assert(f == power(10, d as nat)) by {
        reveal_with_fuel(power, 3);
    }
    assert(d == size_decimals(i as int));
    let n = scaled_value(v, d, f);
    let mut out = String::new();
    push_fixed(&mut out, n, d, f);
    push_char(&mut out, ' ');
    push_label(&mut out, units, i);
    out
}

} // verus!

verus! {

/// `a / b` is `q` when `q · b <= a < (q + 1) · b`.
proof fn lemma_div_between(a: nat, b: nat, q: nat)
    requires
        b > 0,
        q * b <= a < (q + 1) * b,
    ensures
        a / b == q,
        a % b == a - q * b,
{
    let q2 = a / b;
    let r2 = a % b;
    assert(a == q2 * b + r2 && 0 <= r2 < b) by (nonlinear_arith)
        requires b > 0, q2 == a / b, r2 == a % b;
    assert(q2 == q) by (nonlinear_arith)
        requires a == q2 * b + r2, 0 <= r2 < b, q * b <= a < (q + 1) * b, b > 0;
}

proof fn lemma_settle_bound(v: (nat, int), k: nat, i: nat)
    requires
        i <= 4,
    ensures
        settle(v, k, i).1 <= 4,
    decreases 4 - i,
{
    if i < 4 && binary64_at_least(v, k) {
        lemma_settle_bound(binary64_div(v, k), k, i + 1);
    }
}

/// Counts below the base are shown whole, in bytes: "0 B", "999 B",
/// "1023 B".
pub proof fn law_small_counts_in_bytes(bytes: nat, u: Units)
    requires
        bytes < base_of(u),
    ensures
        size_text(bytes, u) == text::decimal(bytes) + seq![' ', 'B'],
{
    lemma2_to64();
    let k = base_of(u);
    let v = to_binary64(bytes, 0);
    lemma_normalized(bytes, 0);
    assert(v == normalized(bytes, 0));
    lemma_normalized(v.0, v.1);
    assert(power(10, 0) == 1);
    assert(v.0 * 1 == v.0);
    assert(to_binary64(v.0 * 1, v.1) == v);
    if bytes == 0 {
        assert(v == (0nat, 0int));
        assert(binary64_round(v) == 0);
        assert(binary64_scaled(v, 0) == 0);
    } else {
        let j = (0 - v.1) as nat;
        let d = pow2(j);
        lemma_pow2_pos(j);
        assert(v.1 < 0);
        assert(v.0 == bytes * d);
        assert(!(bytes * d >= k * d)) by (nonlinear_arith)
            requires bytes < k, d > 0;
        assert(!binary64_at_least(v, k));
        assert(bytes * (2 * d) <= 2 * v.0 + d < (bytes + 1) * (2 * d)) by (nonlinear_arith)
            requires v.0 == bytes * d, d > 0;
        lemma_div_between(2 * v.0 + d, 2 * d, bytes);
        assert(binary64_round(v) == bytes);
        assert(bytes * d <= v.0 * 1 < (bytes + 1) * d) by (nonlinear_arith)
            requires v.0 == bytes * d, d > 0;
        lemma_div_between(v.0 * 1, d, bytes);
        assert(binary64_scaled(v, 0) == bytes);
    }
    assert(settle(v, k, 0) == (v, 0nat));
    assert(shown_value(bytes, u) == (v, 0nat));
    assert(size_text(bytes, u) =~= text::decimal(bytes) + seq![' ', 'B']);
}

/// Every size reads as a number, a space and a unit's name; the number has
/// no decimals in bytes, one in KiB and MiB (KB, MB) and two in GiB and TiB
/// (GB, TB).
pub proof fn law_size_shape(bytes: nat, u: Units)
    ensures
        exists|n: nat, i: int|
            #![trigger fixed_text(n, size_decimals(i))]
            0 <= i <= 4 && size_decimals(i) == (if i == 0 { 0nat } else if i <= 2 { 1nat } else { 2nat })
                && size_text(bytes, u) == fixed_text(n, size_decimals(i)) + seq![' '] + unit_label(u, i),
{
    let k = base_of(u);
    lemma_settle_bound(to_binary64(bytes, 0), k, 0);
    let r = shown_value(bytes, u);
    let i = r.1 as int;
    let n = binary64_scaled(r.0, size_decimals(i));
    assert(0 <= i <= 4);
    assert(size_text(bytes, u) == fixed_text(n, size_decimals(i)) + seq![' '] + unit_label(u, i));
}

} // verus!
