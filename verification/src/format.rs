//! Numbers as they are shown in logs and on the dashboard.
//!
//! Sizes and token counts above the first unit are shown with one decimal
//! place, the way a double-precision quotient is printed: the count is rounded
//! to a double, divided with rounding to a double, and the exact value of that
//! double is rounded to tenths. Each of the three roundings goes to the nearest
//! candidate, and to the even one where two are equally near.

use vstd::prelude::*;
use vstd::arithmetic::power2::*;

verus! {

/// `String::push` appends the given character and changes nothing else.
pub assume_specification[ String::push ](s: &mut String, c: char)
    ensures
        final(s)@ == old(s)@.push(c),
;

/// The character for a decimal digit.
pub open spec fn digit_char(d: int) -> char {
    if d == 0 { '0' } else if d == 1 { '1' } else if d == 2 { '2' } else if d == 3 { '3' }
    else if d == 4 { '4' } else if d == 5 { '5' } else if d == 6 { '6' } else if d == 7 { '7' }
    else if d == 8 { '8' } else { '9' }
}

/// The decimal notation of `n`, without leading zeros.
pub open spec fn decimal(n: nat) -> Seq<char>
    decreases n,
{
    if n < 10 {
        seq![digit_char(n as int)]
    } else {
        decimal(n / 10).push(digit_char((n % 10) as int))
    }
}

/// The decimal notation of `n` with a dot before every group of three digits,
/// counted from the right, except at the very front.
pub open spec fn grouped_decimal(n: nat) -> Seq<char>
    decreases n,
{
    if n < 1000 {
        decimal(n)
    } else {
        grouped_decimal(n / 1000) + seq![
            '.',
            digit_char((n / 100 % 10) as int),
            digit_char((n / 10 % 10) as int),
            digit_char((n % 10) as int),
        ]
    }
}

/// The integer nearest to `num / den`, the even one of two equally near.
pub open spec fn round_half_even(num: nat, den: nat) -> nat {
    let q = num / den;
    let r = num % den;
    if 2 * r < den || (2 * r == den && q % 2 == 0) {
        q
    } else {
        q + 1
    }
}

/// The largest `e` for which `den * 2^e <= num`, given that `den <= num`.
pub open spec fn binary_exponent(num: nat, den: nat) -> nat
    decreases num - den,
{
    if den == 0 || num < 2 * den {
        0
    } else {
        1 + binary_exponent(num, 2 * den)
    }
}

/// The integer nearest to `n` that has at most 53 significant bits: the value
/// of `n` as a double.
pub open spec fn as_double(n: nat) -> nat {
    let e = binary_exponent(n, 1);
    if e <= 52 {
        n
    } else {
        let step = pow2((e - 52) as nat);
        round_half_even(n, step) * step
    }
}

/// How many tenths are shown for the double nearest to `num / den`, where the
/// quotient is at least 1 and below 2^53.
pub open spec fn quotient_tenths(num: nat, den: nat) -> nat {
    let scale = pow2((52 - binary_exponent(num, den)) as nat);
    let significand = round_half_even(num * scale, den);
    round_half_even(10 * significand, scale)
}

/// `n / unit` as a double, shown with one decimal place.
pub open spec fn one_decimal(n: nat, unit: nat) -> Seq<char> {
    let tenths = quotient_tenths(as_double(n), unit);
    decimal(tenths / 10) + seq!['.', digit_char((tenths % 10) as int)]
}

/// What `fmt_bytes` shows.
pub open spec fn bytes_text(n: nat) -> Seq<char> {
    if n >= 1_073_741_824 {
        one_decimal(n, 1_073_741_824) + seq![' ', 'G', 'B']
    } else if n >= 1_048_576 {
        one_decimal(n, 1_048_576) + seq![' ', 'M', 'B']
    } else if n >= 1_024 {
        one_decimal(n, 1_024) + seq![' ', 'K', 'B']
    } else {
        decimal(n) + seq![' ', 'B']
    }
}

/// What `fmt_tokens` shows.
pub open spec fn tokens_text(n: nat) -> Seq<char> {
    if n >= 1_000_000 {
        one_decimal(n, 1_000_000).push('M')
    } else if n >= 1_000 {
        one_decimal(n, 1_000).push('k')
    } else {
        decimal(n)
    }
}

fn digit(d: u64) -> (c: char)
    requires
        d < 10,
    ensures
        c == digit_char(d as int),
{
    match d {
        0 => '0',
        1 => '1',
        2 => '2',
        3 => '3',
        4 => '4',
        5 => '5',
        6 => '6',
        7 => '7',
        8 => '8',
        _ => '9',
    }
}

fn decimal_string(n: u64) -> (s: String)
    ensures
        s@ == decimal(n as nat),
    decreases n,
{
    if n < 10 {
        let mut s = String::new();
        s.push(digit(n));
        assert(s@ =~= decimal(n as nat));
        s
    } else {
        let mut s = decimal_string(n / 10);
        s.push(digit(n % 10));
        s
    }
}

/// `n` with its digits in groups of three, separated by dots.
pub fn fmt_thousands(n: u64) -> (s: String)
    ensures
        s@ == grouped_decimal(n as nat),
    decreases n,
{
    if n < 1000 {
        decimal_string(n)
    } else {
        let mut s = fmt_thousands(n / 1000);
        s.push('.');
        s.push(digit(n / 100 % 10));
        s.push(digit(n / 10 % 10));
        s.push(digit(n % 10));
        assert(s@ =~= grouped_decimal(n as nat));
        s
    }
}

/// The bounds that the exponent is defined by.
pub proof fn lemma_binary_exponent(num: nat, den: nat)
    requires
        0 < den <= num,
    ensures
        den * pow2(binary_exponent(num, den)) <= num,
        num < 2 * (den * pow2(binary_exponent(num, den))),
    decreases num - den,
{
    let e = binary_exponent(num, den);
    if num < 2 * den {
        lemma2_to64();
        assert(den * 1 == den);
    } else {
        lemma_binary_exponent(num, 2 * den);
        let p = pow2(binary_exponent(num, 2 * den));
        lemma_pow2_unfold(e);
        assert(pow2(e) == 2 * p);
        assert(den * (2 * p) == (2 * den) * p) by (nonlinear_arith);
    }
}

/// An upper bound on the quotient bounds its exponent.
pub proof fn lemma_binary_exponent_below(num: nat, den: nat, k: nat)
    requires
        0 < den <= num,
        num < den * pow2(k),
    ensures
        binary_exponent(num, den) < k,
{
    let e = binary_exponent(num, den);
    lemma_binary_exponent(num, den);
    if e >= k {
        if e > k {
            lemma_pow2_strictly_increases(k, e);
        }
        assert(den * pow2(k) <= den * pow2(e)) by (nonlinear_arith)
            requires
                pow2(k) <= pow2(e),
        ;
    }
}

/// Scaling by `2^(52 - e)` brings a quotient with exponent `e` below `2^53`.
proof fn lemma_scaled_below(num: nat, den: nat, e: nat)
    requires
        0 < den <= num,
        e == binary_exponent(num, den),
        e <= 52,
    ensures
        num * pow2((52 - e) as nat) < den * pow2(53),
{
    let a = pow2(e);
    let b = pow2((52 - e) as nat);
    lemma_binary_exponent(num, den);
    lemma_pow2_adds(e, (52 - e) as nat);
    lemma_pow2_unfold(53);
    lemma_pow2_pos((52 - e) as nat);
    assert(num * b < den * (2 * (a * b))) by (nonlinear_arith)
        requires
            num < 2 * (den * a),
            b > 0,
    ;
}

/// A rounded quotient is less than one step away from the exact one.
proof fn lemma_round_half_even_near(num: nat, den: nat)
    requires
        den > 0,
    ensures
        round_half_even(num, den) * den < num + den,
        num < round_half_even(num, den) * den + den,
{
    let q = num / den;
    let r = num % den;
    vstd::arithmetic::div_mod::lemma_fundamental_div_mod(num as int, den as int);
    assert(den * q == q * den) by (nonlinear_arith);
    assert((q + 1) * den == q * den + den) by (nonlinear_arith);
}

fn round_div(num: u128, den: u128) -> (q: u128)
    requires
        0 < den <= 0x1_0000_0000_0000_0000,
        num < 0x1_0000_0000_0000_0000_0000_0000_0000,
    ensures
        q == round_half_even(num as nat, den as nat),
{
    let q: u128 = num / den;
    let r: u128 = num % den;
    if 2 * r < den || (2 * r == den && q % 2 == 0) {
        q
    } else {
        assert(q <= num) by (nonlinear_arith)
            requires
                q == num / den,
                den > 0,
        ;
        q + 1
    }
}

/// The exponent of `num / den`.
fn exponent(num: u128, den: u128) -> (r: u64)
    requires
        0 < den <= num < 0x1_0000_0000_0000_0000_0000,
    ensures
        r == binary_exponent(num as nat, den as nat),
{
    let mut e: u64 = 0;
    let ghost mut p: nat = 1;
    let mut d: u128 = den;
    proof {
        lemma2_to64();
    }
    while num >= 2 * d
        invariant
            0 < den <= d <= num < 0x1_0000_0000_0000_0000_0000,
            p == pow2(e as nat),
            d == den * p,
            e < 80,
            e + binary_exponent(num as nat, d as nat) == binary_exponent(num as nat, den as nat),
        decreases num - d,
    {
        proof {
            lemma_pow2_unfold((e + 1) as nat);
            assert(2 * d == den * (2 * p)) by (nonlinear_arith)
                requires
                    d == den * p,
            ;
            assert(2 * p <= 2 * d) by (nonlinear_arith)
                requires
                    d == den * p,
                    den > 0,
            ;
            if e >= 79 {
                lemma2_to64();
                lemma_pow2_adds(64, 15);
                lemma_pow2_adds(64, 16);
                assert(pow2(79) == 0x8000_0000_0000_0000_0000nat) by {
                    assert(pow2(79) == pow2(64) * pow2(15));
                }
                assert(false);
            }
        }
        d = 2 * d;
        proof {
            p = 2 * p;
        }
        e = e + 1;
    }
    e
}

fn power_of_two(k: u64) -> (p: u128)
    requires
        k <= 52,
    ensures
        p == pow2(k as nat),
        1 <= p <= 0x10_0000_0000_0000,
{
    let mut p: u128 = 1;
    let mut i: u64 = 0;
    proof {
        lemma2_to64();
    }
    while i < k
        invariant
            i <= k <= 52,
            p == pow2(i as nat),
            1 <= p <= 0x10_0000_0000_0000,
        decreases k - i,
    {
        proof {
            lemma_pow2_unfold((i + 1) as nat);
            lemma2_to64_rest();
            if i < 51 {
                lemma_pow2_strictly_increases(i as nat, 51);
            }
        }
        p = 2 * p;
        i = i + 1;
    }
    p
}

fn double_of(n: u64) -> (v: u128)
    requires
        n >= 1,
    ensures
        v == as_double(n as nat),
        n < v + 2048,
        v < n + 2048,
        n < 0x20_0000_0000_0000 ==> v == n,
{
    let e: u64 = exponent(n as u128, 1);
    proof {
        lemma2_to64();
        lemma2_to64_rest();
        lemma_binary_exponent(n as nat, 1);
        lemma_binary_exponent_below(n as nat, 1, 64);
    }
    if e <= 52 {
        n as u128
    } else {
        let step: u128 = power_of_two(e - 52);
        proof {
            if e < 63 {
                lemma_pow2_strictly_increases((e - 52) as nat, 11);
            }
        }
        let q = round_div(n as u128, step);
        proof {
            lemma_round_half_even_near(n as nat, step as nat);
            if 53 < e {
                lemma_pow2_strictly_increases(53, e as nat);
            }
        }
        q * step
    }
}

/// Shows `n / unit` with one decimal place.
fn one_decimal_string(n: u64, unit: u64) -> (s: String)
    requires
        1000 <= unit <= 0x4000_0000,
        unit <= n < unit * 0x4_0000_0000_0000,
    ensures
        s@ == one_decimal(n as nat, unit as nat),
{
    let num: u128 = double_of(n);
    let den: u128 = unit as u128;
    proof {
        lemma2_to64();
        lemma2_to64_rest();
        assert(num < den * 0x20_0000_0000_0000);
        lemma_binary_exponent(num as nat, den as nat);
        lemma_binary_exponent_below(num as nat, den as nat, 53);
    }
    let e: u64 = exponent(num, den);
    let scale: u128 = power_of_two(52 - e);
    proof {
        lemma_scaled_below(num as nat, den as nat, e as nat);
        assert(num * scale < den * 0x20_0000_0000_0000);
    }
    let significand: u128 = round_div(num * scale, den);
    proof {
        lemma_round_half_even_near((num * scale) as nat, den as nat);
        assert(significand <= 0x20_0000_0000_0000) by (nonlinear_arith)
            requires
                significand * den < num * scale + den,
                num * scale < den * 0x20_0000_0000_0000,
        ;
    }
    let tenths: u128 = round_div(10 * significand, scale);
    proof {
        lemma_round_half_even_near((10 * significand) as nat, scale as nat);
        assert(tenths <= 10 * significand + 1) by (nonlinear_arith)
            requires
                tenths * scale < 10 * significand + scale,
                scale >= 1,
        ;
    }
    let shown: u64 = tenths as u64;
    let mut s = decimal_string(shown / 10);
    s.push('.');
    s.push(digit(shown % 10));
    assert(s@ =~= one_decimal(n as nat, unit as nat));
    s
}

/// Shows a size in the largest unit that it fills.
pub fn fmt_bytes(n: u64) -> (s: String)
    ensures
        s@ == bytes_text(n as nat),
{
    if n >= 1_073_741_824 {
        let mut s = one_decimal_string(n, 1_073_741_824);
        s.push(' ');
        s.push('G');
        s.push('B');
        assert(s@ =~= bytes_text(n as nat));
        s
    } else if n >= 1_048_576 {
        let mut s = one_decimal_string(n, 1_048_576);
        s.push(' ');
        s.push('M');
        s.push('B');
        assert(s@ =~= bytes_text(n as nat));
        s
    } else if n >= 1_024 {
        let mut s = one_decimal_string(n, 1_024);
        s.push(' ');
        s.push('K');
        s.push('B');
        assert(s@ =~= bytes_text(n as nat));
        s
    } else {
        let mut s = decimal_string(n);
        s.push(' ');
        s.push('B');
        assert(s@ =~= bytes_text(n as nat));
        s
    }
}

/// Shows a token count, in thousands or millions where it reaches them.
pub fn fmt_tokens(n: u64) -> (s: String)
    ensures
        s@ == tokens_text(n as nat),
{
    if n >= 1_000_000 {
        let mut s = one_decimal_string(n, 1_000_000);
        s.push('M');
        s
    } else if n >= 1_000 {
        let mut s = one_decimal_string(n, 1_000);
        s.push('k');
        s
    } else {
        decimal_string(n)
    }
}

/// The number that a text of decimal digits stands for.
pub open spec fn decimal_value(s: Seq<char>) -> nat
    decreases s.len(),
{
    if s.len() == 0 {
        0
    } else {
        10 * decimal_value(s.drop_last()) + (s.last() as nat - '0' as nat) as nat
    }
}

/// The text without its dots.
pub open spec fn without_dots(s: Seq<char>) -> Seq<char> {
    s.filter(|c: char| c != '.')
}

pub proof fn lemma_decimal(n: nat)
    ensures
        decimal(n).len() > 0,
        n < 1000 ==> decimal(n).len() <= 3,
        n >= 1000 ==> decimal(n) == decimal(n / 1000) + seq![
            digit_char((n / 100 % 10) as int),
            digit_char((n / 10 % 10) as int),
            digit_char((n % 10) as int),
        ],
        forall|i: int| 0 <= i < decimal(n).len() ==> '0' <= #[trigger] decimal(n)[i] <= '9',
        decimal_value(decimal(n)) == n,
    decreases n,
{
    if n < 10 {
        assert(decimal(n).drop_last() =~= Seq::empty());
        assert(decimal_value(Seq::<char>::empty()) == 0);
    } else {
        lemma_decimal(n / 10);
        assert(decimal(n).drop_last() =~= decimal(n / 10));
        reveal_with_fuel(decimal, 4);
        assert(n / 10 / 10 == n / 100 && n / 100 / 10 == n / 1000);
        if n >= 1000 {
            assert(decimal(n) =~= decimal(n / 1000) + seq![
                digit_char((n / 100 % 10) as int),
                digit_char((n / 10 % 10) as int),
                digit_char((n % 10) as int),
            ]);
        }
    }
}

/// The digits of a number stay as they are when they are grouped.
pub proof fn grouping_keeps_the_digits(n: nat)
    ensures
        without_dots(grouped_decimal(n)) == decimal(n),
    decreases n,
{
    lemma_decimal(n);
    let keep = |c: char| c != '.';
    if n < 1000 {
        lemma_no_dots(decimal(n));
    } else {
        grouping_keeps_the_digits(n / 1000);
        let group = seq![
            digit_char((n / 100 % 10) as int),
            digit_char((n / 10 % 10) as int),
            digit_char((n % 10) as int),
        ];
        let dotted = seq![
            '.',
            digit_char((n / 100 % 10) as int),
            digit_char((n / 10 % 10) as int),
            digit_char((n % 10) as int),
        ];
        lemma_no_dots(group);
        Seq::filter_distributes_over_add(grouped_decimal(n / 1000), dotted, keep);
        assert(dotted =~= seq!['.'] + group);
        Seq::filter_distributes_over_add(seq!['.'], group, keep);
        assert(seq!['.'].filter(keep) =~= Seq::empty()) by {
            reveal_with_fuel(Seq::filter, 2);
            assert(seq!['.'].drop_last() =~= Seq::empty());
        }
        assert(dotted.filter(keep) =~= group);
    }
}

proof fn lemma_no_dots(s: Seq<char>)
    requires
        forall|i: int| 0 <= i < s.len() ==> #[trigger] s[i] != '.',
    ensures
        without_dots(s) == s,
    decreases s.len(),
{
    reveal(Seq::filter);
    if s.len() > 0 {
        lemma_no_dots(s.drop_last());
        assert(s.drop_last().push(s.last()) =~= s);
    }
}

/// Counted from the right, every fourth character of a grouped number is a dot
/// and no other is; there is none in front.
pub proof fn dots_stand_between_groups_of_three(n: nat)
    ensures
        forall|i: int|
            0 <= i < grouped_decimal(n).len() ==> (#[trigger] grouped_decimal(n)[i] == '.' <==> (
            grouped_decimal(n).len() - i) % 4 == 0),
        grouped_decimal(n).len() > 0,
        grouped_decimal(n)[0] != '.',
    decreases n,
{
    lemma_decimal(n);
    if n >= 1000 {
        dots_stand_between_groups_of_three(n / 1000);
    }
}

/// Different numbers are shown differently.
pub proof fn grouped_numbers_are_told_apart(n: nat, m: nat)
    ensures
        grouped_decimal(n) == grouped_decimal(m) <==> n == m,
{
    grouping_keeps_the_digits(n);
    grouping_keeps_the_digits(m);
    lemma_decimal(n);
    lemma_decimal(m);
}

proof fn lemma_div_bound(num: nat, den: nat, q: nat)
    requires
        den > 0,
        num <= q * den,
    ensures
        num / den <= q,
        num / den == q ==> num % den == 0,
{
    vstd::arithmetic::div_mod::lemma_fundamental_div_mod(num as int, den as int);
    let d = num / den;
    let r = num % den;
    assert(d <= q && (d == q ==> r == 0)) by (nonlinear_arith)
        requires
            num == den * d + r,
            0 <= r,
            num <= q * den,
            den > 0,
    ;
}

/// Rounding stays on the same side of a whole number.
proof fn lemma_round_bounds(num: nat, den: nat, q: nat)
    requires
        den > 0,
    ensures
        num <= q * den ==> round_half_even(num, den) <= q,
        num >= q * den ==> round_half_even(num, den) >= q,
        num == q * den ==> round_half_even(num, den) == q,
{
    let d = num / den;
    let r = num % den;
    if num <= q * den {
        lemma_div_bound(num, den, q);
    }
    if num >= q * den {
        vstd::arithmetic::div_mod::lemma_fundamental_div_mod(num as int, den as int);
        assert(d >= q) by (nonlinear_arith)
            requires
                num == den * d + r,
                0 <= r < den,
                num >= q * den,
        ;
    }
}

/// Rounding keeps the order.
proof fn lemma_round_monotone(num1: nat, num2: nat, den: nat)
    requires
        den > 0,
        num1 <= num2,
    ensures
        round_half_even(num1, den) <= round_half_even(num2, den),
{
    let d1 = num1 / den;
    let d2 = num2 / den;
    let r1 = num1 % den;
    let r2 = num2 % den;
    vstd::arithmetic::div_mod::lemma_fundamental_div_mod(num1 as int, den as int);
    vstd::arithmetic::div_mod::lemma_fundamental_div_mod(num2 as int, den as int);
    assert(d1 <= d2 && (d1 == d2 ==> r1 <= r2)) by (nonlinear_arith)
        requires
            num1 == den * d1 + r1,
            num2 == den * d2 + r2,
            0 <= r1 < den,
            0 <= r2 < den,
            num1 <= num2,
    ;
}

proof fn lemma_exponent_monotone(num1: nat, num2: nat, den: nat)
    requires
        0 < den <= num1 <= num2,
    ensures
        binary_exponent(num1, den) <= binary_exponent(num2, den),
{
    lemma_binary_exponent(num1, den);
    lemma_binary_exponent(num2, den);
    let e1 = binary_exponent(num1, den);
    let e2 = binary_exponent(num2, den);
    if e2 < e1 {
        lemma_pow2_unfold((e2 + 1) as nat);
        if e2 + 1 < e1 {
            lemma_pow2_strictly_increases((e2 + 1) as nat, e1);
        }
        assert(2 * (den * pow2(e2)) <= den * pow2(e1)) by (nonlinear_arith)
            requires
                2 * pow2(e2) <= pow2(e1),
        ;
    }
}

/// A number and its double lie between the same powers of two.
proof fn lemma_double_bounds(n: nat)
    requires
        n >= 1,
    ensures
        pow2(binary_exponent(n, 1)) <= as_double(n) <= 2 * pow2(binary_exponent(n, 1)),
        binary_exponent(n, 1) <= 52 ==> as_double(n) == n,
{
    let e = binary_exponent(n, 1);
    lemma_binary_exponent(n, 1);
    if e > 52 {
        let step = pow2((e - 52) as nat);
        lemma_pow2_pos((e - 52) as nat);
        lemma_pow2_adds(52, (e - 52) as nat);
        lemma_pow2_unfold(53);
        let q = round_half_even(n, step);
        lemma_round_bounds(n, step, pow2(52));
        assert(2 * pow2(e) == pow2(53) * step) by (nonlinear_arith)
            requires
                pow2(e) == pow2(52) * step,
                pow2(53) == 2 * pow2(52),
        ;
        lemma_round_bounds(n, step, pow2(53));
        assert(pow2(52) * step <= q * step <= pow2(53) * step) by (nonlinear_arith)
            requires
                pow2(52) <= q <= pow2(53),
        ;
    }
}

/// Turning numbers into doubles keeps their order.
pub proof fn lemma_double_monotone(n1: nat, n2: nat)
    requires
        1 <= n1 <= n2,
    ensures
        as_double(n1) <= as_double(n2),
{
    let e1 = binary_exponent(n1, 1);
    let e2 = binary_exponent(n2, 1);
    lemma_exponent_monotone(n1, n2, 1);
    lemma_double_bounds(n1);
    lemma_double_bounds(n2);
    if e1 == e2 {
        if e1 > 52 {
            let step = pow2((e1 - 52) as nat);
            lemma_pow2_pos((e1 - 52) as nat);
            lemma_round_monotone(n1, n2, step);
            let q1 = round_half_even(n1, step);
            let q2 = round_half_even(n2, step);
            assert(q1 * step <= q2 * step) by (nonlinear_arith)
                requires
                    q1 <= q2,
            ;
        }
    } else {
        lemma_pow2_unfold((e1 + 1) as nat);
        if e1 + 1 < e2 {
            lemma_pow2_strictly_increases((e1 + 1) as nat, e2);
        }
    }
}

/// The tenths of a quotient lie between the same powers of two as the quotient.
proof fn lemma_tenths_bounds(num: nat, den: nat)
    requires
        0 < den <= num,
        binary_exponent(num, den) <= 52,
    ensures
        10 * pow2(binary_exponent(num, den)) <= quotient_tenths(num, den),
        quotient_tenths(num, den) <= 20 * pow2(binary_exponent(num, den)),
{
    let e = binary_exponent(num, den);
    let a = pow2(e);
    let scale = pow2((52 - e) as nat);
    lemma_binary_exponent(num, den);
    lemma_pow2_pos((52 - e) as nat);
    lemma_pow2_adds(e, (52 - e) as nat);
    let significand = round_half_even(num * scale, den);
    assert((a * scale) * den <= num * scale <= (2 * (a * scale)) * den) by (nonlinear_arith)
        requires
            den * a <= num,
            num < 2 * (den * a),
            scale > 0,
    ;
    lemma_round_bounds(num * scale, den, a * scale);
    lemma_round_bounds(num * scale, den, 2 * (a * scale));
    assert((10 * a) * scale == 10 * (a * scale)) by (nonlinear_arith);
    assert((20 * a) * scale == 20 * (a * scale)) by (nonlinear_arith);
    lemma_round_bounds(10 * significand, scale, 10 * a);
    lemma_round_bounds(10 * significand, scale, 20 * a);
}

/// Larger quotients do not show fewer tenths.
proof fn lemma_tenths_monotone(num1: nat, num2: nat, den: nat)
    requires
        0 < den <= num1 <= num2,
        binary_exponent(num2, den) <= 52,
    ensures
        quotient_tenths(num1, den) <= quotient_tenths(num2, den),
{
    let e1 = binary_exponent(num1, den);
    let e2 = binary_exponent(num2, den);
    lemma_exponent_monotone(num1, num2, den);
    if e1 == e2 {
        let scale = pow2((52 - e1) as nat);
        lemma_pow2_pos((52 - e1) as nat);
        assert(num1 * scale <= num2 * scale) by (nonlinear_arith)
            requires
                num1 <= num2,
        ;
        lemma_round_monotone(num1 * scale, num2 * scale, den);
        lemma_round_monotone(
            10 * round_half_even(num1 * scale, den),
            10 * round_half_even(num2 * scale, den),
            scale,
        );
    } else {
        lemma_tenths_bounds(num1, den);
        lemma_tenths_bounds(num2, den);
        lemma_pow2_unfold((e1 + 1) as nat);
        if e1 + 1 < e2 {
            lemma_pow2_strictly_increases((e1 + 1) as nat, e2);
        }
    }
}

/// A whole quotient shows as itself.
proof fn lemma_tenths_exact(q: nat, den: nat)
    requires
        q >= 1,
        den > 0,
        binary_exponent(q * den, den) <= 52,
    ensures
        quotient_tenths(q * den, den) == 10 * q,
{
    let scale = pow2((52 - binary_exponent(q * den, den)) as nat);
    lemma_pow2_pos((52 - binary_exponent(q * den, den)) as nat);
    assert((q * den) * scale == (q * scale) * den) by (nonlinear_arith);
    lemma_round_bounds((q * den) * scale, den, q * scale);
    assert(10 * (q * scale) == (10 * q) * scale) by (nonlinear_arith);
    lemma_round_bounds(10 * (q * scale), scale, 10 * q);
}

/// How many tenths of a unit are shown for `n`.
pub open spec fn shown_tenths(n: nat, unit: nat) -> nat {
    quotient_tenths(as_double(n), unit)
}

/// From one unit on, the tenths grow with the number, and whole numbers of units
/// show as they are.
proof fn lemma_shown_tenths(n1: nat, n2: nat, unit: nat)
    requires
        1000 <= unit <= 0x4000_0000,
        unit <= n1 <= n2 <= u64::MAX,
        n2 <= 0x4_0000_0000_0000 * unit,
    ensures
        10 <= shown_tenths(n1, unit) <= shown_tenths(n2, unit),
        n2 <= 1_073_741_824 && n2 % unit == 0 ==> shown_tenths(n2, unit) == 10 * (n2 / unit),
{
    lemma2_to64();
    lemma2_to64_rest();
    lemma_double_monotone(unit, n1);
    lemma_double_monotone(n1, n2);
    lemma_binary_exponent_below(unit, 1, 53);
    lemma_double_bounds(unit);
    lemma_double_bounds(n2);
    lemma_binary_exponent(n2, 1);
    let d2 = as_double(n2);
    assert(d2 <= 2 * n2);
    assert(d2 < unit * pow2(53)) by {
        assert(pow2(53) == 0x20_0000_0000_0000);
    }
    lemma_binary_exponent_below(d2, unit, 53);
    lemma_tenths_monotone(as_double(n1), d2, unit);
    lemma_exponent_monotone(unit, as_double(n1), unit);
    lemma_exponent_monotone(as_double(n1), d2, unit);
    lemma_tenths_monotone(unit, as_double(n1), unit);
    assert(1 * unit == unit);
    lemma_tenths_exact(1, unit);
    if n2 <= 1_073_741_824 && n2 % unit == 0 {
        lemma_binary_exponent_below(n2, 1, 53);
        let q = n2 / unit;
        vstd::arithmetic::div_mod::lemma_fundamental_div_mod(n2 as int, unit as int);
        assert(q * unit == n2) by (nonlinear_arith)
            requires
                n2 == unit * q + 0,
        ;
        assert(q >= 1) by (nonlinear_arith)
            requires
                q * unit == n2,
                n2 >= unit,
                unit > 0,
        ;
        lemma_tenths_exact(q, unit);
    }
}

/// Ten times the number that a text with one decimal place shows.
pub open spec fn ten_times(text: Seq<char>) -> nat {
    decimal_value(without_dots(text))
}

pub proof fn lemma_ten_times(n: nat, unit: nat)
    ensures
        ten_times(one_decimal(n, unit)) == shown_tenths(n, unit),
{
    let t = shown_tenths(n, unit);
    let whole = decimal(t / 10);
    let last = digit_char((t % 10) as int);
    let keep = |c: char| c != '.';
    lemma_decimal(t / 10);
    lemma_no_dots(whole);
    lemma_no_dots(seq![last]);
    assert(seq!['.', last] =~= seq!['.'] + seq![last]);
    Seq::filter_distributes_over_add(whole, seq!['.', last], keep);
    Seq::filter_distributes_over_add(seq!['.'], seq![last], keep);
    assert(seq!['.'].filter(keep) =~= Seq::empty()) by {
        reveal_with_fuel(Seq::filter, 2);
        assert(seq!['.'].drop_last() =~= Seq::empty());
    }
    let digits = without_dots(one_decimal(n, unit));
    assert(digits == whole + seq![last]) by {
        assert(Seq::<char>::empty() + seq![last] =~= seq![last]);
    }
    assert(digits.len() == whole.len() + 1);
    assert(digits.drop_last() =~= whole);
    assert(digits.last() == last);
}

/// Ten times the number of tokens that a text of `fmt_tokens` shows: what stands
/// before the suffix, in millions for `M`, in thousands for `k`, and as it is
/// without one.
pub open spec fn ten_times_tokens(text: Seq<char>) -> nat {
    if text.last() == 'M' {
        1_000_000 * ten_times(text.drop_last())
    } else if text.last() == 'k' {
        1_000 * ten_times(text.drop_last())
    } else {
        10 * decimal_value(text)
    }
}

pub proof fn lemma_tokens_shown(n: nat)
    ensures
        ten_times_tokens(tokens_text(n)) == if n >= 1_000_000 {
            1_000_000 * shown_tenths(n, 1_000_000)
        } else if n >= 1_000 {
            1_000 * shown_tenths(n, 1_000)
        } else {
            10 * n
        },
{
    lemma_ten_times(n, 1_000_000);
    lemma_ten_times(n, 1_000);
    lemma_decimal(n);
    if n >= 1_000_000 {
        assert(tokens_text(n).drop_last() =~= one_decimal(n, 1_000_000));
    } else if n >= 1_000 {
        assert(tokens_text(n).drop_last() =~= one_decimal(n, 1_000));
    } else {
        assert('0' <= decimal(n)[decimal(n).len() - 1] <= '9');
    }
}

/// A larger count of tokens is never shown as a smaller one, whichever units the
/// two are shown in.
pub proof fn larger_token_counts_show_no_less(m: u64, n: u64)
    requires
        m <= n,
    ensures
        ten_times_tokens(tokens_text(m as nat)) <= ten_times_tokens(tokens_text(n as nat)),
{
    lemma_tokens_shown(m as nat);
    lemma_tokens_shown(n as nat);
    if m >= 1_000_000 {
        lemma_shown_tenths(m as nat, n as nat, 1_000_000);
    } else {
        if n >= 1_000_000 {
            lemma_shown_tenths(1_000_000, n as nat, 1_000_000);
        }
        if m >= 1_000 {
            lemma_shown_tenths(m as nat, 1_000_000, 1_000);
        }
        if 1_000 <= n < 1_000_000 {
            if m >= 1_000 {
                lemma_shown_tenths(m as nat, n as nat, 1_000);
            } else {
                lemma_shown_tenths(1_000, n as nat, 1_000);
            }
        }
    }
}

/// Ten times the number of bytes that a text of `fmt_bytes` shows.
pub open spec fn ten_times_bytes(text: Seq<char>) -> nat {
    let unit = text[text.len() - 2];
    if unit == 'G' {
        1_073_741_824 * ten_times(text.take(text.len() - 3))
    } else if unit == 'M' {
        1_048_576 * ten_times(text.take(text.len() - 3))
    } else if unit == 'K' {
        1_024 * ten_times(text.take(text.len() - 3))
    } else {
        10 * decimal_value(text.take(text.len() - 2))
    }
}

pub proof fn lemma_bytes_shown(n: nat)
    ensures
        ten_times_bytes(bytes_text(n)) == if n >= 1_073_741_824 {
            1_073_741_824 * shown_tenths(n, 1_073_741_824)
        } else if n >= 1_048_576 {
            1_048_576 * shown_tenths(n, 1_048_576)
        } else if n >= 1_024 {
            1_024 * shown_tenths(n, 1_024)
        } else {
            10 * n
        },
{
    lemma_ten_times(n, 1_073_741_824);
    lemma_ten_times(n, 1_048_576);
    lemma_ten_times(n, 1_024);
    lemma_decimal(n);
    let text = bytes_text(n);
    if n >= 1_073_741_824 {
        assert(text.take(text.len() - 3) =~= one_decimal(n, 1_073_741_824));
    } else if n >= 1_048_576 {
        assert(text.take(text.len() - 3) =~= one_decimal(n, 1_048_576));
    } else if n >= 1_024 {
        assert(text.take(text.len() - 3) =~= one_decimal(n, 1_024));
    } else {
        assert(text.take(text.len() - 2) =~= decimal(n));
    }
}

/// A larger size is never shown as a smaller one, whichever units the two are
/// shown in.
pub proof fn larger_sizes_show_no_less(m: u64, n: u64)
    requires
        m <= n,
    ensures
        ten_times_bytes(bytes_text(m as nat)) <= ten_times_bytes(bytes_text(n as nat)),
{
    lemma_bytes_shown(m as nat);
    lemma_bytes_shown(n as nat);
    if m >= 1_073_741_824 {
        lemma_shown_tenths(m as nat, n as nat, 1_073_741_824);
    } else if m >= 1_048_576 {
        lemma_shown_tenths(m as nat, 1_073_741_824, 1_048_576);
        if n >= 1_073_741_824 {
            lemma_shown_tenths(1_073_741_824, n as nat, 1_073_741_824);
        } else {
            lemma_shown_tenths(m as nat, n as nat, 1_048_576);
        }
    } else {
        if m >= 1_024 {
            lemma_shown_tenths(m as nat, 1_048_576, 1_024);
        }
        if n >= 1_073_741_824 {
            lemma_shown_tenths(1_073_741_824, n as nat, 1_073_741_824);
        } else if n >= 1_048_576 {
            lemma_shown_tenths(1_048_576, n as nat, 1_048_576);
        } else if n >= 1_024 {
            if m >= 1_024 {
                lemma_shown_tenths(m as nat, n as nat, 1_024);
            } else {
                lemma_shown_tenths(1_024, n as nat, 1_024);
            }
        }
    }
}

} // verus!
