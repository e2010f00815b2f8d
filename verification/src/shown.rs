//! What the shown numbers say, read back from their texts.

use vstd::prelude::*;
use vstd::arithmetic::power2::*;
use crate::format::{fmt_bytes, fmt_thousands, fmt_tokens};

verus! {

/// The distance of two numbers.
pub open spec fn distance(a: nat, b: nat) -> int {
    if a < b {
        b - a
    } else {
        a - b
    }
}

/// A text of digits without zeros in front.
pub open spec fn is_plain_number(s: Seq<char>) -> bool {
    &&& s.len() > 0
    &&& forall|i: int| 0 <= i < s.len() ==> '0' <= #[trigger] s[i] <= '9'
    &&& s.len() > 1 ==> s[0] != '0'
}

/// A plain number, a dot and one more digit.
pub open spec fn has_one_decimal(s: Seq<char>) -> bool {
    &&& s.len() > 2
    &&& is_plain_number(s.take(s.len() - 2))
    &&& s[s.len() - 2] == '.'
    &&& '0' <= s[s.len() - 1] <= '9'
}

proof fn lemma_decimal_is_plain(n: nat)
    ensures
        is_plain_number(crate::format::decimal(n)),
        crate::format::decimal_value(crate::format::decimal(n)) == n,
        n > 0 ==> crate::format::decimal(n)[0] != '0',
    decreases n,
{
    crate::format::lemma_decimal(n);
    let s = crate::format::decimal(n);
    if n >= 10 {
        lemma_decimal_is_plain(n / 10);
        assert(s[0] == crate::format::decimal(n / 10)[0]);
    }
}

/// Grouped numbers are read back: without its dots the text is the number, written
/// without zeros in front; counted from the right, every fourth character is a dot.
pub proof fn grouped_numbers_are_read_back(n: u64, s: String)
    requires
        call_ensures(fmt_thousands, (n,), s),
    ensures
        is_plain_number(crate::format::without_dots(s@)),
        crate::format::decimal_value(crate::format::without_dots(s@)) == n,
        forall|i: int| 0 <= i < s@.len() ==> (#[trigger] s@[i] == '.' <==> (s@.len() - i) % 4 == 0),
        s@.len() > 0,
        s@[0] != '.',
{
    crate::format::grouping_keeps_the_digits(n as nat);
    crate::format::dots_stand_between_groups_of_three(n as nat);
    lemma_decimal_is_plain(n as nat);
}

/// Rounding goes to the nearest whole number, and to an even one from between two.
proof fn lemma_round_nearest(num: nat, den: nat)
    requires
        den > 0,
    ensures
        2 * distance(crate::format::round_half_even(num, den) * den, num) <= den,
        2 * distance(crate::format::round_half_even(num, den) * den, num) == den
            ==> crate::format::round_half_even(num, den) % 2 == 0,
{
    let q = num / den;
    let r = num % den;
    vstd::arithmetic::div_mod::lemma_fundamental_div_mod(num as int, den as int);
    assert(den * q == q * den) by (nonlinear_arith);
    assert((q + 1) * den == q * den + den) by (nonlinear_arith);
}

/// Turning a 64-bit number into a double moves it by at most 1024.
proof fn lemma_double_near(n: nat)
    requires
        1 <= n <= u64::MAX,
    ensures
        distance(crate::format::as_double(n), n) <= 1024,
        n < 0x20_0000_0000_0000 ==> crate::format::as_double(n) == n,
{
    let e = crate::format::binary_exponent(n, 1);
    lemma2_to64();
    lemma2_to64_rest();
    crate::format::lemma_binary_exponent(n, 1);
    crate::format::lemma_binary_exponent_below(n, 1, 64);
    if e > 52 {
        if e < 63 {
            lemma_pow2_strictly_increases((e - 52) as nat, 11);
        }
        let step = pow2((e - 52) as nat);
        lemma_pow2_pos((e - 52) as nat);
        lemma_round_nearest(n, step);
        if 53 < e {
            lemma_pow2_strictly_increases(53, e);
        }
    }
}

/// How far the tenths of a double quotient are off.
proof fn lemma_tenths_near(num: nat, den: nat)
    requires
        0 < den <= num,
        crate::format::binary_exponent(num, den) <= 52,
    ensures
        ({
            let scale = pow2((52 - crate::format::binary_exponent(num, den)) as nat);
            scale * (2 * distance(
                crate::format::quotient_tenths(num, den) * den,
                10 * num,
            )) <= (scale + 10) * den
        }),
{
    let scale = pow2((52 - crate::format::binary_exponent(num, den)) as nat);
    lemma_pow2_pos((52 - crate::format::binary_exponent(num, den)) as nat);
    let s = crate::format::round_half_even(num * scale, den);
    let t = crate::format::quotient_tenths(num, den);
    lemma_round_nearest(num * scale, den);
    lemma_round_nearest(10 * s, scale);
    let a = t * scale - 10 * s;
    let b = s * den - num * scale;
    assert(-(scale as int) <= 2 * a <= scale);
    assert(-(den as int) <= 2 * b <= den);
    let c = t * den - 10 * num;
    assert(scale * c == den * a + 10 * b) by (nonlinear_arith)
        requires
            a == t * scale - 10 * s,
            b == s * den - num * scale,
            c == t * den - 10 * num,
    ;
    assert(-(scale * den) <= 2 * (den * a) <= scale * den) by (nonlinear_arith)
        requires
            -(scale as int) <= 2 * a <= scale,
            den > 0,
    ;
    assert((scale + 10) * den == scale * den + 10 * den) by (nonlinear_arith);
    let d = distance(t * den, 10 * num);
    assert(scale * (2 * d) == 2 * (scale * d)) by (nonlinear_arith);
    assert(scale * (-c) == -(scale * c)) by (nonlinear_arith);
    assert(d == c || d == -c);
}

/// As long as doubles are fine enough, the nearest tenths are shown.
proof fn lemma_shown_near(n: nat, unit: nat)
    requires
        1000 <= unit <= 1_000_000,
        unit <= n < unit * 0x1000_0000,
        n < 0x20_0000_0000_0000,
    ensures
        2 * distance(crate::format::shown_tenths(n, unit) * unit, 10 * n) <= unit,
{
    lemma2_to64();
    lemma2_to64_rest();
    lemma_double_near(n);
    assert(n < unit * pow2(28)) by {
        assert(pow2(28) == 0x1000_0000);
    }
    crate::format::lemma_binary_exponent_below(n, unit, 28);
    let e = crate::format::binary_exponent(n, unit);
    let scale = pow2((52 - e) as nat);
    if 52 - e > 25 {
        lemma_pow2_strictly_increases(25, (52 - e) as nat);
    }
    assert(pow2(25) == 0x200_0000);
    lemma_tenths_near(n, unit);
    let t = crate::format::shown_tenths(n, unit);
    let off = distance(t * unit, 10 * n);
    assert(2 * off <= unit) by (nonlinear_arith)
        requires
            scale >= 0x200_0000,
            unit <= 1_000_000,
            scale * (2 * off) <= (scale + 10) * unit,
    ;
}

/// Beyond the whole numbers that doubles hold, the tenths are the nearest but for a
/// small part of the unit.
proof fn lemma_shown_nearer(n: nat, unit: nat, j: nat)
    requires
        1000 <= unit <= 0x4000_0000,
        unit <= n <= u64::MAX,
        j <= 48,
        n + 1024 < unit * pow2(j),
        10 * unit <= 40960 * pow2((53 - j) as nat),
    ensures
        2 * distance(crate::format::shown_tenths(n, unit) * unit, 10 * n) <= unit + 65_536,
{
    lemma2_to64();
    lemma2_to64_rest();
    lemma_double_near(n);
    let d = crate::format::as_double(n);
    crate::format::lemma_double_monotone(unit, n);
    lemma_double_near(unit);
    crate::format::lemma_binary_exponent_below(d, unit, j);
    let e = crate::format::binary_exponent(d, unit);
    let scale = pow2((52 - e) as nat);
    if 52 - e > 53 - j {
        lemma_pow2_strictly_increases((53 - j) as nat, (52 - e) as nat);
    }
    lemma_tenths_near(d, unit);
    let t = crate::format::shown_tenths(n, unit);
    let off = distance(t * unit, 10 * d);
    assert(2 * off <= unit + 40960) by (nonlinear_arith)
        requires
            scale * (2 * off) <= (scale + 10) * unit,
            10 * unit <= 40960 * scale,
            scale > 0,
    ;
}

/// Where a double holds the quotient exactly, its tenths are the nearest, and even
/// ones between two.
proof fn lemma_tenths_nearest(num: nat, den: nat)
    requires
        0 < den <= num,
        crate::format::binary_exponent(num, den) <= 52,
        (num * pow2((52 - crate::format::binary_exponent(num, den)) as nat)) % den == 0,
    ensures
        2 * distance(crate::format::quotient_tenths(num, den) * den, 10 * num) <= den,
        2 * distance(crate::format::quotient_tenths(num, den) * den, 10 * num) == den
            ==> crate::format::quotient_tenths(num, den) % 2 == 0,
{
    let scale = pow2((52 - crate::format::binary_exponent(num, den)) as nat);
    lemma_pow2_pos((52 - crate::format::binary_exponent(num, den)) as nat);
    let s = crate::format::round_half_even(num * scale, den);
    let t = crate::format::quotient_tenths(num, den);
    let q = (num * scale) / den;
    vstd::arithmetic::div_mod::lemma_fundamental_div_mod((num * scale) as int, den as int);
    assert(den * q == q * den) by (nonlinear_arith);
    assert(s == q);
    lemma_round_nearest(10 * s, scale);
    let a = t * scale - 10 * s;
    let c = t * den - 10 * num;
    assert(scale * c == den * a) by (nonlinear_arith)
        requires
            a == t * scale - 10 * s,
            s * den == num * scale,
            c == t * den - 10 * num,
    ;
    let d = distance(t * den, 10 * num);
    let e = distance(t * scale, 10 * s);
    assert(scale * (-c) == -(scale * c)) by (nonlinear_arith);
    assert(den * (-a) == -(den * a)) by (nonlinear_arith);
    assert((c >= 0 && a >= 0) || (c <= 0 && a <= 0)) by (nonlinear_arith)
        requires
            scale * c == den * a,
            scale > 0,
            den > 0,
    ;
    assert(scale * d == den * e);
    assert(2 * d <= den) by (nonlinear_arith)
        requires
            scale * d == den * e,
            2 * e <= scale,
            scale > 0,
            den > 0,
    ;
    if 2 * d == den {
        assert(2 * e == scale) by (nonlinear_arith)
            requires
                scale * d == den * e,
                2 * d == den,
                den > 0,
        ;
    }
}

proof fn lemma_multiple(a: nat, b: nat, den: nat)
    requires
        den > 0,
        b % den == 0,
    ensures
        (a * b) % den == 0,
{
    let q = b / den;
    vstd::arithmetic::div_mod::lemma_fundamental_div_mod(b as int, den as int);
    assert(a * b == (a * q) * den) by (nonlinear_arith)
        requires
            b == den * q + 0,
    ;
    vstd::arithmetic::div_mod::lemma_mod_multiples_basic((a * q) as int, den as int);
}

/// A unit that is a power of two divides exactly, as long as doubles hold all
/// whole numbers.
proof fn lemma_binary_unit(n: nat, k: nat)
    requires
        10 <= k <= 30,
        pow2(k) <= n < 0x20_0000_0000_0000,
    ensures
        2 * distance(crate::format::shown_tenths(n, pow2(k)) * pow2(k), 10 * n) <= pow2(k),
        2 * distance(crate::format::shown_tenths(n, pow2(k)) * pow2(k), 10 * n) == pow2(k)
            ==> crate::format::shown_tenths(n, pow2(k)) % 2 == 0,
{
    let unit = pow2(k);
    lemma2_to64();
    lemma2_to64_rest();
    lemma_pow2_pos(k);
    lemma_double_near(n);
    let e = crate::format::binary_exponent(n, unit);
    crate::format::lemma_binary_exponent(n, unit);
    lemma_pow2_adds(k, e);
    if k + e >= 53 {
        if k + e > 53 {
            lemma_pow2_strictly_increases(53, k + e);
        }
        assert(false);
    }
    let m = (52 - e - k) as nat;
    lemma_pow2_adds(k, m);
    let scale = pow2((52 - e) as nat);
    assert(scale == pow2(k) * pow2(m));
    assert(unit * pow2(m) == pow2(m) * unit) by (nonlinear_arith);
    vstd::arithmetic::div_mod::lemma_mod_multiples_basic(pow2(m) as int, unit as int);
    lemma_multiple(n, scale, unit);
    lemma_tenths_nearest(n, unit);
}

/// A count that the fives in a unit divide is held exactly by a double.
proof fn lemma_decimal_unit(n: nat, unit: nat, odd: nat, two: nat)
    requires
        unit == odd * two,
        odd > 0,
        two > 0,
        1000 <= unit <= 1_000_000,
        n % odd == 0,
        unit <= n < unit * 0x1000_0000,
        n < 0x20_0000_0000_0000,
        pow2(25) % two == 0,
    ensures
        2 * distance(crate::format::shown_tenths(n, unit) * unit, 10 * n) <= unit,
        2 * distance(crate::format::shown_tenths(n, unit) * unit, 10 * n) == unit
            ==> crate::format::shown_tenths(n, unit) % 2 == 0,
{
    lemma2_to64();
    lemma2_to64_rest();
    lemma_double_near(n);
    let e = crate::format::binary_exponent(n, unit);
    assert(n < unit * pow2(28));
    crate::format::lemma_binary_exponent_below(n, unit, 28);
    let m = (52 - e - 25) as nat;
    lemma_pow2_adds(25, m);
    let scale = pow2((52 - e) as nat);
    assert(scale == pow2(25) * pow2(m));
    let a = n / odd;
    let b = pow2(25) / two;
    vstd::arithmetic::div_mod::lemma_fundamental_div_mod(n as int, odd as int);
    vstd::arithmetic::div_mod::lemma_fundamental_div_mod(pow2(25) as int, two as int);
    assert(n * scale == (a * b * pow2(m)) * unit) by (nonlinear_arith)
        requires
            n == odd * a + 0,
            pow2(25) == two * b + 0,
            scale == pow2(25) * pow2(m),
            unit == odd * two,
    ;
    vstd::arithmetic::div_mod::lemma_mod_multiples_basic((a * b * pow2(m)) as int, unit as int);
    lemma_tenths_nearest(n, unit);
}

proof fn lemma_one_decimal(n: nat, unit: nat)
    ensures
        has_one_decimal(crate::format::one_decimal(n, unit)),
        crate::format::ten_times(crate::format::one_decimal(n, unit))
            == crate::format::shown_tenths(n, unit),
{
    crate::format::lemma_ten_times(n, unit);
    let t = crate::format::shown_tenths(n, unit);
    let s = crate::format::one_decimal(n, unit);
    lemma_decimal_is_plain(t / 10);
    assert(s.take(s.len() - 2) =~= crate::format::decimal(t / 10));
}

/// A count of tokens is shown as it is below a thousand, in thousands below a
/// million, and else in millions. With one decimal place the nearest tenth is
/// shown, as far as a double tells, and the even one where the count is a round one
/// between two.
pub proof fn token_counts_are_read_back(n: u64, s: String)
    requires
        call_ensures(fmt_tokens, (n,), s),
    ensures
        n < 1_000 ==> is_plain_number(s@) && crate::format::decimal_value(s@) == n,
        1_000 <= n < 1_000_000 ==> {
            let tenths = crate::format::ten_times(s@.drop_last());
            &&& s@.last() == 'k'
            &&& has_one_decimal(s@.drop_last())
            &&& 2 * distance(tenths * 1_000, 10 * n as nat) <= 1_000
            &&& n % 125 == 0 && 2 * distance(tenths * 1_000, 10 * n as nat) == 1_000 ==> tenths % 2
                == 0
        },
        n >= 1_000_000 ==> {
            let tenths = crate::format::ten_times(s@.drop_last());
            &&& s@.last() == 'M'
            &&& has_one_decimal(s@.drop_last())
            &&& 2 * distance(tenths * 1_000_000, 10 * n as nat) <= 1_000_000 + 65_536
            &&& n < 268_435_456_000_000 ==> 2 * distance(tenths * 1_000_000, 10 * n as nat)
                <= 1_000_000
            &&& n < 268_435_456_000_000 && n % 15_625 == 0 && 2 * distance(
                tenths * 1_000_000,
                10 * n as nat,
            ) == 1_000_000 ==> tenths % 2 == 0
        },
{
    let m = n as nat;
    lemma2_to64_rest();
    lemma2_to64();
    if n < 1_000 {
        lemma_decimal_is_plain(m);
    } else if n < 1_000_000 {
        lemma_one_decimal(m, 1_000);
        assert(s@.drop_last() =~= crate::format::one_decimal(m, 1_000));
        lemma_shown_near(m, 1_000);
        if n % 125 == 0 {
            lemma_decimal_unit(m, 1_000, 125, 8);
        }
    } else {
        lemma_one_decimal(m, 1_000_000);
        assert(s@.drop_last() =~= crate::format::one_decimal(m, 1_000_000));
        if n < 268_435_456_000_000 {
            lemma_shown_near(m, 1_000_000);
        }
        lemma_shown_nearer(m, 1_000_000, 45);
        if n < 268_435_456_000_000 && n % 15_625 == 0 {
            lemma_decimal_unit(m, 1_000_000, 15_625, 64);
        }
    }
}

/// What a size of at least one unit is shown as.
pub open spec fn shows_size(text: Seq<char>, n: nat, unit: nat, suffix: Seq<char>) -> bool {
    let number = text.take(text.len() - 3);
    let tenths = crate::format::ten_times(number);
    &&& text == number + suffix
    &&& has_one_decimal(number)
    &&& 2 * distance(tenths * unit, 10 * n) <= unit + 65_536
    &&& n < 0x20_0000_0000_0000 ==> 2 * distance(tenths * unit, 10 * n) <= unit
    &&& n < 0x20_0000_0000_0000 && 2 * distance(tenths * unit, 10 * n) == unit ==> tenths % 2 == 0
}

proof fn lemma_shows_size(text: Seq<char>, n: nat, k: nat, suffix: Seq<char>)
    requires
        10 <= k <= 30,
        pow2(k) <= n <= u64::MAX,
        k < 30 ==> n < 0x4_0000_0000_0000,
        1000 <= pow2(k) <= 0x4000_0000,
        suffix.len() == 3,
        text == crate::format::one_decimal(n, pow2(k)) + suffix,
    ensures
        shows_size(text, n, pow2(k), suffix),
{
    lemma_one_decimal(n, pow2(k));
    assert(text.take(text.len() - 3) =~= crate::format::one_decimal(n, pow2(k)));
    if n < 0x20_0000_0000_0000 {
        lemma_binary_unit(n, k);
    } else {
        lemma2_to64();
        lemma2_to64_rest();
        assert(k == 30);
        lemma_shown_nearer(n, pow2(30), 35);
    }
}

/// A size is shown in the largest unit that it fills. With one decimal place the
/// nearest tenth is shown, as far as a double tells, and the even one between two.
pub proof fn sizes_are_read_back(n: u64, s: String)
    requires
        call_ensures(fmt_bytes, (n,), s),
    ensures
        n < 1_024 ==> s@.len() > 2 && s@ == s@.take(s@.len() - 2) + " B"@ && is_plain_number(
            s@.take(s@.len() - 2),
        ) && crate::format::decimal_value(s@.take(s@.len() - 2)) == n,
        1_024 <= n < 1_048_576 ==> shows_size(s@, n as nat, 1_024, " KB"@),
        1_048_576 <= n < 1_073_741_824 ==> shows_size(s@, n as nat, 1_048_576, " MB"@),
        1_073_741_824 <= n ==> shows_size(s@, n as nat, 1_073_741_824, " GB"@),
{
    let m = n as nat;
    lemma2_to64();
    lemma2_to64_rest();
    reveal_strlit(" B");
    reveal_strlit(" KB");
    reveal_strlit(" MB");
    reveal_strlit(" GB");
    if n < 1_024 {
        lemma_decimal_is_plain(m);
        assert(s@.take(s@.len() - 2) =~= crate::format::decimal(m));
        assert(s@ =~= s@.take(s@.len() - 2) + " B"@);
    } else if n < 1_048_576 {
        assert(seq![' ', 'K', 'B'] =~= " KB"@);
        lemma_shows_size(s@, m, 10, " KB"@);
    } else if n < 1_073_741_824 {
        assert(seq![' ', 'M', 'B'] =~= " MB"@);
        lemma_shows_size(s@, m, 20, " MB"@);
    } else {
        assert(seq![' ', 'G', 'B'] =~= " GB"@);
        lemma_shows_size(s@, m, 30, " GB"@);
    }
}

} // verus!
