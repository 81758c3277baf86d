//! The figures as the screen shows them: shares and rates in tenths of a
//! percent, bars in cells, sums in whole units, and text cut to a width.
//!
//! Every figure is the exact quotient rounded to the nearest whole number, a
//! half upwards.

use crate::text::{chars_of, text_of};
use vstd::arithmetic::div_mod::lemma_fundamental_div_mod_converse;
use vstd::prelude::*;

verus! {

/// `n / d` rounded to the nearest whole number, a half upwards; zero where
/// `d` is zero.
pub open spec fn rounded_div(n: nat, d: nat) -> nat {
    if d == 0 {
        0
    } else {
        (2 * n + d) / (2 * d)
    }
}

/// `part / whole` in units of which `scale` make one, rounded.
pub open spec fn scaled(part: nat, whole: nat, scale: nat) -> nat {
    rounded_div(scale * part, whole)
}

/// The smaller of two numbers.
pub open spec fn at_most(n: nat, limit: nat) -> nat {
    if n <= limit {
        n
    } else {
        limit
    }
}

/// The cells of a full bar.
pub const BAR_CELLS: u16 = 20;

/// The cells of the bar that shows `amount` beside a full bar for
/// `max_amount`.
pub open spec fn bar_cells(amount: nat, max_amount: nat) -> nat {
    at_most(scaled(amount, max_amount, BAR_CELLS as nat), usize::MAX as nat)
}

/// The part of what was earned that was not spent, in tenths of a percent;
/// zero where nothing was earned or more was spent.
pub open spec fn savings_tenths(earned: nat, spent: nat) -> nat {
    if spent >= earned {
        0
    } else {
        scaled((earned - spent) as nat, earned, 1000)
    }
}

/// `text` cut to `width` characters: itself where it is no longer, and else
/// its start with the sign `…` for the rest.
pub open spec fn cut_to(text: Seq<char>, width: nat) -> Seq<char> {
    if text.len() <= width {
        text
    } else if width == 0 {
        Seq::empty()
    } else {
        text.take(width - 1).push('…')
    }
}

/// The rounded quotient, from the whole quotient and the remainder.
proof fn lemma_rounded_div(n: nat, d: nat, q: nat, r: nat)
    requires
        d > 0,
        r < d,
        n == q * d + r,
    ensures
        rounded_div(n, d) == if 2 * r >= d {
            q + 1
        } else {
            q
        },
{
    if 2 * r >= d {
        assert(2 * n + d == (q + 1) * (2 * d) + (2 * r - d)) by (nonlinear_arith)
            requires
                n == q * d + r,
        ;
        lemma_fundamental_div_mod_converse(
            (2 * n + d) as int,
            (2 * d) as int,
            (q + 1) as int,
            2 * r - d,
        );
    } else {
        assert(2 * n + d == q * (2 * d) + (2 * r + d)) by (nonlinear_arith)
            requires
                n == q * d + r,
        ;
        lemma_fundamental_div_mod_converse(
            (2 * n + d) as int,
            (2 * d) as int,
            q as int,
            (2 * r + d) as int,
        );
    }
}

/// A part that is no more than the whole comes to no more than the scale.
pub proof fn lemma_scaled_within(part: nat, whole: nat, scale: nat)
    requires
        part <= whole,
    ensures
        scaled(part, whole, scale) <= scale,
{
    if whole > 0 {
        assert(scale * part <= scale * whole) by (nonlinear_arith)
            requires
                part <= whole,
        ;
        let n = scale * part;
        assert(2 * n + whole < (scale + 1) * (2 * whole)) by (nonlinear_arith)
            requires
                n <= scale * whole,
                whole > 0,
        ;
        vstd::arithmetic::div_mod::lemma_div_by_multiple_is_strongly_ordered(
            (2 * n + whole) as int,
            ((scale + 1) * (2 * whole)) as int,
            (scale + 1) as int,
            (2 * whole) as int,
        );
        vstd::arithmetic::div_mod::lemma_div_by_multiple((scale + 1) as int, (2 * whole) as int);
    }
}

/// `part / whole` in units of which `scale` make one, rounded to the nearest;
/// zero where `whole` is zero, and the largest number of 128 bits where the
/// figure is larger.
pub fn scaled_ratio(part: u128, whole: u128, scale: u16) -> (figure: u128)
    ensures
        figure == at_most(scaled(part as nat, whole as nat, scale as nat), u128::MAX as nat),
{
    if whole == 0 || scale == 0 {
        proof {
            if whole > 0 {
                assert(scale as nat * part as nat == 0) by (nonlinear_arith)
                    requires
                        scale == 0,
                ;
                lemma_rounded_div(0, whole as nat, 0, 0);
            }
        }
        return 0;
    }
    let quotient = part / whole;
    let rest = part % whole;
    // `scale` times the rest, divided by the whole.
    let mut wholes: u128 = 0;
    let mut left: u128 = 0;
    let mut k: u16 = 0;
    while k < scale
        invariant
            k <= scale,
            rest < whole,
            left < whole,
            wholes <= k,
            k * rest == wholes * whole + left,
        decreases scale - k,
    {
        assert((k + 1) * rest == k * rest + rest) by (nonlinear_arith);
        if left >= whole - rest {
            assert((wholes + 1) * whole == wholes * whole + whole) by (nonlinear_arith);
            left = left - (whole - rest);
            wholes = wholes + 1;
        } else {
            left = left + rest;
        }
        k = k + 1;
    }
    let fraction: u128 = if left >= whole - left {
        wholes + 1
    } else {
        wholes
    };
    proof {
        let total = (scale as nat) * (part as nat);
        let q = (scale as nat) * (quotient as nat) + wholes as nat;
        assert(part == quotient * whole + rest) by {
            vstd::arithmetic::div_mod::lemma_fundamental_div_mod(part as int, whole as int);
            assert(whole * (part / whole) == (part / whole) * whole) by (nonlinear_arith);
        }
        assert(total == q * whole + left) by (nonlinear_arith)
            requires
                total == (scale as nat) * (part as nat),
                part == quotient * whole + rest,
                scale * rest == wholes * whole + left,
                q == (scale as nat) * (quotient as nat) + wholes as nat,
        ;
        lemma_rounded_div(total, whole as nat, q, left as nat);
        assert(scaled(part as nat, whole as nat, scale as nat) == scale * quotient + fraction);
    }
    let limit = (u128::MAX - fraction) / (scale as u128);
    if quotient > limit {
        proof {
            assert(scale * quotient + fraction > u128::MAX) by (nonlinear_arith)
                requires
                    quotient >= limit + 1,
                    limit == (u128::MAX - fraction) / (scale as int),
                    scale > 0,
                    fraction <= u128::MAX,
            ;
        }
        return u128::MAX;
    }
    proof {
        assert(scale * quotient + fraction <= u128::MAX) by (nonlinear_arith)
            requires
                quotient <= limit,
                limit == (u128::MAX - fraction) / (scale as int),
                scale > 0,
                fraction <= u128::MAX,
        ;
    }
    (scale as u128) * quotient + fraction
}

/// The cells of the bar that shows `amount` beside a full bar of
/// `BAR_CELLS` cells for `max_amount`; none where `max_amount` is zero.
pub fn calculate_bar_width(amount: u128, max_amount: u128) -> (cells: usize)
    ensures
        cells == bar_cells(amount as nat, max_amount as nat),
        amount <= max_amount ==> cells <= BAR_CELLS,
{
    proof {
        if amount <= max_amount {
            lemma_scaled_within(amount as nat, max_amount as nat, BAR_CELLS as nat);
        }
    }
    let figure = scaled_ratio(amount, max_amount, BAR_CELLS);
    if figure > usize::MAX as u128 {
        usize::MAX
    } else {
        figure as usize
    }
}

/// The part of what was earned that was not spent, in tenths of a percent;
/// zero where nothing was earned or more was spent than earned.
pub fn savings_rate(earned: u128, spent: u128) -> (tenths: u16)
    ensures
        tenths == savings_tenths(earned as nat, spent as nat),
        tenths <= 1000,
{
    if spent >= earned {
        return 0;
    }
    proof {
        lemma_scaled_within((earned - spent) as nat, earned as nat, 1000);
    }
    scaled_ratio(earned - spent, earned, 1000) as u16
}

/// The share of `amount` in `total`, in tenths of a percent; zero where the
/// total is zero.
pub fn share(amount: u128, total: u128) -> (tenths: u128)
    ensures
        tenths == at_most(scaled(amount as nat, total as nat, 1000), u128::MAX as nat),
        amount <= total ==> tenths <= 1000,
{
    proof {
        if amount <= total {
            lemma_scaled_within(amount as nat, total as nat, 1000);
        }
    }
    scaled_ratio(amount, total, 1000)
}

/// A sum of hundredths in whole units, rounded to the nearest; the largest
/// number of 64 bits where it is larger.
pub fn rounded_units(total: u128) -> (units: u64)
    ensures
        units == at_most(rounded_div(total as nat, 100), u64::MAX as nat),
{
    let figure = scaled_ratio(total, 100, 1);
    proof {
        assert(1 * (total as nat) == total) by (nonlinear_arith);
    }
    if figure > u64::MAX as u128 {
        u64::MAX
    } else {
        figure as u64
    }
}

/// `text` cut to `max_len` characters: itself where it is no longer, and else
/// its start with the sign `…` in place of the rest.
pub fn truncate_string(text: &str, max_len: usize) -> (cut: String)
    ensures
        cut@ == cut_to(text@, max_len as nat),
        cut@.len() <= max_len || cut@ == text@,
{
    let mut chars = chars_of(text);
    if chars.len() > max_len {
        if max_len == 0 {
            chars.truncate(0);
        } else {
            chars.truncate(max_len - 1);
            chars.push('…');
        }
    }
    text_of(&chars)
}

} // verus!
