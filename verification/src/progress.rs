//! Progress as it is shown to the user.

use vstd::prelude::*;
use vstd::string::*;

use crate::text::push_decimal;

verus! {

/// How much of `total` is done, in percent and rounded down. Nothing to do is
/// done; a product that does not fit into 64 bits counts as the largest number
/// that does.
pub open spec fn percent_of(done: u64, total: u64) -> nat {
    if total == 0 {
        100
    } else if done * 100 > u64::MAX {
        u64::MAX as nat / total as nat
    } else {
        (done * 100) as nat / total as nat
    }
}

/// How much of `total` is done, in percent.
pub fn progress_percent(done: u64, total: u64) -> (percent: u64)
    ensures
        percent == percent_of(done, total),
{
    if total == 0 {
        return 100;
    }
    let scaled: u64 = if done > u64::MAX / 100 {
        u64::MAX
    } else {
        done * 100
    };
    scaled / total
}

/// Of an amount that can be counted in full, a part is never more than all of
/// it, and all of it is all.
pub proof fn law_percent_bounded(done: u64, total: u64)
    requires
        done <= total,
        total * 100 <= u64::MAX,
    ensures
        percent_of(done, total) <= 100,
        done == total ==> percent_of(done, total) == 100,
{
    if total > 0 {
        assert((done * 100) / total as int <= 100) by (nonlinear_arith)
            requires
                0 <= done <= total,
                total > 0,
        ;
        if done == total {
            assert((total * 100) / total as int == 100) by (nonlinear_arith)
                requires
                    total > 0,
            ;
        }
    }
}

/// The whole number nearest to `numerator / denominator`; of two that are equally
/// near, the even one.
pub open spec fn nearest(numerator: nat, denominator: nat) -> nat {
    let below = numerator / denominator;
    let rest = numerator % denominator;
    if 2 * rest < denominator || (2 * rest == denominator && below % 2 == 0) {
        below
    } else {
        below + 1
    }
}

/// How far apart the numbers of 53 binary digits are around `value`.
pub open spec fn digit_step(value: nat) -> nat
    decreases value,
{
    if value < 0x20_0000_0000_0000 {
        1
    } else {
        2 * digit_step(value / 2)
    }
}

/// The number of 53 binary digits that is nearest to `value`.
pub open spec fn in_53_digits(value: nat) -> nat {
    nearest(value, digit_step(value)) * digit_step(value)
}

/// How many bytes the unit has in which an amount is shown, from one KiB on.
pub open spec fn unit_size(bytes: u64) -> nat {
    if bytes < 0x10_0000 {
        0x400
    } else if bytes < 0x4000_0000 {
        0x10_0000
    } else if bytes < 0x100_0000_0000 {
        0x4000_0000
    } else {
        0x100_0000_0000
    }
}

/// The name of the unit in which an amount is shown, from one KiB on.
pub open spec fn unit_name(bytes: u64) -> Seq<char> {
    if bytes < 0x10_0000 {
        " KiB"@
    } else if bytes < 0x4000_0000 {
        " MiB"@
    } else if bytes < 0x100_0000_0000 {
        " GiB"@
    } else {
        " TiB"@
    }
}

/// An amount as it is shown: in bytes below one KiB, else in tenths of its unit.
pub open spec fn shown_bytes(bytes: u64) -> Seq<char> {
    if bytes < 0x400 {
        crate::text::decimal(bytes as nat) + " B"@
    } else {
        let tenths = nearest(in_53_digits(bytes as nat) * 10, unit_size(bytes));
        crate::text::decimal(tenths / 10) + "."@ + crate::text::decimal(tenths % 10) + unit_name(
            bytes,
        )
    }
}

/// The steps between numbers of 53 binary digits are small.
proof fn lemma_digit_step(value: nat)
    ensures
        digit_step(value) >= 1,
        value >= 0x20_0000_0000_0000 ==> digit_step(value) * 0x10_0000_0000_0000 <= value,
    decreases value,
{
    if value >= 0x20_0000_0000_0000 {
        lemma_digit_step(value / 2);
    }
}

/// How far apart the numbers of 53 binary digits are around `value`.
fn step_around(value: u64) -> (step: u64)
    ensures
        step == digit_step(value as nat),
        1 <= step <= 0x1000,
    decreases value,
{
    proof {
        lemma_digit_step(value as nat);
        lemma_digit_step(value as nat / 2);
    }
    if value < 0x20_0000_0000_0000 {
        1
    } else {
        2 * step_around(value / 2)
    }
}

/// The whole number nearest to `numerator / denominator`.
fn nearest_whole(numerator: u128, denominator: u128) -> (whole: u128)
    requires
        0 < denominator <= 0x100_0000_0000,
    ensures
        whole == nearest(numerator as nat, denominator as nat),
        whole <= numerator / denominator + 1,
{
    let below: u128 = numerator / denominator;
    let rest: u128 = numerator % denominator;
    if 2 * rest < denominator || (2 * rest == denominator && below % 2 == 0) {
        below
    } else {
        assert(below < u128::MAX) by {
            if denominator == 1 {
                assert(rest == 0);
            } else {
                assert(numerator / denominator < u128::MAX) by (nonlinear_arith)
                    requires
                        denominator >= 2,
                        numerator <= u128::MAX,
                ;
            }
        }
        below + 1
    }
}

/// An amount as it is shown.
pub fn format_bytes(bytes: u64) -> (text: String)
    ensures
        text@ == shown_bytes(bytes),
{
    let mut text: String = String::new();
    if bytes < 0x400 {
        push_decimal(&mut text, bytes);
        text.append(" B");
        assert(text@ =~= shown_bytes(bytes));
        return text;
    }
    let (unit, name): (u64, &'static str) = if bytes < 0x10_0000 {
        (0x400, " KiB")
    } else if bytes < 0x4000_0000 {
        (0x10_0000, " MiB")
    } else if bytes < 0x100_0000_0000 {
        (0x4000_0000, " GiB")
    } else {
        (0x100_0000_0000, " TiB")
    };
    let step: u128 = step_around(bytes) as u128;
    let steps: u128 = nearest_whole(bytes as u128, step);
    proof {
        let below = bytes as nat / step as nat;
        assert(steps <= below + 1);
        assert(below * step <= bytes) by (nonlinear_arith)
            requires
                below == bytes as nat / step as nat,
                step >= 1,
        ;
        assert(steps * step <= bytes + step) by (nonlinear_arith)
            requires
                steps <= below + 1,
                below * step <= bytes,
                0 <= steps,
                0 <= step,
        ;
        assert(steps * step >= 0) by (nonlinear_arith)
            requires
                steps >= 0,
                step >= 0,
        ;
    }
    let rounded: u128 = steps * step;
    let tenths: u128 = nearest_whole(rounded * 10, unit as u128);
    proof {
        assert(rounded == in_53_digits(bytes as nat));
        assert((rounded * 10) / unit as int <= rounded * 10) by (nonlinear_arith)
            requires
                rounded >= 0,
                unit >= 1,
        ;
        assert(tenths / 10 <= u64::MAX);
    }
    push_decimal(&mut text, (tenths / 10) as u64);
    text.append(".");
    push_decimal(&mut text, (tenths % 10) as u64);
    text.append(name);
    assert(text@ =~= shown_bytes(bytes));
    text
}

/// A percentage is rounded down: as many hundredths of the total are done, and not
/// one more. What would be counted beyond 64 bits is cut off there. Of nothing, all
/// is done.
pub proof fn law_percent_is_rounded_down(done: u64, total: u64)
    ensures
        total == 0 ==> percent_of(done, total) == 100,
        total > 0 && done * 100 <= u64::MAX ==> percent_of(done, total) * total <= done * 100 < (
        percent_of(done, total) + 1) * total,
        total > 0 && done * 100 > u64::MAX ==> percent_of(done, total) * total <= u64::MAX < (
        percent_of(done, total) + 1) * total,
{
    if total > 0 {
        let scaled = if done * 100 > u64::MAX {
            u64::MAX as int
        } else {
            done * 100
        };
        let percent = percent_of(done, total) as int;
        assert(percent == scaled / total as int);
        assert(percent * total <= scaled < (percent + 1) * total) by (nonlinear_arith)
            requires
                total > 0,
                scaled >= 0,
                percent == scaled / total as int,
        ;
    }
}

/// More that is done is never a smaller percentage.
pub proof fn law_percent_grows(done: u64, more: u64, total: u64)
    requires
        done <= more,
    ensures
        percent_of(done, total) <= percent_of(more, total),
{
    if total > 0 {
        let a = if done * 100 > u64::MAX {
            u64::MAX as int
        } else {
            done * 100
        };
        let b = if more * 100 > u64::MAX {
            u64::MAX as int
        } else {
            more * 100
        };
        assert(a / total as int <= b / total as int) by (nonlinear_arith)
            requires
                0 <= a <= b,
                total > 0,
        ;
    }
}

/// The nearest whole number is at most half away; when two are, it is even.
pub proof fn law_nearest_is_near(numerator: nat, denominator: nat)
    requires
        denominator > 0,
    ensures
        2 * numerator <= 2 * (nearest(numerator, denominator) * denominator) + denominator,
        2 * (nearest(numerator, denominator) * denominator) <= 2 * numerator + denominator,
        2 * numerator == 2 * (nearest(numerator, denominator) * denominator) + denominator
            || 2 * (nearest(numerator, denominator) * denominator) == 2 * numerator + denominator
            ==> nearest(numerator, denominator) % 2 == 0,
{
    let below = numerator / denominator;
    let rest = numerator % denominator;
    vstd::arithmetic::div_mod::lemma_fundamental_div_mod(numerator as int, denominator as int);
    assert(denominator * below == below * denominator) by (nonlinear_arith);
    assert((below + 1) * denominator == below * denominator + denominator) by (nonlinear_arith);
    assert(0 <= rest < denominator);
}

/// How far apart the numbers of 53 binary digits are is a power of two.
proof fn lemma_step_is_power(value: nat) -> (exponent: nat)
    ensures
        digit_step(value) == vstd::arithmetic::power2::pow2(exponent),
        value < 0x20_0000_0000_0000 ==> exponent == 0,
        value >= 0x20_0000_0000_0000 ==> 0x10_0000_0000_0000 * digit_step(value) <= value
            < 0x20_0000_0000_0000 * digit_step(value),
    decreases value,
{
    vstd::arithmetic::power2::lemma2_to64();
    if value < 0x20_0000_0000_0000 {
        0
    } else {
        let exponent = lemma_step_is_power(value / 2);
        vstd::arithmetic::power2::lemma_pow2_unfold(exponent + 1);
        exponent + 1
    }
}

/// A number in 53 binary digits is the nearest one that has no more: a multiple of
/// a power of two that leaves 53 digits, at most half of that away, and when two
/// are, the one whose last digit is even. A number that has no more than 53 digits
/// stays as it is.
pub proof fn law_in_53_digits(value: nat) -> (exponent: nat)
    ensures
        value < 0x20_0000_0000_0000 ==> in_53_digits(value) == value,
        ({
            let step = vstd::arithmetic::power2::pow2(exponent);
            let near = in_53_digits(value);
            &&& value >= 0x20_0000_0000_0000 ==> 0x10_0000_0000_0000 * step <= value
                < 0x20_0000_0000_0000 * step
            &&& near as int % step as int == 0
            &&& 2 * value <= 2 * near + step
            &&& 2 * near <= 2 * value + step
            &&& (2 * value == 2 * near + step || 2 * near == 2 * value + step) ==> (near as int
                / step as int) % 2 == 0
        }),
{
    let exponent = lemma_step_is_power(value);
    let step = digit_step(value);
    let whole = nearest(value, step);
    vstd::arithmetic::power2::lemma_pow2_pos(exponent);
    vstd::arithmetic::power2::lemma2_to64();
    law_nearest_is_near(value, step);
    vstd::arithmetic::div_mod::lemma_mod_multiples_basic(whole as int, step as int);
    vstd::arithmetic::div_mod::lemma_div_multiples_vanish(whole as int, step as int);
    assert(whole * step == step * whole) by (nonlinear_arith);
    if value < 0x20_0000_0000_0000 {
        assert(step == 1);
    }
    exponent
}

/// An amount is shown in the largest unit of which it holds one, with the tenth
/// nearest to it: at most half a tenth is lost or gained, besides what a number of
/// 53 binary digits cannot hold. Amounts below one KiB are shown as they are.
pub proof fn law_amount_is_shown(bytes: u64) -> (tenths: nat)
    ensures
        bytes < 0x400 ==> shown_bytes(bytes) == crate::text::decimal(bytes as nat) + " B"@,
        bytes >= 0x400 ==> ({
            let (unit, name) = if bytes < 0x10_0000 {
                (0x400nat, " KiB"@)
            } else if bytes < 0x4000_0000 {
                (0x10_0000nat, " MiB"@)
            } else if bytes < 0x100_0000_0000 {
                (0x4000_0000nat, " GiB"@)
            } else {
                (0x100_0000_0000nat, " TiB"@)
            };
            let exact = in_53_digits(bytes as nat);
            &&& shown_bytes(bytes) == crate::text::decimal(tenths / 10) + "."@
                + crate::text::decimal(tenths % 10) + name
            &&& unit <= bytes
            &&& 2 * (10 * exact) <= 2 * (tenths * unit) + unit
            &&& 2 * (tenths * unit) <= 2 * (10 * exact) + unit
            &&& (2 * (10 * exact) == 2 * (tenths * unit) + unit || 2 * (tenths * unit) == 2 * (10
                * exact) + unit) ==> tenths % 2 == 0
        }),
{
    let exact = in_53_digits(bytes as nat);
    let tenths = nearest(exact * 10, unit_size(bytes));
    law_nearest_is_near(exact * 10, unit_size(bytes));
    tenths
}

} // verus!
