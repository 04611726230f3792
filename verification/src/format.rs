//! How a count is written: in decimal, and on request scaled down by a base
//! with a unit behind it.

use vstd::prelude::*;
use vstd::string::StringExecFns;

verus! {

/// From this value on a number is scaled down once more.
pub const SCALE_FROM: u64 = 10000;

/// The largest number of times a value is scaled: up to the unit `T`.
pub const MAX_STEPS: u8 = 4;

/// The character of the decimal digit `d`.
pub open spec fn digit_char(d: nat) -> char {
    if d == 0 {
        '0'
    } else if d == 1 {
        '1'
    } else if d == 2 {
        '2'
    } else if d == 3 {
        '3'
    } else if d == 4 {
        '4'
    } else if d == 5 {
        '5'
    } else if d == 6 {
        '6'
    } else if d == 7 {
        '7'
    } else if d == 8 {
        '8'
    } else {
        '9'
    }
}

/// `n` in decimal, without a sign and without leading zeros.
pub open spec fn decimal(n: nat) -> Seq<char>
    decreases n,
{
    if n < 10 {
        seq![digit_char(n)]
    } else {
        decimal(n / 10).push(digit_char(n % 10))
    }
}

/// How often `value` is divided by `base` when at most `left` divisions
/// remain: once for as long as it is still at least [`SCALE_FROM`].
pub open spec fn scale_steps(value: nat, base: nat, left: nat) -> nat
    decreases left,
{
    if left == 0 || value < SCALE_FROM {
        0
    } else {
        1 + scale_steps(value / base, base, (left - 1) as nat)
    }
}

/// `value` after `steps` divisions by `base`.
pub open spec fn scaled(value: nat, base: nat, steps: nat) -> nat
    decreases steps,
{
    if steps == 0 {
        value
    } else {
        scaled(value / base, base, (steps - 1) as nat)
    }
}

/// The unit behind a value that was divided `steps` times.
pub open spec fn unit_suffix(steps: nat) -> Seq<char> {
    if steps == 0 {
        Seq::empty()
    } else if steps == 1 {
        seq!['K']
    } else if steps == 2 {
        seq!['M']
    } else if steps == 3 {
        seq!['G']
    } else {
        seq!['T']
    }
}

/// What [`format_human_readable`] writes for `num`: the plain decimal number
/// without a base; with one, the number divided by the base for as long as it
/// is at least 10000, four times at most, and the unit that says how often.
pub open spec fn human_readable(num: u64, base: Option<u64>) -> Seq<char> {
    match base {
        None => decimal(num as nat),
        Some(b) => {
            let steps = scale_steps(num as nat, b as nat, MAX_STEPS as nat);
            decimal(scaled(num as nat, b as nat, steps)) + unit_suffix(steps)
        },
    }
}

/// A value is never divided more often than there are units.
pub proof fn lemma_scale_steps_bounded(value: nat, base: nat, left: nat)
    requires
        base > 0,
    ensures
        scale_steps(value, base, left) <= left,
    decreases left,
{
    if left != 0 && value >= SCALE_FROM {
        lemma_scale_steps_bounded(value / base, base, (left - 1) as nat);
    }
}

/// A value below 10000 is written as it is, whatever the base.
pub proof fn lemma_small_values_unscaled(num: u64, base: u64)
    requires
        num < SCALE_FROM,
    ensures
        human_readable(num, Some(base)) == decimal(num as nat),
{
    assert(decimal(num as nat) + Seq::<char>::empty() =~= decimal(num as nat));
}

/// What is written before the unit is below 10000 unless the last unit was
/// reached.
pub proof fn lemma_scaled_below_limit(value: nat, base: nat, left: nat)
    requires
        base > 0,
    ensures
        scale_steps(value, base, left) < left ==> scaled(
            value,
            base,
            scale_steps(value, base, left),
        ) < SCALE_FROM,
    decreases left,
{
    if left != 0 && value >= SCALE_FROM {
        lemma_scaled_below_limit(value / base, base, (left - 1) as nat);
    }
}

fn digit_str(d: u64) -> (s: &'static str)
    requires
        d < 10,
    ensures
        s@ == seq![digit_char(d as nat)],
{
    proof {
        reveal_strlit("0");
        reveal_strlit("1");
        reveal_strlit("2");
        reveal_strlit("3");
        reveal_strlit("4");
        reveal_strlit("5");
        reveal_strlit("6");
        reveal_strlit("7");
        reveal_strlit("8");
        reveal_strlit("9");
    }
    let s = if d == 0 {
        "0"
    } else if d == 1 {
        "1"
    } else if d == 2 {
        "2"
    } else if d == 3 {
        "3"
    } else if d == 4 {
        "4"
    } else if d == 5 {
        "5"
    } else if d == 6 {
        "6"
    } else if d == 7 {
        "7"
    } else if d == 8 {
        "8"
    } else {
        "9"
    };
    assert(s@ =~= seq![digit_char(d as nat)]);
    s
}

/// Appends `n` in decimal to `out`.
pub fn push_decimal(out: &mut String, n: u64)
    ensures
        final(out)@ == old(out)@ + decimal(n as nat),
    decreases n,
{
    if n >= 10 {
        push_decimal(out, n / 10);
    }
    out.append(digit_str(n % 10));
    assert(out@ =~= old(out)@ + decimal(n as nat));
}

fn unit_str(steps: u8) -> (s: &'static str)
    ensures
        s@ == unit_suffix(steps as nat),
{
    proof {
        reveal_strlit("");
        reveal_strlit("K");
        reveal_strlit("M");
        reveal_strlit("G");
        reveal_strlit("T");
    }
    let s = if steps == 0 {
        ""
    } else if steps == 1 {
        "K"
    } else if steps == 2 {
        "M"
    } else if steps == 3 {
        "G"
    } else {
        "T"
    };
    assert(s@ =~= unit_suffix(steps as nat));
    s
}

/// Writes `num` for a reader: in decimal as it is where no base is given, else
/// divided by the base while it is at least 10000, up to four times, with `K`,
/// `M`, `G` or `T` behind it for one to four divisions.
///
/// The base must not be zero: there is nothing to divide by.
pub fn format_human_readable(num: u64, base: Option<u64>) -> (s: String)
    requires
        base matches Some(b) ==> b > 0,
    ensures
        s@ == human_readable(num, base),
{
    let mut out = String::new();
    match base {
        None => {
            push_decimal(&mut out, num);
        },
        Some(b) => {
            let mut value: u64 = num;
            let mut steps: u8 = 0;
            while steps < MAX_STEPS && value >= SCALE_FROM
                invariant
                    b > 0,
                    steps <= MAX_STEPS,
                    scale_steps(num as nat, b as nat, MAX_STEPS as nat) == steps + scale_steps(
                        value as nat,
                        b as nat,
                        (MAX_STEPS - steps) as nat,
                    ),
                    forall|more: nat|
                        scaled(num as nat, b as nat, steps as nat + more) == #[trigger] scaled(
                            value as nat,
                            b as nat,
                            more,
                        ),
                decreases MAX_STEPS - steps,
            {
                proof {
                    let prev = value as nat;
                    let done = steps as nat;
                    assert forall|more: nat|
                        scaled(num as nat, b as nat, done + 1 + more) == #[trigger] scaled(
                            prev / (b as nat),
                            b as nat,
                            more,
                        ) by {
                        assert(scaled(prev, b as nat, more + 1) == scaled(
                            prev / (b as nat),
                            b as nat,
                            more,
                        ));
                        assert(done + (more + 1) == done + 1 + more);
                    }
                }
                value = value / b;
                steps = steps + 1;
            }
            proof {
                assert(scaled(value as nat, b as nat, 0) == value as nat);
                assert(scale_steps(value as nat, b as nat, (MAX_STEPS - steps) as nat) == 0);
            }
            push_decimal(&mut out, value);
            out.append(unit_str(steps));
        },
    }
    out
}

} // verus!
