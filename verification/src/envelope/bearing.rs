//! What the control law does, in the numbers that the values stand for: where it
//! heads from where, as far as the limits of a tick and its power bounds say.

use crate::arithmetic;
use crate::envelope::control_law;
use crate::envelope::control_law::{ControllerState, EnvelopeTick, Mode};
use crate::scalar;
use crate::scalar::Scalar;
use crate::span::MAX_SPAN_NANOS;
use vstd::prelude::*;

verus! {

/// The upper limit of a tick, if there is one: the import limit.
pub open spec fn upper<N>(value: spec_fn(N) -> real, t: EnvelopeTick<N>) -> Option<real> {
    match t.import_limit {
        Some(x) => Some(value(x)),
        None => None,
    }
}

/// The lower limit of a tick, if there is one: the negated export limit.
pub open spec fn lower<N>(value: spec_fn(N) -> real, t: EnvelopeTick<N>) -> Option<real> {
    match t.export_limit {
        Some(x) => Some(-value(x)),
        None => None,
    }
}

/// A number, held between the limits of a tick as far as there are any.
pub open spec fn held<N>(value: spec_fn(N) -> real, t: EnvelopeTick<N>, x: real) -> real {
    match (lower(value, t), upper(value, t)) {
        (Some(l), Some(u)) => if x < l {
            l
        } else if u < x {
            u
        } else {
            x
        },
        (Some(l), None) => if x < l {
            l
        } else {
            x
        },
        (None, Some(u)) => if u < x {
            u
        } else {
            x
        },
        (None, None) => x,
    }
}

/// Active power is at or above the upper limit, or at or below the lower one.
pub open spec fn at_a_limit<N>(value: spec_fn(N) -> real, t: EnvelopeTick<N>) -> bool {
    ||| (upper(value, t) matches Some(u) && u <= value(t.active_power))
    ||| (lower(value, t) matches Some(l) && value(t.active_power) <= l)
}

/// Active power keeps clear of both limits, by a fraction of the rated power on
/// either side.
pub open spec fn is_clear<N>(
    value: spec_fn(N) -> real,
    margin: real,
    t: EnvelopeTick<N>,
) -> bool {
    &&& upper(value, t) matches Some(u) ==> margin * value(t.power_max) <= u - value(
        t.active_power,
    )
    &&& lower(value, t) matches Some(l) ==> margin * arithmetic::magnitude(value(t.power_min))
        <= value(t.active_power) - l
}

/// How far the output can ramp in a tick: the rate, times the rated power on the
/// side that it moves to, times the seconds that have passed.
pub open spec fn reach<N: Scalar>(
    value: spec_fn(N) -> real,
    rate: real,
    t: EnvelopeTick<N>,
    upwards: bool,
) -> real {
    let rated = if upwards {
        value(t.power_max)
    } else {
        arithmetic::magnitude(value(t.power_min))
    };
    (rate * rated) * value(N::seconds_spec(t.dt.nanos as nat))
}

/// The output comes to stand at a number: that is written and believed from then
/// on, unless it differs from the output by less than the smallest step.
pub open spec fn comes_to<N: Scalar>(
    value: spec_fn(N) -> real,
    s: ControllerState<N>,
    after: (ControllerState<N>, Option<N>),
    x: real,
) -> bool {
    match after.1 {
        Some(v) => {
            &&& value(v) == x
            &&& after.0.output == v
            &&& value(N::epsilon_spec()) <= arithmetic::magnitude(x - value(s.output))
        },
        None => {
            &&& after.0.output == s.output
            &&& arithmetic::magnitude(x - value(s.output)) < value(N::epsilon_spec())
        },
    }
}

/// What occurs when the output moves to a number counts.
pub open spec fn move_counts<N: Scalar>(
    counts: spec_fn(N) -> bool,
    from: N,
    to: N,
) -> bool {
    counts(to) && counts(to.minus_spec(from)) && counts(to.minus_spec(from).magnitude_spec())
}

/// What occurs when the output ramps towards a number counts, for a largest step.
pub open spec fn step_counts<N: Scalar>(
    counts: spec_fn(N) -> bool,
    from: N,
    to: N,
    step: N,
) -> bool {
    let sign = to.minus_spec(from).sign_spec();
    &&& counts(step) && counts(sign) && counts(step.times_spec(sign))
    &&& move_counts(counts, from, from.plus_spec(step.times_spec(sign)))
}

/// What occurs when the output heads for a number counts.
pub open spec fn aim_counts<N: Scalar>(
    counts: spec_fn(N) -> bool,
    s: ControllerState<N>,
    t: EnvelopeTick<N>,
    to: N,
) -> bool {
    let seconds = N::seconds_spec(t.dt.nanos as nat);
    let rate = s.config.ramp_rate_per_sec;
    &&& move_counts(counts, s.output, to)
    &&& step_counts(counts, s.output, to, rate.times_spec(t.power_max).times_spec(seconds))
    &&& step_counts(
        counts,
        s.output,
        to,
        rate.times_spec(t.power_min.magnitude_spec()).times_spec(seconds),
    )
}

/// What occurs in a tick counts: its inputs, the controller's parameters and
/// output, and what is computed of them.
pub open spec fn tick_counts<N: Scalar>(
    counts: spec_fn(N) -> bool,
    s: ControllerState<N>,
    t: EnvelopeTick<N>,
) -> bool {
    let rate = s.config.ramp_rate_per_sec;
    let margin = s.config.hysteresis_margin;
    let low = t.power_min.magnitude_spec();
    &&& counts(scalar::zero()) && counts(N::epsilon_spec())
    &&& counts(t.active_power) && counts(s.output) && counts(t.power_max) && counts(t.power_min)
        && counts(low)
    &&& counts(rate) && counts(rate.times_spec(t.power_max)) && counts(rate.times_spec(low))
    &&& counts(margin) && counts(margin.times_spec(t.power_max)) && counts(margin.times_spec(low))
    &&& counts(N::seconds_spec(t.dt.nanos as nat))
    &&& aim_counts(counts, s, t, t.requested_setpoint)
    &&& t.import_limit matches Some(x) ==> counts(x.minus_spec(t.active_power)) && aim_counts(
        counts,
        s,
        t,
        x,
    )
    &&& t.export_limit matches Some(x) ==> counts(x) && counts(
        t.active_power.minus_spec(x.negate_spec()),
    ) && aim_counts(counts, s, t, x.negate_spec())
}

/// The numbers of a tick can be told: nothing is rounded, missing limits are
/// infinitely far, and neither the ramp rate, the upper power bound nor the time that
/// has passed is negative.
pub open spec fn is_measured<N: Scalar>(
    value: spec_fn(N) -> real,
    counts: spec_fn(N) -> bool,
    s: ControllerState<N>,
    t: EnvelopeTick<N>,
) -> bool {
    &&& arithmetic::is_exact(value, counts)
    &&& arithmetic::negates(value, counts)
    &&& arithmetic::is_boundless::<N>(counts)
    &&& tick_counts(counts, s, t)
    &&& 0real <= value(s.config.ramp_rate_per_sec)
    &&& 0real <= value(t.power_max)
    &&& 0real <= value(N::seconds_spec(t.dt.nanos as nat))
}

/// The limits of a tick are in order, as far as there are any.
pub open spec fn is_in_order<N>(value: spec_fn(N) -> real, t: EnvelopeTick<N>) -> bool {
    lower(value, t) is Some && upper(value, t) is Some ==> lower(value, t)->0 <= upper(value, t)->0
}

/// The numbers of a tick can be told, and its limits are in order.
pub open spec fn is_told<N: Scalar>(
    value: spec_fn(N) -> real,
    counts: spec_fn(N) -> bool,
    s: ControllerState<N>,
    t: EnvelopeTick<N>,
) -> bool {
    is_measured(value, counts, s, t) && is_in_order(value, t)
}

proof fn lemma_limits<N: Scalar>(
    value: spec_fn(N) -> real,
    counts: spec_fn(N) -> bool,
    s: ControllerState<N>,
    t: EnvelopeTick<N>,
)
    requires
        is_measured(value, counts, s, t),
    ensures
        control_law::violated(t) <==> at_a_limit(value, t),
        control_law::recovering(s.config, t) <==> is_clear(
            value,
            value(s.config.hysteresis_margin),
            t,
        ),
{
    let zero = scalar::zero::<N>();
    let a = t.active_power;
    assert(value(zero) == 0real);
    match t.import_limit {
        Some(x) => {
            assert(value(x.minus_spec(a)) == value(x) - value(a));
        },
        None => {
            assert(!N::infinity_spec().minus_spec(a).at_most_spec(zero));
        },
    }
    match t.export_limit {
        Some(x) => {
            assert(value(x.negate_spec()) == -value(x));
            assert(value(a.minus_spec(x.negate_spec())) == value(a) + value(x));
        },
        None => {
            assert(!a.minus_spec(N::infinity_spec().negate_spec()).at_most_spec(zero));
        },
    }
}

/// A number that counts is held between the limits as it should be.
proof fn lemma_held<N: Scalar>(
    value: spec_fn(N) -> real,
    counts: spec_fn(N) -> bool,
    s: ControllerState<N>,
    t: EnvelopeTick<N>,
    x: N,
)
    requires
        is_told(value, counts, s, t),
        counts(x),
    ensures
        ({
            let r = scalar::clamped(x, control_law::floor(t), control_law::ceiling(t));
            &&& value(r) == held(value, t, value(x))
            &&& r == x || t.import_limit == Some(r) || (t.export_limit matches Some(e) && r
                == e.negate_spec())
        }),
{
    let bottom = N::infinity_spec().negate_spec();
    match t.export_limit {
        Some(e) => {
            assert(value(e.negate_spec()) == -value(e));
        },
        None => {
            assert(!x.below_spec(bottom));
        },
    }
    match t.import_limit {
        Some(u) => {},
        None => {
            assert(!N::infinity_spec().below_spec(x));
        },
    }
}

proof fn lemma_comes_to<N: Scalar>(
    value: spec_fn(N) -> real,
    counts: spec_fn(N) -> bool,
    s: ControllerState<N>,
    t: EnvelopeTick<N>,
    before: ControllerState<N>,
    to: N,
)
    requires
        is_told(value, counts, s, t),
        move_counts(counts, s.output, to),
        before.output == s.output,
    ensures
        comes_to(value, s, control_law::emit(before, to), value(to)),
        control_law::emit(before, to).0.mode == before.mode,
        control_law::emit(before, to).0.dwell == before.dwell,
{
    assert(value(to.minus_spec(s.output)) == value(to) - value(s.output));
}

proof fn lemma_ramp<N: Scalar>(
    value: spec_fn(N) -> real,
    counts: spec_fn(N) -> bool,
    s: ControllerState<N>,
    t: EnvelopeTick<N>,
    before: ControllerState<N>,
)
    requires
        is_told(value, counts, s, t),
        before.output == s.output,
        before.config == s.config,
        before.mode == Mode::Ramping,
    ensures
        ({
            let from = value(s.output);
            let aim = held(value, t, value(t.requested_setpoint));
            let step = reach(value, value(s.config.ramp_rate_per_sec), t, from <= aim);
            let after = control_law::ramp(before, t);
            &&& comes_to(
                value,
                s,
                after,
                held(value, t, control_law::approach(from, aim, step)),
            )
            &&& after.0.mode == (if arithmetic::magnitude(aim - from) <= step {
                Mode::Normal
            } else {
                Mode::Ramping
            })
        }),
{
    let zero = scalar::zero::<N>();
    let to = control_law::target(t);
    lemma_held(value, counts, s, t, t.requested_setpoint);
    assert(aim_counts(counts, s, t, to));
    let from = value(s.output);
    let aim = held(value, t, value(t.requested_setpoint));
    let delta = to.minus_spec(s.output);
    let low = t.power_min.magnitude_spec();
    let seconds = N::seconds_spec(t.dt.nanos as nat);
    let rate = s.config.ramp_rate_per_sec;
    assert(value(zero) == 0real);
    assert(value(delta) == aim - from);
    let rated = if zero.at_most_spec(delta) {
        t.power_max
    } else {
        low
    };
    let step = control_law::ramp_step(before, t);
    assert(step == rate.times_spec(rated).times_spec(seconds));
    assert(value(low) == arithmetic::magnitude(value(t.power_min)));
    assert(value(rate.times_spec(rated)) == value(rate) * value(rated));
    assert(value(step) == reach(value, value(rate), t, from <= aim));
    arithmetic::lemma_times_not_negative(value(rate), value(rated));
    arithmetic::lemma_times_not_negative(value(rate) * value(rated), value(seconds));
    assert(value(delta.magnitude_spec()) == arithmetic::magnitude(aim - from));
    assert(held(value, t, aim) == aim);
    if arithmetic::magnitude(aim - from) <= value(step) {
        lemma_comes_to(
            value,
            counts,
            s,
            t,
            ControllerState { mode: Mode::Normal, ..before },
            to,
        );
    } else {
        let sign = delta.sign_spec();
        arithmetic::lemma_times_one(value(step));
        assert(value(step.times_spec(sign)) == value(step) * value(sign));
        let moved = s.output.plus_spec(step.times_spec(sign));
        assert(moved == control_law::stepped(before, t));
        assert(value(moved) == control_law::approach(from, aim, value(step)));
        lemma_held(value, counts, s, t, moved);
        let put = scalar::clamped(moved, control_law::floor(t), control_law::ceiling(t));
        assert(move_counts(counts, s.output, put));
        lemma_comes_to(value, counts, s, t, before, put);
    }
}

/// What a tick does, in numbers.
///
/// Where active power is at or beyond a limit on either side, the controller is
/// constrained, its dwell starts over, and the output comes to the request, held
/// between the limits. Else a constrained controller that is not clear of both
/// limits by the margin starts its dwell over; one that is waits on until it has
/// been for the whole dwell; and neither writes anything. Then, and in every
/// tick of ramping, the output moves towards the request, held between the
/// limits, by as much as the rate allows, and ramping ends where it arrives. A
/// controller that no limit binds tracks the request, held between the limits.
pub proof fn lemma_tick_in_numbers<N: Scalar>(
    value: spec_fn(N) -> real,
    counts: spec_fn(N) -> bool,
    s: ControllerState<N>,
    t: EnvelopeTick<N>,
)
    requires
        is_told(value, counts, s, t),
    ensures
        ({
            let after = control_law::next(s, t);
            let from = value(s.output);
            let aim = held(value, t, value(t.requested_setpoint));
            let step = reach(value, value(s.config.ramp_rate_per_sec), t, from <= aim);
            let clear = is_clear(value, value(s.config.hysteresis_margin), t);
            let waited = s.dwell + t.dt.nanos;
            if at_a_limit(value, t) {
                &&& after.0.mode == Mode::Constrained
                &&& after.0.dwell == 0
                &&& comes_to(value, s, after, aim)
            } else if s.mode == Mode::Constrained && !clear {
                &&& after.0.mode == Mode::Constrained
                &&& after.0.dwell == 0
                &&& after.0.output == s.output
                &&& after.1 is None
            } else if s.mode == Mode::Constrained && waited < s.config.hysteresis_dwell.nanos {
                &&& after.0.mode == Mode::Constrained
                &&& after.0.dwell == waited
                &&& after.0.output == s.output
                &&& after.1 is None
            } else if s.mode == Mode::Normal {
                &&& after.0.mode == Mode::Normal
                &&& comes_to(value, s, after, aim)
            } else {
                &&& after.0.mode == (if arithmetic::magnitude(aim - from) <= step {
                    Mode::Normal
                } else {
                    Mode::Ramping
                })
                &&& comes_to(
                    value,
                    s,
                    after,
                    held(value, t, control_law::approach(from, aim, step)),
                )
            }
        }),
        control_law::next(s, t).0.config == s.config,
{
    let to = control_law::target(t);
    lemma_limits(value, counts, s, t);
    lemma_held(value, counts, s, t, t.requested_setpoint);
    assert(aim_counts(counts, s, t, to));
    if at_a_limit(value, t) {
        lemma_comes_to(
            value,
            counts,
            s,
            t,
            ControllerState { mode: Mode::Constrained, dwell: 0, ..s },
            to,
        );
    } else if s.mode == Mode::Normal {
        lemma_comes_to(value, counts, s, t, s, to);
    } else if s.mode == Mode::Ramping {
        lemma_ramp(value, counts, s, t, s);
    } else {
        let dwell = s.dwell + t.dt.nanos as nat;
        lemma_ramp(
            value,
            counts,
            s,
            t,
            ControllerState { mode: Mode::Ramping, dwell, ..s },
        );
    }
}

/// Which ticks can be taken: those whose limits are in order, and those on which a
/// constrained controller only waits; but none on which the dwell would outgrow a span.
pub proof fn lemma_which_ticks_can_be_taken<N: Scalar>(
    value: spec_fn(N) -> real,
    counts: spec_fn(N) -> bool,
    s: ControllerState<N>,
    t: EnvelopeTick<N>,
)
    requires
        is_measured(value, counts, s, t),
    ensures
        ({
            let clear = is_clear(value, value(s.config.hysteresis_margin), t);
            let waited = s.dwell + t.dt.nanos;
            let recovers = !at_a_limit(value, t) && s.mode == Mode::Constrained && clear;
            let waits = !at_a_limit(value, t) && s.mode == Mode::Constrained && !(clear && waited
                >= s.config.hysteresis_dwell.nanos);
            control_law::ready(s, t) <==> (waits || is_in_order(value, t)) && (recovers ==> waited
                <= MAX_SPAN_NANOS)
        }),
{
    lemma_limits(value, counts, s, t);
    if let Some(x) = t.export_limit {
        assert(value(x.negate_spec()) == -value(x));
    }
    assert(control_law::floor(t).at_most_spec(control_law::ceiling(t)) <==> is_in_order(value, t));
}

/// A limit binds on either side: where active power is at or above the import
/// limit, or at or below the negated export limit, a tick leaves the controller
/// constrained with its dwell at zero, whatever it was doing.
pub proof fn lemma_either_limit_constrains<N: Scalar>(
    value: spec_fn(N) -> real,
    counts: spec_fn(N) -> bool,
    s: ControllerState<N>,
    t: EnvelopeTick<N>,
    limit: N,
)
    requires
        arithmetic::is_exact(value, counts),
        arithmetic::negates(value, counts),
        counts(scalar::zero()) && counts(t.active_power) && counts(limit),
        ({
            ||| {
                &&& t.import_limit == Some(limit)
                &&& counts(limit.minus_spec(t.active_power))
                &&& value(limit) <= value(t.active_power)
            }
            ||| {
                &&& t.export_limit == Some(limit)
                &&& counts(limit.negate_spec())
                &&& counts(t.active_power.minus_spec(limit.negate_spec()))
                &&& value(t.active_power) <= -value(limit)
            }
        }),
    ensures
        control_law::next(s, t).0.mode == Mode::Constrained,
        control_law::next(s, t).0.dwell == 0,
{
    assert(value(scalar::zero::<N>()) == 0real);
    if t.import_limit == Some(limit) && value(limit) <= value(t.active_power) && counts(
        limit.minus_spec(t.active_power),
    ) {
        assert(limit.minus_spec(t.active_power).at_most_spec(scalar::zero()));
    } else {
        assert(value(limit.negate_spec()) == -value(limit));
        assert(t.active_power.minus_spec(limit.negate_spec()).at_most_spec(scalar::zero()));
    }
}

/// Whole numbers of at most this size tick as numbers do.
pub open spec fn is_small(n: int) -> bool {
    -0x10_0000 <= n <= 0x10_0000
}

proof fn lemma_small_product(a: int, b: int, m: int, n: int)
    by (nonlinear_arith)
    requires
        -m <= a <= m,
        -n <= b <= n,
        0 <= m,
        0 <= n,
    ensures
        -(m * n) <= a * b <= m * n,
{
}

proof fn lemma_small_aim_counts(s: ControllerState<i64>, t: EnvelopeTick<i64>, to: i64)
    requires
        is_small(s.output as int) && is_small(to as int),
        is_small(t.power_min as int) && 0 <= t.power_max <= 0x10_0000,
        0 <= s.config.ramp_rate_per_sec <= 0x400,
        t.dt.nanos <= 0x400 * 1_000_000_000,
    ensures
        aim_counts(arithmetic::moderate(), s, t, to),
{
    let seconds = i64::seconds_spec(t.dt.nanos as nat);
    let rate = s.config.ramp_rate_per_sec;
    let low = t.power_min.magnitude_spec();
    assert(0 <= seconds <= 0x400);
    lemma_small_product(rate as int, t.power_max as int, 0x400, 0x10_0000);
    lemma_small_product(rate as int, low as int, 0x400, 0x10_0000);
    let up = rate.times_spec(t.power_max);
    let down = rate.times_spec(low);
    lemma_small_product(up as int, seconds as int, 0x4000_0000, 0x400);
    lemma_small_product(down as int, seconds as int, 0x4000_0000, 0x400);
    let sign = to.minus_spec(s.output).sign_spec();
    let a = up.times_spec(seconds);
    let b = down.times_spec(seconds);
    lemma_small_product(a as int, sign as int, 0x100_0000_0000, 1);
    lemma_small_product(b as int, sign as int, 0x100_0000_0000, 1);
}

/// Whole numbers of moderate size tick so, with limits or without.
pub proof fn lemma_whole_numbers_tick(s: ControllerState<i64>, t: EnvelopeTick<i64>)
    requires
        is_small(s.output as int) && is_small(t.active_power as int) && is_small(
            t.requested_setpoint as int,
        ),
        is_small(t.power_min as int) && 0 <= t.power_max <= 0x10_0000,
        0 <= s.config.ramp_rate_per_sec <= 0x400 && 0 <= s.config.hysteresis_margin <= 0x400,
        t.dt.nanos <= 0x400 * 1_000_000_000,
        t.import_limit matches Some(x) ==> 0 <= x <= 0x10_0000,
        t.export_limit matches Some(x) ==> 0 <= x <= 0x10_0000,
    ensures
        is_told(arithmetic::whole_value(), arithmetic::moderate(), s, t),
{
    arithmetic::lemma_moderate_numbers_are_exact();
    let low = t.power_min.magnitude_spec();
    lemma_small_product(s.config.ramp_rate_per_sec as int, t.power_max as int, 0x400, 0x10_0000);
    lemma_small_product(s.config.ramp_rate_per_sec as int, low as int, 0x400, 0x10_0000);
    lemma_small_product(s.config.hysteresis_margin as int, t.power_max as int, 0x400, 0x10_0000);
    lemma_small_product(s.config.hysteresis_margin as int, low as int, 0x400, 0x10_0000);
    lemma_small_aim_counts(s, t, t.requested_setpoint);
    if let Some(x) = t.import_limit {
        lemma_small_aim_counts(s, t, x);
    }
    if let Some(x) = t.export_limit {
        lemma_small_aim_counts(s, t, x.negate_spec());
    }
}

/// In whole numbers a limit binds on either side, whatever the numbers are; and where active
/// power is strictly between the limits, no tick constrains a controller that was not.
pub proof fn lemma_whole_limits_constrain(s: ControllerState<i64>, t: EnvelopeTick<i64>)
    ensures
        t.import_limit matches Some(x) && x <= t.active_power ==> control_law::next(s, t).0.mode
            == Mode::Constrained && control_law::next(s, t).0.dwell == 0,
        t.export_limit matches Some(x) && t.active_power <= -x ==> control_law::next(s, t).0.mode
            == Mode::Constrained && control_law::next(s, t).0.dwell == 0,
        (i64::MIN + 1 < t.active_power < i64::MAX && s.mode != Mode::Constrained && (
        t.import_limit is Some ==> t.active_power < t.import_limit->0) && (t.export_limit is Some
            ==> -t.export_limit->0 < t.active_power)) ==> control_law::next(s, t).0.mode
            != Mode::Constrained,
{
}

} // verus!
