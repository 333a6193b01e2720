//! Envelope control law: clamp on a violation, hold, and ramp back once
//! headroom has lasted.
//!
//! The envelope overrides intent for a while and is no source of it: while no
//! limit binds, the output tracks the requested setpoint; while one binds, the
//! output is clamped; after recovery it ramps back towards the request.

use crate::arithmetic;
use crate::scalar;
use crate::scalar::Scalar;
use crate::span::{Span, MAX_SPAN_NANOS};
use vstd::prelude::*;

verus! {

/// Where the controller stands.
#[derive(Debug, Clone, Copy, PartialEq, Eq, Structural)]
pub enum Mode {
    /// No limit binds: the output tracks the request.
    Normal,
    /// A limit binds or bound until recently: the output is held.
    Constrained,
    /// Recovered: the output ramps back towards the request.
    Ramping,
}

/// Control-law parameters.
#[derive(Debug)]
pub struct EnvelopeConfig<N> {
    /// Ramp rate on recovery, as a fraction of rated power per second.
    pub ramp_rate_per_sec: N,
    /// Headroom that ends a constrained event, as a fraction of rated power.
    pub hysteresis_margin: N,
    /// How long that headroom must hold without a break.
    pub hysteresis_dwell: Span,
}

/// One parent's envelope controller.
pub struct EnvelopeController<N> {
    mode: Mode,
    dwell_elapsed: Span,
    current_output: N,
    config: EnvelopeConfig<N>,
}

/// One tick's live inputs.
#[derive(Debug)]
pub struct EnvelopeTick<N> {
    /// Live import limit, if one has been published.
    pub import_limit: Option<N>,
    /// Live export limit, a positive magnitude, if one has been published.
    pub export_limit: Option<N>,
    /// Current active power.
    pub active_power: N,
    /// The setpoint that was last asked for.
    pub requested_setpoint: N,
    /// Lower power bound; its magnitude rates the export side.
    pub power_min: N,
    /// Upper power bound; it rates the import side.
    pub power_max: N,
    /// Time since the tick before.
    pub dt: Span,
}

impl<N: Scalar> Copy for EnvelopeConfig<N> {

}

impl<N: Scalar> Clone for EnvelopeConfig<N> {
    fn clone(&self) -> (r: Self)
        ensures
            r == *self,
    {
        *self
    }
}

impl<N: Scalar> Copy for EnvelopeTick<N> {

}

impl<N: Scalar> Clone for EnvelopeTick<N> {
    fn clone(&self) -> (r: Self)
        ensures
            r == *self,
    {
        *self
    }
}

/// What a controller remembers.
pub struct ControllerState<N> {
    /// Where it stands.
    pub mode: Mode,
    /// Nanoseconds of unbroken headroom.
    pub dwell: nat,
    /// What the device is believed to hold.
    pub output: N,
    /// Parameters.
    pub config: EnvelopeConfig<N>,
}

/// The upper limit of a tick; none is as good as infinite.
pub open spec fn ceiling<N: Scalar>(t: EnvelopeTick<N>) -> N {
    match t.import_limit {
        Some(x) => x,
        None => N::infinity_spec(),
    }
}

/// The lower limit of a tick.
pub open spec fn floor<N: Scalar>(t: EnvelopeTick<N>) -> N {
    match t.export_limit {
        Some(x) => x.negate_spec(),
        None => N::infinity_spec().negate_spec(),
    }
}

/// Room left below the upper limit.
pub open spec fn headroom_import<N: Scalar>(t: EnvelopeTick<N>) -> N {
    ceiling(t).minus_spec(t.active_power)
}

/// Room left above the lower limit.
pub open spec fn headroom_export<N: Scalar>(t: EnvelopeTick<N>) -> N {
    t.active_power.minus_spec(floor(t))
}

/// A limit is used up or overrun.
pub open spec fn violated<N: Scalar>(t: EnvelopeTick<N>) -> bool {
    headroom_import(t).at_most_spec(scalar::zero()) || headroom_export(t).at_most_spec(
        scalar::zero(),
    )
}

/// Both sides have the headroom that recovery asks for.
pub open spec fn recovering<N: Scalar>(config: EnvelopeConfig<N>, t: EnvelopeTick<N>) -> bool {
    &&& config.hysteresis_margin.times_spec(t.power_max).at_most_spec(headroom_import(t))
    &&& config.hysteresis_margin.times_spec(t.power_min.magnitude_spec()).at_most_spec(
        headroom_export(t),
    )
}

/// The request, held within the limits.
pub open spec fn target<N: Scalar>(t: EnvelopeTick<N>) -> N {
    scalar::clamped(t.requested_setpoint, floor(t), ceiling(t))
}

/// The tick neither violates a limit nor completes the dwell of a constrained
/// controller: the output is held.
pub open spec fn holds<N: Scalar>(s: ControllerState<N>, t: EnvelopeTick<N>) -> bool {
    &&& !violated(t)
    &&& s.mode == Mode::Constrained
    &&& !(recovering(s.config, t) && s.dwell + t.dt.nanos >= s.config.hysteresis_dwell.nanos)
}

/// Put out a value: a change smaller than the smallest step is no change.
pub open spec fn emit<N: Scalar>(s: ControllerState<N>, value: N) -> (
    ControllerState<N>,
    Option<N>,
) {
    if value.minus_spec(s.output).magnitude_spec().below_spec(N::epsilon_spec()) {
        (s, None)
    } else {
        (ControllerState { output: value, ..s }, Some(value))
    }
}

/// The largest step that ramping may take in a tick.
pub open spec fn ramp_step<N: Scalar>(s: ControllerState<N>, t: EnvelopeTick<N>) -> N {
    let delta = target(t).minus_spec(s.output);
    let rated = if scalar::zero::<N>().at_most_spec(delta) {
        t.power_max
    } else {
        t.power_min.magnitude_spec()
    };
    s.config.ramp_rate_per_sec.times_spec(rated).times_spec(N::seconds_spec(t.dt.nanos as nat))
}

/// The output after one largest step towards the target.
pub open spec fn stepped<N: Scalar>(s: ControllerState<N>, t: EnvelopeTick<N>) -> N {
    s.output.plus_spec(ramp_step(s, t).times_spec(target(t).minus_spec(s.output).sign_spec()))
}

/// One step of ramping: to the target where it is within reach, else one
/// largest step towards it, held within the limits.
pub open spec fn ramp<N: Scalar>(s: ControllerState<N>, t: EnvelopeTick<N>) -> (
    ControllerState<N>,
    Option<N>,
) {
    let delta = target(t).minus_spec(s.output);
    let step = ramp_step(s, t);
    if delta.magnitude_spec().at_most_spec(step) {
        emit(ControllerState { mode: Mode::Normal, ..s }, target(t))
    } else {
        emit(s, scalar::clamped(stepped(s, t), floor(t), ceiling(t)))
    }
}

/// One tick of the control law.
pub open spec fn next<N: Scalar>(s: ControllerState<N>, t: EnvelopeTick<N>) -> (
    ControllerState<N>,
    Option<N>,
) {
    if violated(t) {
        emit(ControllerState { mode: Mode::Constrained, dwell: 0, ..s }, target(t))
    } else if s.mode == Mode::Constrained {
        if recovering(s.config, t) {
            let dwell = s.dwell + t.dt.nanos as nat;
            if dwell >= s.config.hysteresis_dwell.nanos {
                ramp(ControllerState { mode: Mode::Ramping, dwell, ..s }, t)
            } else {
                (ControllerState { dwell, ..s }, None)
            }
        } else {
            (ControllerState { dwell: 0, ..s }, None)
        }
    } else if s.mode == Mode::Ramping {
        ramp(s, t)
    } else {
        emit(s, target(t))
    }
}

/// A tick that can be taken: wherever the request is clamped the limits are
/// in order, and the dwell does not outgrow a span.
pub open spec fn ready<N: Scalar>(s: ControllerState<N>, t: EnvelopeTick<N>) -> bool {
    &&& !holds(s, t) ==> floor(t).at_most_spec(ceiling(t))
    &&& (!violated(t) && s.mode == Mode::Constrained && recovering(s.config, t)) ==> s.dwell
        + t.dt.nanos <= MAX_SPAN_NANOS
}

impl<N: Scalar> View for EnvelopeController<N> {
    type V = ControllerState<N>;

    closed spec fn view(&self) -> ControllerState<N> {
        ControllerState {
            mode: self.mode,
            dwell: self.dwell_elapsed.nanos as nat,
            output: self.current_output,
            config: self.config,
        }
    }
}

impl<N: Scalar> EnvelopeController<N> {
    /// A controller in normal mode that believes the device to hold
    /// `initial_output`.
    pub fn new(config: EnvelopeConfig<N>, initial_output: N) -> (r: Self)
        ensures
            r@.mode == Mode::Normal,
            r@.dwell == 0,
            r@.output == initial_output,
            r@.config == config,
    {
        EnvelopeController {
            mode: Mode::Normal,
            dwell_elapsed: Span { nanos: 0 },
            current_output: initial_output,
            config,
        }
    }

    /// What the device is believed to hold.
    pub fn current_output(&self) -> (r: N)
        ensures
            r == self@.output,
    {
        self.current_output
    }

    fn limits(input: &EnvelopeTick<N>) -> (r: (N, N))
        ensures
            r.0 == floor(*input),
            r.1 == ceiling(*input),
    {
        let top: N = match input.import_limit {
            Some(x) => x,
            None => N::infinity(),
        };
        let bottom: N = match input.export_limit {
            Some(x) => x.negate(),
            None => N::infinity().negate(),
        };
        (bottom, top)
    }

    fn is_violated(input: &EnvelopeTick<N>) -> (r: bool)
        ensures
            r == violated(*input),
    {
        let (bottom, top): (N, N) = Self::limits(input);
        top.minus(input.active_power).at_most(N::from_u64(0)) || input.active_power.minus(
            bottom,
        ).at_most(N::from_u64(0))
    }

    fn is_recovering(&self, input: &EnvelopeTick<N>) -> (r: bool)
        ensures
            r == recovering(self@.config, *input),
    {
        let (bottom, top): (N, N) = Self::limits(input);
        let margin_import = self.config.hysteresis_margin.times(input.power_max);
        let margin_export = self.config.hysteresis_margin.times(input.power_min.magnitude());
        margin_import.at_most(top.minus(input.active_power)) && margin_export.at_most(
            input.active_power.minus(bottom),
        )
    }

    /// Whether a tick can be taken.
    pub fn can_tick(&self, input: &EnvelopeTick<N>) -> (r: bool)
        ensures
            r == ready(self@, *input),
    {
        let (bottom, top): (N, N) = Self::limits(input);
        if Self::is_violated(input) {
            return bottom.at_most(top);
        }
        if self.mode != Mode::Constrained {
            return bottom.at_most(top);
        }
        if !self.is_recovering(input) {
            return true;
        }
        if self.dwell_elapsed.nanos > u128::MAX - input.dt.nanos {
            return false;
        }
        let dwell: u128 = self.dwell_elapsed.nanos + input.dt.nanos;
        if dwell > MAX_SPAN_NANOS {
            return false;
        }
        dwell < self.config.hysteresis_dwell.nanos || bottom.at_most(top)
    }

    /// Take one tick. Returns the setpoint to write, or `None` where the
    /// output does not change.
    pub fn tick(&mut self, input: EnvelopeTick<N>) -> (r: Option<N>)
        requires
            ready(old(self)@, input),
        ensures
            (final(self)@, r) == next(old(self)@, input),
    {
        let (bottom, top): (N, N) = Self::limits(&input);
        if Self::is_violated(&input) {
            self.mode = Mode::Constrained;
            self.dwell_elapsed = Span { nanos: 0 };
            let value = scalar::clamp(input.requested_setpoint, bottom, top);
            return self.write(value);
        }
        if self.mode == Mode::Constrained {
            if self.is_recovering(&input) {
                let dwell: u128 = self.dwell_elapsed.nanos + input.dt.nanos;
                self.dwell_elapsed = Span { nanos: dwell };
                if dwell >= self.config.hysteresis_dwell.nanos {
                    self.mode = Mode::Ramping;
                }
            } else {
                self.dwell_elapsed = Span { nanos: 0 };
            }
            if self.mode == Mode::Constrained {
                return None;
            }
        }
        let aim = scalar::clamp(input.requested_setpoint, bottom, top);
        match self.mode {
            Mode::Ramping => {
                let delta = aim.minus(self.current_output);
                let rated: N = if N::from_u64(0).at_most(delta) {
                    input.power_max
                } else {
                    input.power_min.magnitude()
                };
                let max_step = self.config.ramp_rate_per_sec.times(rated).times(
                    N::from_nanos(input.dt.nanos),
                );
                if delta.magnitude().at_most(max_step) {
                    self.mode = Mode::Normal;
                    self.write(aim)
                } else {
                    let value = self.current_output.plus(max_step.times(delta.sign()));
                    self.write(scalar::clamp(value, bottom, top))
                }
            },
            _ => self.write(aim),
        }
    }

    /// Update the output; returns the value if it changed.
    fn write(&mut self, value: N) -> (r: Option<N>)
        ensures
            (final(self)@, r) == emit(old(self)@, value),
    {
        if value.minus(self.current_output).magnitude().below(N::epsilon()) {
            return None;
        }
        self.current_output = value;
        Some(value)
    }
}

// ---------------------------------------------------------------------
// Laws
// ---------------------------------------------------------------------

/// A violation clamps at once, whatever the controller was doing: it is
/// constrained, its dwell starts over, and the output is the request held
/// within the limits, or differs from it by less than the smallest step.
pub proof fn lemma_violation_clamps<N: Scalar>(s: ControllerState<N>, t: EnvelopeTick<N>)
    requires
        violated(t),
    ensures
        next(s, t).0.mode == Mode::Constrained,
        next(s, t).0.dwell == 0,
        next(s, t).1 == Some(target(t)) && next(s, t).0.output == target(t) || next(s, t).1 is None
            && next(s, t).0.output == s.output && target(t).minus_spec(
            s.output,
        ).magnitude_spec().below_spec(N::epsilon_spec()),
{
}

/// While it holds, a controller writes nothing and keeps its output.
pub proof fn lemma_hold_writes_nothing<N: Scalar>(s: ControllerState<N>, t: EnvelopeTick<N>)
    requires
        holds(s, t),
    ensures
        next(s, t).1 is None,
        next(s, t).0.output == s.output,
        next(s, t).0.mode == Mode::Constrained,
{
}

/// A constrained controller that loses the headroom of recovery starts its
/// dwell over.
pub proof fn lemma_lost_margin_resets_dwell<N: Scalar>(s: ControllerState<N>, t: EnvelopeTick<N>)
    requires
        s.mode == Mode::Constrained,
        !recovering(s.config, t),
    ensures
        next(s, t).0.dwell == 0,
        next(s, t).0.mode == Mode::Constrained,
{
}

/// What is written is what the device is believed to hold from then on, and
/// without a write that belief does not change; the parameters never do.
pub proof fn lemma_write_is_output<N: Scalar>(s: ControllerState<N>, t: EnvelopeTick<N>)
    ensures
        match next(s, t).1 {
            Some(v) => next(s, t).0.output == v,
            None => next(s, t).0.output == s.output,
        },
        next(s, t).0.config == s.config,
{
}

/// A controller leaves its constrained mode only by ramping, on a tick that
/// has the headroom of recovery and completes the dwell.
pub proof fn lemma_constrained_until_dwell<N: Scalar>(s: ControllerState<N>, t: EnvelopeTick<N>)
    requires
        s.mode == Mode::Constrained,
        next(s, t).0.mode != Mode::Constrained,
    ensures
        !violated(t),
        recovering(s.config, t),
        s.dwell + t.dt.nanos >= s.config.hysteresis_dwell.nanos,
        next(s, t) == ramp(
            ControllerState { mode: Mode::Ramping, dwell: s.dwell + t.dt.nanos as nat, ..s },
            t,
        ),
{
}

/// The target is the request where that is within the limits, and else the
/// limit that it overruns.
pub proof fn lemma_target_within_limits<N: Scalar>(t: EnvelopeTick<N>)
    ensures
        ({
            let request = t.requested_setpoint;
            ||| request.below_spec(floor(t)) && target(t) == floor(t)
            ||| ceiling(t).below_spec(request) && target(t) == ceiling(t)
            ||| !request.below_spec(floor(t)) && !ceiling(t).below_spec(request) && target(t)
                == request
        }),
{
}

/// Nothing but the target is written on a violation, while no limit binds, and
/// when ramping ends.
pub proof fn lemma_target_is_written<N: Scalar>(s: ControllerState<N>, t: EnvelopeTick<N>)
    requires
        violated(t) || s.mode == Mode::Normal || next(s, t).0.mode == Mode::Normal,
    ensures
        next(s, t).1 matches Some(v) ==> v == target(t),
{
}

/// Recovery heads for the target and for nothing else: a controller that ramps
/// on writes one largest step from its output in the target's direction, held
/// within the limits, and only where the target is out of the step's reach.
pub proof fn lemma_ramp_heads_for_target<N: Scalar>(s: ControllerState<N>, t: EnvelopeTick<N>)
    requires
        next(s, t).0.mode == Mode::Ramping,
    ensures
        ({
            let delta = target(t).minus_spec(s.output);
            &&& !violated(t)
            &&& !delta.magnitude_spec().at_most_spec(ramp_step(s, t))
            &&& next(s, t).1 matches Some(v) ==> v == scalar::clamped(
                stepped(s, t),
                floor(t),
                ceiling(t),
            )
        }),
{
}

/// Nothing is ever written past a limit, whatever the controller was doing:
/// a value that is written is neither above the upper limit nor below the
/// lower one, where the limits are numbers in order.
pub proof fn lemma_never_past_a_limit<N: Scalar>(s: ControllerState<N>, t: EnvelopeTick<N>)
    requires
        !floor(t).below_spec(floor(t)),
        !ceiling(t).below_spec(ceiling(t)),
        !ceiling(t).below_spec(floor(t)),
    ensures
        next(s, t).1 matches Some(v) ==> !ceiling(t).below_spec(v) && !v.below_spec(floor(t)),
{
}

/// Where the number that one step of ramping puts out stands.
pub open spec fn approach(from: real, to: real, step: real) -> real {
    if arithmetic::magnitude(to - from) <= step {
        to
    } else if from < to {
        from + step
    } else {
        from - step
    }
}

/// What occurs in a step of ramping counts: the target, the output, the step,
/// and what is computed of them.
pub open spec fn ramp_counts<N: Scalar>(
    counts: spec_fn(N) -> bool,
    s: ControllerState<N>,
    t: EnvelopeTick<N>,
) -> bool {
    let delta = target(t).minus_spec(s.output);
    let step = ramp_step(s, t);
    &&& counts(target(t)) && counts(s.output) && counts(step) && counts(N::epsilon_spec())
    &&& counts(delta) && counts(delta.magnitude_spec())
    &&& !delta.magnitude_spec().at_most_spec(step) ==> {
        let moved = stepped(s, t).minus_spec(s.output);
        &&& counts(delta.sign_spec()) && counts(step.times_spec(delta.sign_spec()))
        &&& counts(stepped(s, t)) && counts(moved) && counts(moved.magnitude_spec())
    }
}

/// What a step of ramping puts out: the target where it is within reach, and
/// else exactly one largest step towards it. It lies between the output and the
/// target, no further from the output than the step. What differs from the
/// output by less than the smallest step is not written.
pub open spec fn ramps_as<N: Scalar>(
    value: spec_fn(N) -> real,
    s: ControllerState<N>,
    t: EnvelopeTick<N>,
) -> bool {
    let from = value(s.output);
    let to = value(target(t));
    let step = value(ramp_step(s, t));
    let aim = approach(from, to, step);
    &&& match ramp(s, t).1 {
        Some(v) => value(v) == aim,
        None => arithmetic::magnitude(aim - from) < value(N::epsilon_spec()),
    }
    &&& from <= aim <= to || to <= aim <= from
    &&& arithmetic::magnitude(aim - from) <= step
    &&& arithmetic::magnitude(to - from) <= step ==> ramp(s, t).0.mode == Mode::Normal
    &&& arithmetic::magnitude(to - from) > step ==> ramp(s, t).0.mode == s.mode
}

/// Recovery only ever approaches the target: from within the limits, and where
/// nothing is rounded, a step of ramping never goes away from the target, never
/// past it, and never further than the step. The limits only have to be in
/// order with the values that count; they may be infinite.
pub proof fn lemma_ramp_approaches_target<N: Scalar>(
    value: spec_fn(N) -> real,
    counts: spec_fn(N) -> bool,
    ordered: spec_fn(N) -> bool,
    s: ControllerState<N>,
    t: EnvelopeTick<N>,
)
    requires
        arithmetic::is_exact(value, counts),
        arithmetic::orders_as(value, ordered),
        forall|x: N| #[trigger] counts(x) ==> ordered(x),
        ordered(floor(t)) && ordered(ceiling(t)) && ordered(t.requested_setpoint),
        ramp_counts(counts, s, t),
        value(floor(t)) <= value(s.output) <= value(ceiling(t)),
        0real <= value(ramp_step(s, t)),
    ensures
        ramps_as(value, s, t),
        s.mode == Mode::Ramping && !violated(t) ==> next(s, t) == ramp(s, t),
{
    let from = value(s.output);
    let to = value(target(t));
    let step = value(ramp_step(s, t));
    let delta = target(t).minus_spec(s.output);
    assert(ordered(s.output));
    assert(value(floor(t)) <= to <= value(ceiling(t)));
    assert(value(delta) == to - from);
    if step < arithmetic::magnitude(to - from) {
        assert(!delta.magnitude_spec().at_most_spec(ramp_step(s, t)));
        arithmetic::lemma_times_one(step);
        assert(value(stepped(s, t)) == approach(from, to, step));
        assert(ordered(stepped(s, t)));
        assert(scalar::clamped(stepped(s, t), floor(t), ceiling(t)) == stepped(s, t));
    }
}

/// Whole numbers ramp so, with or without limits, as long as the output, the
/// target and the step are a good deal smaller than the largest number.
pub proof fn lemma_whole_numbers_ramp(s: ControllerState<i64>, t: EnvelopeTick<i64>)
    requires
        floor(t) <= s.output <= ceiling(t),
        0 <= ramp_step(s, t) <= 0x1000_0000_0000_0000,
        -0x1000_0000_0000_0000 <= s.output <= 0x1000_0000_0000_0000,
        -0x1000_0000_0000_0000 <= target(t) <= 0x1000_0000_0000_0000,
    ensures
        ramps_as(arithmetic::whole_value(), s, t),
{
    arithmetic::lemma_whole_numbers_are_exact();
    let step = ramp_step(s, t) as int;
    assert(step * 1 == step && step * -1 == -step);
    lemma_ramp_approaches_target(
        arithmetic::whole_value(),
        arithmetic::within_range(),
        arithmetic::always::<i64>(),
        s,
        t,
    );
}

/// The state after a run of ticks.
pub open spec fn after<N: Scalar>(
    s: ControllerState<N>,
    ticks: Seq<EnvelopeTick<N>>,
) -> ControllerState<N>
    decreases ticks.len(),
{
    if ticks.len() == 0 {
        s
    } else {
        next(after(s, ticks.drop_last()), ticks.last()).0
    }
}

/// How long the headroom of recovery has lasted without a break at the end of a
/// run of ticks, in nanoseconds, where it had lasted for `start` before it.
pub open spec fn unbroken<N: Scalar>(
    config: EnvelopeConfig<N>,
    start: nat,
    ticks: Seq<EnvelopeTick<N>>,
) -> nat
    decreases ticks.len(),
{
    if ticks.len() == 0 {
        start
    } else if !violated(ticks.last()) && recovering(config, ticks.last()) {
        unbroken(config, start, ticks.drop_last()) + ticks.last().dt.nanos as nat
    } else {
        0
    }
}

/// Over a run of ticks the headroom of recovery never lasts for the whole dwell
/// without a break.
pub open spec fn breaks_off<N: Scalar>(
    s: ControllerState<N>,
    ticks: Seq<EnvelopeTick<N>>,
) -> bool {
    forall|n: int|
        0 < n <= ticks.len() && recovering(s.config, ticks[n - 1]) && !violated(ticks[n - 1]) ==> (
        #[trigger] unbroken(s.config, s.dwell, ticks.take(n)))
            < s.config.hysteresis_dwell.nanos
}

/// Recovery takes the whole dwell without a break: over a run of ticks in which
/// the headroom of recovery breaks off every time before it has lasted that
/// long, a constrained controller stays constrained, however long the run is.
/// Its dwell is how long the headroom has lasted at the end. Unless a limit is
/// violated it writes nothing and keeps its output.
pub proof fn lemma_dwell_must_pass<N: Scalar>(
    s: ControllerState<N>,
    ticks: Seq<EnvelopeTick<N>>,
)
    requires
        s.mode == Mode::Constrained,
        breaks_off(s, ticks),
    ensures
        after(s, ticks).mode == Mode::Constrained,
        after(s, ticks).dwell == unbroken(s.config, s.dwell, ticks),
        (forall|i: int| 0 <= i < ticks.len() ==> !violated(#[trigger] ticks[i])) ==> after(
            s,
            ticks,
        ).output == s.output,
        ticks.len() > 0 && !violated(ticks.last()) ==> next(
            after(s, ticks.drop_last()),
            ticks.last(),
        ).1 is None,
    decreases ticks.len(),
{
    if ticks.len() > 0 {
        let init = ticks.drop_last();
        assert forall|n: int|
            0 < n <= init.len() && recovering(s.config, init[n - 1]) && !violated(
                init[n - 1],
            ) implies (#[trigger] unbroken(s.config, s.dwell, init.take(n)))
            < s.config.hysteresis_dwell.nanos by {
            assert(init.take(n) =~= ticks.take(n));
            assert(init[n - 1] == ticks[n - 1]);
        }
        lemma_dwell_must_pass(s, init);
        lemma_config_is_kept(s, init);
        let whole = ticks.take(ticks.len() as int);
        assert(whole =~= ticks);
        assert(unbroken(s.config, s.dwell, whole) == unbroken(s.config, s.dwell, ticks));
        if forall|i: int| 0 <= i < ticks.len() ==> !violated(#[trigger] ticks[i]) {
            assert forall|i: int| 0 <= i < init.len() implies !violated(#[trigger] init[i]) by {
                assert(init[i] == ticks[i]);
            }
            assert(!violated(ticks[ticks.len() - 1]));
        }
    }
}

/// Once the headroom of recovery has lasted for the whole dwell without a break,
/// a constrained controller recovers: on that tick it leaves its constrained
/// mode.
pub proof fn lemma_dwell_ends_constraint<N: Scalar>(
    s: ControllerState<N>,
    ticks: Seq<EnvelopeTick<N>>,
)
    requires
        s.mode == Mode::Constrained,
        ticks.len() > 0,
        breaks_off(s, ticks.drop_last()),
        recovering(s.config, ticks.last()),
        !violated(ticks.last()),
        unbroken(s.config, s.dwell, ticks) >= s.config.hysteresis_dwell.nanos,
    ensures
        after(s, ticks).mode != Mode::Constrained,
{
    lemma_dwell_must_pass(s, ticks.drop_last());
    lemma_config_is_kept(s, ticks.drop_last());
}

proof fn lemma_config_is_kept<N: Scalar>(s: ControllerState<N>, ticks: Seq<EnvelopeTick<N>>)
    ensures
        after(s, ticks).config == s.config,
    decreases ticks.len(),
{
    if ticks.len() > 0 {
        lemma_config_is_kept(s, ticks.drop_last());
    }
}

} // verus!
