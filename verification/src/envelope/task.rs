//! One rebalance task for every distribute command, guarded by an envelope or
//! not: every tick splits the current setpoint afresh, within the envelope if
//! there is one, and writes to the children whose share has changed.

use crate::app;
use crate::app::substitute_site_id;
use crate::arithmetic;
use crate::asyncapi::trust::DeviceTrust;
use crate::asyncapi::types::{DistributeBinding, ProtocolBinding};
use crate::config::GatewayCredentials;
use crate::dispatch::allocation;
use crate::dispatch::distribute;
use crate::dispatch::distribute::{compute_shares, write_shares, SharesPlan};
use crate::envelope::control_law;
use crate::envelope::control_law::{
    ControllerState, EnvelopeConfig, EnvelopeController, EnvelopeTick,
};
use crate::modbus::client as modbus;
use crate::scalar;
use crate::scalar::Scalar;
use crate::span::Span;
use crate::string_map;
use crate::string_map::{get_nested, StringMap};
use crate::synthetic::cache;
use crate::synthetic::cache::InputCache;
use vstd::prelude::*;

verus! {

/// The envelope guard of a distribute binding. The topics may hold a site
/// placeholder.
pub struct EnvelopeGuardConfig<N> {
    /// Control-law parameters.
    pub control: EnvelopeConfig<N>,
    /// Lower power bound.
    pub power_min: N,
    /// Upper power bound.
    pub power_max: N,
    /// Topic of the import limit.
    pub import_limit_topic: String,
    /// Topic of the export limit.
    pub export_limit_topic: String,
    /// Topic of the active power.
    pub active_power_topic: String,
}

/// The dwell of a binding, as far as it is looked at, is a span of time.
pub open spec fn dwell_ok<N: Scalar>(d: DistributeBinding<N>) -> bool {
    d.ramp_rate_per_sec is Some && d.hysteresis_margin is Some ==> (d.hysteresis_dwell_secs matches
        Some(x) ==> x.to_nanos_spec() is Some)
}

/// Whether a binding has every field of a guard.
pub open spec fn is_guarded<N>(d: DistributeBinding<N>) -> bool {
    &&& d.ramp_rate_per_sec is Some
    &&& d.hysteresis_margin is Some
    &&& d.hysteresis_dwell_secs is Some
    &&& d.power_min is Some
    &&& d.power_max is Some
    &&& d.import_limit_topic is Some
    &&& d.export_limit_topic is Some
    &&& d.active_power_topic is Some
}

/// A guard holds the guard fields of a binding.
pub open spec fn guards<N: Scalar>(g: EnvelopeGuardConfig<N>, d: DistributeBinding<N>) -> bool {
    &&& d.ramp_rate_per_sec == Some(g.control.ramp_rate_per_sec)
    &&& d.hysteresis_margin == Some(g.control.hysteresis_margin)
    &&& d.hysteresis_dwell_secs matches Some(x)
    &&& x.to_nanos_spec() == Some(g.control.hysteresis_dwell.nanos as nat)
    &&& d.power_min == Some(g.power_min)
    &&& d.power_max == Some(g.power_max)
    &&& d.import_limit_topic == Some(g.import_limit_topic)
    &&& d.export_limit_topic == Some(g.export_limit_topic)
    &&& d.active_power_topic == Some(g.active_power_topic)
}

/// Whether the dwell of a binding is a span of time, as far as it is looked
/// at.
pub fn has_valid_dwell<N: Scalar>(d: &DistributeBinding<N>) -> (r: bool)
    ensures
        r == dwell_ok(*d),
{
    if d.ramp_rate_per_sec.is_none() || d.hysteresis_margin.is_none() {
        return true;
    }
    match d.hysteresis_dwell_secs {
        Some(x) => x.to_nanos().is_some(),
        None => true,
    }
}

/// The guard of a distribute binding; nothing where a guard field is missing.
pub fn envelope_guard_config<N: Scalar>(d: &DistributeBinding<N>) -> (r: Option<
    EnvelopeGuardConfig<N>,
>)
    requires
        dwell_ok(*d),
    ensures
        match r {
            Some(g) => guards(g, *d),
            None => !is_guarded(*d),
        },
{
    match (
        d.ramp_rate_per_sec,
        d.hysteresis_margin,
        d.hysteresis_dwell_secs,
        d.power_min,
        d.power_max,
    ) {
        (
            Some(ramp_rate_per_sec),
            Some(hysteresis_margin),
            Some(dwell),
            Some(power_min),
            Some(power_max),
        ) => match (&d.import_limit_topic, &d.export_limit_topic, &d.active_power_topic) {
            (Some(import_limit), Some(export_limit), Some(active_power)) => match dwell.to_nanos() {
                Some(nanos) => Some(
                    EnvelopeGuardConfig {
                        control: EnvelopeConfig {
                            ramp_rate_per_sec,
                            hysteresis_margin,
                            hysteresis_dwell: Span { nanos },
                        },
                        power_min,
                        power_max,
                        import_limit_topic: import_limit.clone(),
                        export_limit_topic: export_limit.clone(),
                        active_power_topic: active_power.clone(),
                    },
                ),
                None => None,
            },
            _ => None,
        },
        _ => None,
    }
}

/// One rebalance task.
pub struct EnvelopeTaskConfig<N> {
    /// The parent device.
    pub device_id: String,
    /// Key of the parent's command.
    pub channel_key: String,
    /// The envelope, if the task is guarded.
    pub guard: Option<EnvelopeGuardConfig<N>>,
    /// The distribute binding.
    pub binding: ProtocolBinding<N>,
    /// Tick rate in Hz.
    pub tick_hz: N,
}

/// The controller that a task starts with: one for a guarded task, which
/// believes the device to hold nothing.
pub fn initial_controller<N: Scalar>(cfg: &EnvelopeTaskConfig<N>) -> (r: Option<
    EnvelopeController<N>,
>)
    ensures
        match cfg.guard {
            None => r is None,
            Some(g) => {
                &&& r matches Some(c)
                &&& c@.mode == control_law::Mode::Normal
                &&& c@.dwell == 0
                &&& c@.output == scalar::zero::<N>()
                &&& c@.config == g.control
            },
        },
{
    match &cfg.guard {
        None => None,
        Some(g) => Some(EnvelopeController::new(g.control, N::from_u64(0))),
    }
}

/// The setpoint that was last asked for; none yet counts as zero.
pub open spec fn requested<N: Scalar>(
    cfg: EnvelopeTaskConfig<N>,
    last_requested: Map<Seq<char>, StringMap<N>>,
) -> N {
    match string_map::nested(last_requested, cfg.device_id@, cfg.channel_key@) {
        Some(v) => v,
        None => scalar::zero(),
    }
}

/// The inputs of the control law, once active power has been heard.
pub open spec fn law_input<N: Scalar>(
    g: EnvelopeGuardConfig<N>,
    requested_setpoint: N,
    dt: Span,
    site_id: Seq<char>,
    cache: Map<Seq<char>, u64>,
) -> Option<EnvelopeTick<N>> {
    match cache::reading::<N>(cache, app::site_topic(g.active_power_topic@, site_id)) {
        None => None,
        Some(active_power) => Some(
            EnvelopeTick {
                import_limit: cache::reading::<N>(
                    cache,
                    app::site_topic(g.import_limit_topic@, site_id),
                ),
                export_limit: cache::reading::<N>(
                    cache,
                    app::site_topic(g.export_limit_topic@, site_id),
                ),
                active_power,
                requested_setpoint,
                power_min: g.power_min,
                power_max: g.power_max,
                dt,
            },
        ),
    }
}

fn gather_law_input<N: Scalar>(
    g: &EnvelopeGuardConfig<N>,
    requested_setpoint: N,
    dt: Span,
    site_id: &str,
    cache: &InputCache,
) -> (r: Option<EnvelopeTick<N>>)
    ensures
        r == law_input(*g, requested_setpoint, dt, site_id@, cache@),
{
    let active_topic = substitute_site_id(g.active_power_topic.as_str(), site_id);
    match cache.get::<N>(active_topic.as_str()) {
        None => None,
        Some(active_power) => {
            let import_topic = substitute_site_id(g.import_limit_topic.as_str(), site_id);
            let export_topic = substitute_site_id(g.export_limit_topic.as_str(), site_id);
            Some(
                EnvelopeTick {
                    import_limit: cache.get::<N>(import_topic.as_str()),
                    export_limit: cache.get::<N>(export_topic.as_str()),
                    active_power,
                    requested_setpoint,
                    power_min: g.power_min,
                    power_max: g.power_max,
                    dt,
                },
            )
        },
    }
}

fn read_requested<N: Scalar>(
    cfg: &EnvelopeTaskConfig<N>,
    last_requested: &StringMap<StringMap<N>>,
) -> (r: N)
    ensures
        r == requested(*cfg, last_requested@),
{
    match get_nested(last_requested, cfg.device_id.as_str(), cfg.channel_key.as_str()) {
        Some(v) => *v,
        None => N::from_u64(0),
    }
}

/// The state of a controller, if there is one.
pub open spec fn state_of<N: Scalar>(c: Option<EnvelopeController<N>>) -> Option<
    ControllerState<N>,
> {
    match c {
        Some(x) => Some(x@),
        None => None,
    }
}

/// The setpoint of one tick, and the controller's state after it; nothing
/// while a guarded task has not heard of active power.
pub open spec fn tick_target<N: Scalar>(
    cfg: EnvelopeTaskConfig<N>,
    state: Option<ControllerState<N>>,
    dt: Span,
    site_id: Seq<char>,
    cache: Map<Seq<char>, u64>,
    last_requested: Map<Seq<char>, StringMap<N>>,
) -> (Option<N>, Option<ControllerState<N>>) {
    let asked = requested(cfg, last_requested);
    match (cfg.guard, state) {
        (Some(g), Some(s)) => match law_input(g, asked, dt, site_id, cache) {
            None => (None, state),
            Some(t) => {
                let after = control_law::next(s, t).0;
                (Some(after.output), Some(after))
            },
        },
        _ => (Some(asked), state),
    }
}

/// The control law can take the tick, if it has to.
pub open spec fn tick_ready<N: Scalar>(
    cfg: EnvelopeTaskConfig<N>,
    state: Option<ControllerState<N>>,
    dt: Span,
    site_id: Seq<char>,
    cache: Map<Seq<char>, u64>,
    last_requested: Map<Seq<char>, StringMap<N>>,
) -> bool {
    match (cfg.guard, state) {
        (Some(g), Some(s)) => match law_input(
            g,
            requested(cfg, last_requested),
            dt,
            site_id,
            cache,
        ) {
            None => true,
            Some(t) => control_law::ready(s, t),
        },
        _ => true,
    }
}

/// Whether a share differs from what was last written to its child.
pub open spec fn has_changed<N: Scalar>(share: (Seq<char>, N), written: Map<Seq<char>, N>) -> bool {
    !written.dom().contains(share.0) || N::epsilon_spec().at_most_spec(
        share.1.minus_spec(written[share.0]).magnitude_spec(),
    )
}

/// The shares that differ from what was last written, in order.
pub open spec fn changed_of<N: Scalar>(
    shares: Seq<(Seq<char>, N)>,
    written: Map<Seq<char>, N>,
) -> Seq<(Seq<char>, N)>
    decreases shares.len(),
{
    if shares.len() == 0 {
        Seq::empty()
    } else if has_changed(shares.last(), written) {
        changed_of(shares.drop_last(), written).push(shares.last())
    } else {
        changed_of(shares.drop_last(), written)
    }
}

/// Keep the shares that differ from what was last written.
pub fn changed_shares<N: Scalar>(shares: &[(String, N)], last_written: &StringMap<N>) -> (r: Vec<
    (String, N),
>)
    ensures
        allocation::shares_view(r@) == changed_of(
            allocation::shares_view(shares@),
            last_written@,
        ),
{
    let ghost view = allocation::shares_view(shares@);
    let mut r: Vec<(String, N)> = Vec::new();
    let mut i: usize = 0;
    while i < shares.len()
        invariant
            i <= shares@.len(),
            view == allocation::shares_view(shares@),
            allocation::shares_view(r@) == changed_of(view.take(i as int), last_written@),
        decreases shares@.len() - i,
    {
        assert(view.take(i + 1).drop_last() =~= view.take(i as int));
        let share: N = shares[i].1;
        let keep: bool = match last_written.get(shares[i].0.as_str()) {
            Some(prev) => N::epsilon().at_most(share.minus(*prev).magnitude()),
            None => true,
        };
        if keep {
            let ghost before = r@;
            r.push((shares[i].0.clone(), share));
            assert(allocation::shares_view(r@) =~= allocation::shares_view(before).push(
                view[i as int],
            ));
        }
        i = i + 1;
    }
    assert(view.take(i as int) =~= view);
    r
}

/// What was last written, after some shares have been written.
pub open spec fn recorded<N>(written: Map<Seq<char>, N>, shares: Seq<(Seq<char>, N)>) -> Map<
    Seq<char>,
    N,
>
    decreases shares.len(),
{
    if shares.len() == 0 {
        written
    } else {
        recorded(written, shares.drop_last()).insert(shares.last().0, shares.last().1)
    }
}

/// Remember shares that have been written.
pub fn record_written<N: Scalar>(last_written: &mut StringMap<N>, written: &[(String, N)])
    ensures
        final(last_written)@ == recorded(
            old(last_written)@,
            allocation::shares_view(written@),
        ),
{
    let ghost view = allocation::shares_view(written@);
    let mut i: usize = 0;
    assert(view.take(0) =~= Seq::empty());
    while i < written.len()
        invariant
            i <= written@.len(),
            view == allocation::shares_view(written@),
            last_written@ == recorded(old(last_written)@, view.take(i as int)),
        decreases written@.len() - i,
    {
        assert(view.take(i + 1).drop_last() =~= view.take(i as int));
        last_written.insert(written[i].0.clone(), written[i].1);
        i = i + 1;
    }
    assert(view.take(i as int) =~= view);
}

/// What one tick has to write.
pub struct Rebalance<N> {
    /// The shares that changed, to be remembered once all are written.
    pub changed: Vec<(String, N)>,
    /// Their writes.
    pub plan: SharesPlan,
}

/// What a tick writes for a setpoint.
pub open spec fn is_rebalance<N: Scalar>(
    r: Option<Rebalance<N>>,
    cfg: EnvelopeTaskConfig<N>,
    target: N,
    written: Map<Seq<char>, N>,
    site_id: Seq<char>,
    cache: Map<Seq<char>, u64>,
    channels: Map<Seq<char>, StringMap<ProtocolBinding<N>>>,
    trust: Map<Seq<char>, DeviceTrust>,
    creds: Option<GatewayCredentials>,
) -> bool {
    match cfg.binding {
        ProtocolBinding::Distribute(d) => match distribute::shares_of(d, target, site_id, cache) {
            Err(_) => r is None,
            Ok(shares) => {
                let changed = changed_of(shares, written);
                match r {
                    None => changed.len() == 0,
                    Some(x) => {
                        &&& changed.len() > 0
                        &&& allocation::shares_view(x.changed@) == changed
                        &&& distribute::plans_shares(
                            x.plan,
                            changed,
                            cfg.channel_key@,
                            channels,
                            trust,
                            creds,
                        )
                    },
                }
            },
        },
        _ => r is None,
    }
}

/// Whether a tick can be taken.
pub fn can_tick_once<N: Scalar>(
    cfg: &EnvelopeTaskConfig<N>,
    controller: &Option<EnvelopeController<N>>,
    dt: Span,
    site_id: &str,
    cache: &InputCache,
    last_requested: &StringMap<StringMap<N>>,
) -> (r: bool)
    ensures
        r == tick_ready(*cfg, state_of(*controller), dt, site_id@, cache@, last_requested@),
{
    match (&cfg.guard, controller) {
        (Some(g), Some(c)) => {
            let asked = read_requested(cfg, last_requested);
            match gather_law_input(g, asked, dt, site_id, cache) {
                None => true,
                Some(t) => c.can_tick(&t),
            }
        },
        _ => true,
    }
}

/// One tick: settle this tick's setpoint, split it afresh, and plan the writes
/// of the shares that changed. Nothing while inputs have not been heard.
pub fn tick_once<N: Scalar>(
    cfg: &EnvelopeTaskConfig<N>,
    controller: &mut Option<EnvelopeController<N>>,
    last_written: &StringMap<N>,
    dt: Span,
    site_id: &str,
    cache: &InputCache,
    last_requested: &StringMap<StringMap<N>>,
    device_channels: &StringMap<StringMap<ProtocolBinding<N>>>,
    device_trust: &StringMap<DeviceTrust>,
    creds: Option<&GatewayCredentials>,
) -> (r: Option<Rebalance<N>>)
    requires
        tick_ready(*cfg, state_of(*old(controller)), dt, site_id@, cache@, last_requested@),
    ensures
        ({
            let t = tick_target(
                *cfg,
                state_of(*old(controller)),
                dt,
                site_id@,
                cache@,
                last_requested@,
            );
            &&& state_of(*final(controller)) == t.1
            &&& match t.0 {
                None => r is None,
                Some(target) => is_rebalance(
                    r,
                    *cfg,
                    target,
                    last_written@,
                    site_id@,
                    cache@,
                    device_channels@,
                    device_trust@,
                    modbus::opt(creds),
                ),
            }
        }),
{
    let asked: N = read_requested(cfg, last_requested);
    let mut held: Option<EnvelopeController<N>> = None;
    std::mem::swap(&mut held, controller);
    let target: N = match (&cfg.guard, held) {
        (Some(g), Some(c)) => {
            let mut c = c;
            match gather_law_input(g, asked, dt, site_id, cache) {
                None => {
                    *controller = Some(c);
                    return None;
                },
                Some(t) => {
                    let _ = c.tick(t);
                    let output = c.current_output();
                    *controller = Some(c);
                    output
                },
            }
        },
        (_, other) => {
            *controller = other;
            asked
        },
    };
    match &cfg.binding {
        ProtocolBinding::Distribute(d) => {
            match compute_shares(d, target, site_id, cache) {
                Err(_) => None,
                Ok(shares) => {
                    let changed = changed_shares(shares.as_slice(), last_written);
                    assert(allocation::shares_view(changed@).len() == changed@.len());
                    if changed.len() == 0 {
                        return None;
                    }
                    let plan = write_shares(
                        changed.as_slice(),
                        cfg.channel_key.as_str(),
                        device_channels,
                        device_trust,
                        creds,
                    );
                    Some(Rebalance { changed, plan })
                },
            }
        },
        _ => None,
    }
}

/// What a child was last written is what was recorded for it last; children
/// that were not written keep what they had.
pub proof fn lemma_recorded_keeps_others<N>(
    written: Map<Seq<char>, N>,
    shares: Seq<(Seq<char>, N)>,
    id: Seq<char>,
)
    requires
        !allocation::is_given(shares, id),
    ensures
        recorded(written, shares).dom().contains(id) == written.dom().contains(id),
        written.dom().contains(id) ==> recorded(written, shares)[id] == written[id],
    decreases shares.len(),
{
    if shares.len() > 0 {
        let init = shares.drop_last();
        assert(shares[shares.len() - 1].0 != id);
        assert forall|i: int| 0 <= i < init.len() implies (#[trigger] init[i]).0 != id by {
            assert(shares[i].0 != id);
        }
        lemma_recorded_keeps_others(written, init, id);
    }
}

/// Nothing is written twice: where every share is within the smallest step of
/// what its child was last written, no share counts as changed.
pub proof fn lemma_unchanged_writes_nothing<N: Scalar>(
    shares: Seq<(Seq<char>, N)>,
    written: Map<Seq<char>, N>,
)
    requires
        forall|i: int| 0 <= i < shares.len() ==> !has_changed(#[trigger] shares[i], written),
    ensures
        changed_of(shares, written).len() == 0,
    decreases shares.len(),
{
    if shares.len() > 0 {
        let init = shares.drop_last();
        assert(!has_changed(shares[shares.len() - 1], written));
        assert forall|i: int| 0 <= i < init.len() implies !has_changed(
            #[trigger] init[i],
            written,
        ) by {
            assert(!has_changed(shares[i], written));
        }
        lemma_unchanged_writes_nothing(init, written);
    }
}

/// No two shares go to the same child.
pub open spec fn one_share_each<N>(shares: Seq<(Seq<char>, N)>) -> bool {
    forall|i: int, j: int|
        0 <= i < j < shares.len() ==> (#[trigger] shares[i]).0 != (#[trigger] shares[j]).0
}

proof fn lemma_changed_are_given<N: Scalar>(
    shares: Seq<(Seq<char>, N)>,
    written: Map<Seq<char>, N>,
    id: Seq<char>,
)
    requires
        allocation::is_given(changed_of(shares, written), id),
    ensures
        allocation::is_given(shares, id),
    decreases shares.len(),
{
    let changed = changed_of(shares, written);
    let i = choose|i: int| 0 <= i < changed.len() && (#[trigger] changed[i]).0 == id;
    let init = shares.drop_last();
    let before = changed_of(init, written);
    if i < before.len() {
        assert(before[i].0 == id);
        lemma_changed_are_given(init, written, id);
        let k = choose|k: int| 0 <= k < init.len() && (#[trigger] init[k]).0 == id;
        assert(shares[k].0 == id);
    } else {
        assert(shares[shares.len() - 1].0 == id);
    }
}

proof fn lemma_recorded_share<N: Scalar>(
    shares: Seq<(Seq<char>, N)>,
    written: Map<Seq<char>, N>,
    i: int,
)
    requires
        one_share_each(shares),
        0 <= i < shares.len(),
    ensures
        ({
            let after = recorded(written, changed_of(shares, written));
            let id = shares[i].0;
            if has_changed(shares[i], written) {
                after.dom().contains(id) && after[id] == shares[i].1
            } else {
                after.dom().contains(id) && after[id] == written[id]
            }
        }),
    decreases shares.len(),
{
    let init = shares.drop_last();
    let last = shares.last();
    let before = changed_of(init, written);
    assert forall|j: int, k: int| 0 <= j < k < init.len() implies (#[trigger] init[j]).0 != (
    #[trigger] init[k]).0 by {
        assert(shares[j].0 != shares[k].0);
    }
    if has_changed(last, written) {
        assert(changed_of(shares, written).drop_last() =~= before);
    }
    if i < init.len() {
        lemma_recorded_share(init, written, i);
        assert(shares[i].0 != shares[shares.len() - 1].0);
    } else if !has_changed(last, written) {
        if allocation::is_given(before, last.0) {
            lemma_changed_are_given(init, written, last.0);
            let k = choose|k: int| 0 <= k < init.len() && (#[trigger] init[k]).0 == last.0;
            assert(shares[k].0 != shares[shares.len() - 1].0);
        }
        lemma_recorded_keeps_others(written, before, last.0);
    }
}

/// A tick that comes to the same shares writes nothing: once the shares that
/// changed are written and remembered, none of them counts as changed. A share
/// that is not within the smallest step of itself is no finite number.
pub proof fn lemma_repeated_tick_writes_nothing<N: Scalar>(
    shares: Seq<(Seq<char>, N)>,
    written: Map<Seq<char>, N>,
)
    requires
        one_share_each(shares),
        forall|i: int|
            0 <= i < shares.len() ==> !N::epsilon_spec().at_most_spec(
                (#[trigger] shares[i]).1.minus_spec(shares[i].1).magnitude_spec(),
            ),
    ensures
        changed_of(shares, recorded(written, changed_of(shares, written))).len() == 0,
{
    let after = recorded(written, changed_of(shares, written));
    assert forall|i: int| 0 <= i < shares.len() implies !has_changed(
        #[trigger] shares[i],
        after,
    ) by {
        lemma_recorded_share(shares, written, i);
    }
    lemma_unchanged_writes_nothing(shares, after);
}

/// What occurs when shares are compared with what was last written counts.
pub open spec fn differences_count<N: Scalar>(
    counts: spec_fn(N) -> bool,
    shares: Seq<(Seq<char>, N)>,
    written: Map<Seq<char>, N>,
) -> bool {
    &&& counts(N::epsilon_spec())
    &&& forall|i: int|
        0 <= i < shares.len() && written.dom().contains((#[trigger] shares[i]).0) ==> {
            let prior = written[shares[i].0];
            &&& counts(shares[i].1) && counts(prior)
            &&& counts(shares[i].1.minus_spec(prior))
            &&& counts(shares[i].1.minus_spec(prior).magnitude_spec())
        }
}

/// A share is written if and only if its child was never written, or its number
/// differs from the one that its child was last written by at least the
/// smallest step, be it up or down. The order of the shares is kept.
pub proof fn lemma_differing_shares_are_kept<N: Scalar>(
    value: spec_fn(N) -> real,
    counts: spec_fn(N) -> bool,
    shares: Seq<(Seq<char>, N)>,
    written: Map<Seq<char>, N>,
)
    requires
        arithmetic::is_exact(value, counts),
        differences_count(counts, shares, written),
    ensures
        ({
            let changed = changed_of(shares, written);
            &&& changed == shares.filter(
                |s: (Seq<char>, N)|
                    !written.dom().contains(s.0) || value(N::epsilon_spec())
                        <= arithmetic::magnitude(value(s.1) - value(written[s.0])),
            )
            &&& forall|i: int|
                0 <= i < shares.len() ==> (changed.contains(#[trigger] shares[i]) <==> (
                !written.dom().contains(shares[i].0) || value(N::epsilon_spec())
                    <= arithmetic::magnitude(value(shares[i].1) - value(written[shares[i].0]))))
            &&& forall|k: int|
                0 <= k < changed.len() ==> shares.contains(#[trigger] changed[k])
        }),
    decreases shares.len(),
{
    let changed = changed_of(shares, written);
    let differs = |s: (Seq<char>, N)|
        !written.dom().contains(s.0) || value(N::epsilon_spec()) <= arithmetic::magnitude(
            value(s.1) - value(written[s.0]),
        );
    reveal(Seq::filter);
    if shares.len() > 0 {
        let init = shares.drop_last();
        let last = shares.last();
        let before = changed_of(init, written);
        assert forall|i: int|
            0 <= i < init.len() && written.dom().contains((#[trigger] init[i]).0) implies {
            let prior = written[init[i].0];
            &&& counts(init[i].1) && counts(prior)
            &&& counts(init[i].1.minus_spec(prior))
            &&& counts(init[i].1.minus_spec(prior).magnitude_spec())
        } by {
            assert(init[i] == shares[i]);
        }
        lemma_differing_shares_are_kept(value, counts, init, written);
        assert(last == shares[shares.len() - 1]);
        assert(has_changed(last, written) == differs(last));
        assert(changed == shares.filter(differs));
        assert forall|k: int| 0 <= k < changed.len() implies shares.contains(
            #[trigger] changed[k],
        ) && differs(changed[k]) by {
            if k < before.len() {
                assert(changed[k] == before[k]);
                let i = choose|i: int| 0 <= i < init.len() && init[i] == before[k];
                assert(shares[i] == changed[k]);
                assert(before.contains(init[i]));
                assert(differs(init[i]));
            } else {
                assert(shares[shares.len() - 1] == changed[k]);
            }
        }
        assert forall|i: int| 0 <= i < shares.len() implies (changed.contains(#[trigger] shares[i])
            <==> differs(shares[i])) by {
            if differs(shares[i]) {
                if i < init.len() {
                    assert(init[i] == shares[i]);
                    assert(before.contains(init[i]));
                    let k = choose|k: int| 0 <= k < before.len() && before[k] == init[i];
                    assert(changed[k] == shares[i]);
                } else {
                    assert(changed[changed.len() - 1] == shares[i]);
                }
            }
            if changed.contains(shares[i]) {
                let k = choose|k: int| 0 <= k < changed.len() && changed[k] == shares[i];
                assert(differs(changed[k]));
            }
        }
    } else {
        assert(changed =~= shares.filter(differs));
    }
}

/// No child is left behind: once the shares that changed are written and
/// remembered, every child was last written its share, or a number that differs
/// from it by less than the smallest step.
pub proof fn lemma_children_follow_their_shares<N: Scalar>(
    value: spec_fn(N) -> real,
    counts: spec_fn(N) -> bool,
    shares: Seq<(Seq<char>, N)>,
    written: Map<Seq<char>, N>,
)
    requires
        arithmetic::is_exact(value, counts),
        differences_count(counts, shares, written),
        forall|i: int, j: int|
            0 <= i < j < shares.len() ==> (#[trigger] shares[i]).0 != (#[trigger] shares[j]).0,
    ensures
        ({
            let after = recorded(written, changed_of(shares, written));
            &&& forall|i: int|
                0 <= i < shares.len() ==> {
                    let id = (#[trigger] shares[i]).0;
                    &&& after.dom().contains(id)
                    &&& after[id] == shares[i].1 || arithmetic::magnitude(
                        value(shares[i].1) - value(after[id]),
                    ) < value(N::epsilon_spec())
                }
            &&& forall|id: Seq<char>|
                (forall|i: int| 0 <= i < shares.len() ==> (#[trigger] shares[i]).0 != id) ==> (
                #[trigger] after.dom().contains(id)) == written.dom().contains(id) && (
                written.dom().contains(id) ==> after[id] == written[id])
        }),
{
    let changed = changed_of(shares, written);
    let after = recorded(written, changed);
    assert forall|i: int| 0 <= i < shares.len() implies {
        let id = (#[trigger] shares[i]).0;
        &&& after.dom().contains(id)
        &&& after[id] == shares[i].1 || arithmetic::magnitude(
            value(shares[i].1) - value(after[id]),
        ) < value(N::epsilon_spec())
    } by {
        lemma_recorded_share(shares, written, i);
    }
    assert forall|id: Seq<char>|
        (forall|i: int| 0 <= i < shares.len() ==> (#[trigger] shares[i]).0 != id) implies (
    #[trigger] after.dom().contains(id)) == written.dom().contains(id) && (written.dom().contains(
        id,
    ) ==> after[id] == written[id]) by {
        if allocation::is_given(changed, id) {
            lemma_changed_are_given(shares, written, id);
        }
        lemma_recorded_keeps_others(written, changed, id);
    }
}

pub(crate) proof fn lemma_changed_is_a_share<N: Scalar>(
    shares: Seq<(Seq<char>, N)>,
    written: Map<Seq<char>, N>,
    i: int,
) -> (j: int)
    requires
        0 <= i < changed_of(shares, written).len(),
    ensures
        0 <= j < shares.len(),
        shares[j] == changed_of(shares, written)[i],
    decreases shares.len(),
{
    let init = shares.drop_last();
    let before = changed_of(init, written);
    if i < before.len() {
        assert(changed_of(shares, written)[i] == before[i]);
        let j = lemma_changed_is_a_share(init, written, i);
        assert(init[j] == shares[j]);
        j
    } else {
        shares.len() - 1
    }
}

pub(crate) proof fn lemma_unwritten_is_kept<N: Scalar>(
    shares: Seq<(Seq<char>, N)>,
    written: Map<Seq<char>, N>,
    j: int,
)
    requires
        0 <= j < shares.len(),
        !written.dom().contains(shares[j].0),
    ensures
        exists|i: int|
            0 <= i < changed_of(shares, written).len() && #[trigger] changed_of(
                shares,
                written,
            )[i] == shares[j],
    decreases shares.len(),
{
    let init = shares.drop_last();
    let before = changed_of(init, written);
    let changed = changed_of(shares, written);
    if j < init.len() {
        assert(init[j] == shares[j]);
        lemma_unwritten_is_kept(init, written, j);
        let i = choose|i: int| 0 <= i < before.len() && #[trigger] before[i] == init[j];
        assert(changed[i] == shares[j]);
    } else {
        assert(changed[changed.len() - 1] == shares[j]);
    }
}

/// What a guarded binding says is what its control law goes by: the parameters,
/// both power bounds, and the numbers that were last heard on the topics of the
/// limits and of active power, each in its own place. A limit that was not heard
/// is none. Until active power is heard there is nothing to go by.
pub proof fn lemma_guard_feeds_the_law<N: Scalar>(
    g: EnvelopeGuardConfig<N>,
    d: DistributeBinding<N>,
    asked: N,
    dt: Span,
    site_id: Seq<char>,
    cache: Map<Seq<char>, u64>,
)
    requires
        guards(g, d),
    ensures
        ({
            let import_topic = app::site_topic(d.import_limit_topic->0@, site_id);
            let export_topic = app::site_topic(d.export_limit_topic->0@, site_id);
            let active_topic = app::site_topic(d.active_power_topic->0@, site_id);
            let input = law_input(g, asked, dt, site_id, cache);
            &&& is_guarded(d)
            &&& g.control.ramp_rate_per_sec == d.ramp_rate_per_sec->0
            &&& g.control.hysteresis_margin == d.hysteresis_margin->0
            &&& Some(g.control.hysteresis_dwell.nanos as nat) == (
            d.hysteresis_dwell_secs->0).to_nanos_spec()
            &&& input is Some <==> cache.dom().contains(active_topic)
            &&& input matches Some(t) ==> {
                &&& t.active_power == N::bits_spec(cache[active_topic])
                &&& t.import_limit == (if cache.dom().contains(import_topic) {
                    Some(N::bits_spec(cache[import_topic]))
                } else {
                    None
                })
                &&& t.export_limit == (if cache.dom().contains(export_topic) {
                    Some(N::bits_spec(cache[export_topic]))
                } else {
                    None
                })
                &&& t.power_min == d.power_min->0
                &&& t.power_max == d.power_max->0
                &&& t.requested_setpoint == asked
                &&& t.dt == dt
            }
        }),
{
}

/// A task without a guard splits the setpoint that was last asked for by its own
/// device and command, and zero while none was. A guarded one splits what its
/// control law puts out for that setpoint, and nothing while active power has not
/// been heard, when its controller stays as it is.
pub proof fn lemma_tick_follows_the_request<N: Scalar>(
    cfg: EnvelopeTaskConfig<N>,
    state: Option<ControllerState<N>>,
    dt: Span,
    site_id: Seq<char>,
    cache: Map<Seq<char>, u64>,
    last_requested: Map<Seq<char>, StringMap<N>>,
)
    ensures
        ({
            let known = last_requested.dom().contains(cfg.device_id@) && last_requested[
                cfg.device_id@
            ]@.dom().contains(cfg.channel_key@);
            let asked = if known {
                last_requested[cfg.device_id@]@[cfg.channel_key@]
            } else {
                N::int_spec(0)
            };
            let (target, after) = tick_target(cfg, state, dt, site_id, cache, last_requested);
            &&& cfg.guard is None ==> target == Some(asked) && after == state
            &&& (cfg.guard is Some && state is Some && !cache.dom().contains(
                app::site_topic(cfg.guard->0.active_power_topic@, site_id),
            )) ==> target is None && after == state
            &&& (cfg.guard is Some && state is Some && cache.dom().contains(
                app::site_topic(cfg.guard->0.active_power_topic@, site_id),
            )) ==> {
                let t = law_input(cfg.guard->0, asked, dt, site_id, cache);
                &&& t is Some && t->0.requested_setpoint == asked
                &&& after == Some(control_law::next(state->0, t->0).0)
                &&& target == Some(after->0.output)
            }
        }),
{
}

/// A dwell is only wrong where the rate and the margin of an envelope are there to look
/// at it, and it is one that denotes no span of time.
pub proof fn lemma_wrong_dwells<N: Scalar>(d: DistributeBinding<N>)
    ensures
        !dwell_ok(d) <==> d.ramp_rate_per_sec is Some && d.hysteresis_margin is Some
            && d.hysteresis_dwell_secs is Some && (d.hysteresis_dwell_secs->0).to_nanos_spec()
            is None,
{
}

/// What a tick writes of a split setpoint: every share that was never written, or whose
/// number differs by at least the smallest step from what its child was last written, in
/// order and no other; and nothing at all where there is no such share, or no split.
pub proof fn lemma_rebalance_writes_what_differs<N: Scalar>(
    value: spec_fn(N) -> real,
    counts: spec_fn(N) -> bool,
    r: Option<Rebalance<N>>,
    cfg: EnvelopeTaskConfig<N>,
    d: DistributeBinding<N>,
    target: N,
    written: Map<Seq<char>, N>,
    site_id: Seq<char>,
    cache: Map<Seq<char>, u64>,
    channels: Map<Seq<char>, StringMap<ProtocolBinding<N>>>,
    trust: Map<Seq<char>, DeviceTrust>,
    creds: Option<GatewayCredentials>,
)
    requires
        arithmetic::is_exact(value, counts),
        is_rebalance(r, cfg, target, written, site_id, cache, channels, trust, creds),
        cfg.binding == ProtocolBinding::Distribute(d),
        distribute::shares_of(d, target, site_id, cache) matches Ok(shares)
            ==> differences_count(counts, shares, written),
    ensures
        distribute::shares_of(d, target, site_id, cache) is Err ==> r is None,
        distribute::shares_of(d, target, site_id, cache) matches Ok(shares) ==> {
            let differing = shares.filter(
                |s: (Seq<char>, N)|
                    !written.dom().contains(s.0) || value(N::epsilon_spec())
                        <= arithmetic::magnitude(value(s.1) - value(written[s.0])),
            );
            &&& r is None <==> differing.len() == 0
            &&& r matches Some(x) ==> {
                &&& allocation::shares_view(x.changed@) == differing
                &&& x.plan.writes@.len() <= differing.len()
                &&& x.plan.failure is None ==> x.plan.writes@.len() == differing.len()
                &&& forall|i: int|
                    0 <= i < x.plan.writes@.len() ==> (#[trigger] x.plan.writes@[i]).device_id@
                        == differing[i].0
            }
        },
{
    if let Ok(shares) = distribute::shares_of(d, target, site_id, cache) {
        lemma_differing_shares_are_kept(value, counts, shares, written);
    }
}

pub(crate) proof fn lemma_all_unwritten_are_kept<N: Scalar>(shares: Seq<(Seq<char>, N)>)
    ensures
        changed_of(shares, Map::empty()) == shares,
    decreases shares.len(),
{
    if shares.len() > 0 {
        lemma_all_unwritten_are_kept(shares.drop_last());
        assert(shares.drop_last().push(shares.last()) =~= shares);
    } else {
        assert(changed_of(shares, Map::empty()) =~= shares);
    }
}

/// An unguarded task can take every tick, and so can a guarded one that has not heard of
/// active power; else the control law says which it can.
pub proof fn lemma_which_task_ticks_can_be_taken<N: Scalar>(
    cfg: EnvelopeTaskConfig<N>,
    state: Option<ControllerState<N>>,
    dt: Span,
    site_id: Seq<char>,
    cache: Map<Seq<char>, u64>,
    last_requested: Map<Seq<char>, StringMap<N>>,
)
    ensures
        ({
            let ready = tick_ready(cfg, state, dt, site_id, cache, last_requested);
            &&& cfg.guard is None || state is None ==> ready
            &&& (cfg.guard is Some && !cache.dom().contains(
                app::site_topic(cfg.guard->0.active_power_topic@, site_id),
            )) ==> ready
            &&& (cfg.guard is Some && state is Some && cache.dom().contains(
                app::site_topic(cfg.guard->0.active_power_topic@, site_id),
            )) ==> {
                let t = law_input(
                    cfg.guard->0,
                    requested(cfg, last_requested),
                    dt,
                    site_id,
                    cache,
                );
                t is Some && (ready <==> control_law::ready(state->0, t->0))
            }
        }),
{
}

/// A whole share is written if and only if its child was never written or was last
/// written another number, whatever the numbers are.
pub proof fn lemma_whole_shares_are_written_once(
    shares: Seq<(Seq<char>, i64)>,
    written: Map<Seq<char>, i64>,
)
    ensures
        changed_of(shares, written) == shares.filter(
            |s: (Seq<char>, i64)| !written.dom().contains(s.0) || s.1 != written[s.0],
        ),
    decreases shares.len(),
{
    let differs = |s: (Seq<char>, i64)| !written.dom().contains(s.0) || s.1 != written[s.0];
    reveal(Seq::filter);
    if shares.len() > 0 {
        lemma_whole_shares_are_written_once(shares.drop_last(), written);
        assert(has_changed(shares.last(), written) == differs(shares.last()));
        assert(changed_of(shares, written) =~= shares.filter(differs));
    } else {
        assert(changed_of(shares, written) =~= shares.filter(differs));
    }
}

} // verus!
