//! The gateway's life: boot, follow the topology, stop.
//!
//! The broker is connected and the topology beacon is subscribed before the
//! first document is fetched, so that no change between the two is missed. On
//! a beacon all tasks are stopped, a new document is fetched, and the tasks of
//! the document that is then current are spawned: the new one, or the one that
//! ran before where no new one came or it cannot be run. What is done outside
//! is asked for by an action, and what came of it is told by an event.

use crate::app;
use crate::app::{validate_allocation_policies, validate_trust_creds_alignment};
use crate::asyncapi::types::{AsyncApiSpec, ProtocolBinding};
use crate::config::GatewayCredentials;
use crate::duties;
use crate::scalar::Scalar;
use vstd::prelude::*;

verus! {

/// Where the gateway stands in its life.
#[derive(Debug, Clone, Copy, PartialEq, Eq, Structural)]
pub enum Phase {
    /// Nothing has been done.
    Idle,
    /// The broker is being connected.
    Connecting,
    /// The topology beacon is being subscribed.
    SubscribingBeacon,
    /// The first document is being fetched.
    Fetching,
    /// The inputs and the commands are being subscribed.
    SubscribingInputs,
    /// The tasks run.
    Running,
    /// The tasks are being stopped for a new document.
    Stopping,
    /// A new document is being fetched.
    Refetching,
    /// The tasks are being stopped for good.
    Draining,
    /// The broker is being disconnected.
    Disconnecting,
    /// Nothing more is done.
    Over,
}

/// What is asked for.
#[derive(Debug, Clone, Copy, PartialEq, Eq, Structural)]
pub enum RunAction {
    /// Connect the broker.
    Connect,
    /// Subscribe to the topology beacon.
    SubscribeBeacon,
    /// Fetch the document.
    Fetch,
    /// Subscribe to the current document's inputs and to the site's commands.
    SubscribeInputs,
    /// Put the dispatch lookups in force and spawn the tasks of the current
    /// document, then wait for a beacon or the end.
    Spawn,
    /// Cancel all tasks and join them.
    StopTasks,
    /// Disconnect the broker.
    Disconnect,
    /// End in order.
    Exit,
    /// End with the failure of what was asked for last.
    Fail,
    /// End because the first document cannot be run.
    Refuse,
    /// Do nothing: the event is none that was waited for.
    Ignore,
}

/// What happened.
pub enum RunEvent<N> {
    /// The gateway starts.
    Begin,
    /// What was asked for last is done.
    Done,
    /// What was asked for last failed.
    Failed,
    /// The document that was fetched.
    Fetched(AsyncApiSpec<N>),
    /// The topology has changed.
    Beacon,
    /// The gateway is to stop, or no more beacons can come.
    Stop,
}

/// The gateway's life so far.
pub struct RunState<N> {
    phase: Phase,
    creds: Option<GatewayCredentials>,
    current: Option<AsyncApiSpec<N>>,
    refused: Option<AsyncApiSpec<N>>,
}

/// What the gateway remembers of its life.
pub struct RunView<N> {
    /// Where it stands.
    pub phase: Phase,
    /// Credentials, if it has any.
    pub creds: Option<GatewayCredentials>,
    /// The document whose tasks run, if one was accepted.
    pub current: Option<AsyncApiSpec<N>>,
    /// A later document that could not be run, if one came.
    pub refused: Option<AsyncApiSpec<N>>,
}

impl<N> View for RunState<N> {
    type V = RunView<N>;

    closed spec fn view(&self) -> RunView<N> {
        RunView {
            phase: self.phase,
            creds: self.creds,
            current: self.current,
            refused: self.refused,
        }
    }
}

/// Whether every device of a document can be dialled as it asks to be.
pub open spec fn is_alignable<N>(
    document: AsyncApiSpec<N>,
    creds: Option<GatewayCredentials>,
) -> bool {
    app::is_aligned(document.x_device_trust@, creds)
}

/// Whether the gateway can start on a document: every device can be dialled as
/// it asks to be, and every allocation policy is known.
pub open spec fn is_bootable<N>(
    document: AsyncApiSpec<N>,
    creds: Option<GatewayCredentials>,
) -> bool {
    &&& is_alignable(document, creds)
    &&& app::first_unknown_policy(
        app::commands_of(document.x_command_source.entries()),
    ) is None
}

/// The document that the dispatch lookups are made of: the last that came.
pub open spec fn lookups_of<N>(s: RunView<N>) -> Option<AsyncApiSpec<N>> {
    match s.refused {
        Some(d) => Some(d),
        None => s.current,
    }
}

/// A gateway that has done nothing yet.
pub open spec fn initial<N>(creds: Option<GatewayCredentials>) -> RunView<N> {
    RunView { phase: Phase::Idle, creds, current: None, refused: None }
}

/// One step of the gateway's life.
pub open spec fn next_step<N>(s: RunView<N>, event: RunEvent<N>) -> (RunView<N>, RunAction) {
    match (s.phase, event) {
        (Phase::Idle, RunEvent::Begin) => (
            RunView { phase: Phase::Connecting, ..s },
            RunAction::Connect,
        ),
        (Phase::Connecting, RunEvent::Done) => (
            RunView { phase: Phase::SubscribingBeacon, ..s },
            RunAction::SubscribeBeacon,
        ),
        (Phase::SubscribingBeacon, RunEvent::Done) => (
            RunView { phase: Phase::Fetching, ..s },
            RunAction::Fetch,
        ),
        (Phase::Fetching, RunEvent::Fetched(d)) => if is_bootable(d, s.creds) {
            (
                RunView { phase: Phase::SubscribingInputs, current: Some(d), ..s },
                RunAction::SubscribeInputs,
            )
        } else {
            (RunView { phase: Phase::Over, refused: Some(d), ..s }, RunAction::Refuse)
        },
        (Phase::SubscribingInputs, RunEvent::Done) => (
            RunView { phase: Phase::Running, ..s },
            RunAction::Spawn,
        ),
        (Phase::Running, RunEvent::Beacon) => (
            RunView { phase: Phase::Stopping, ..s },
            RunAction::StopTasks,
        ),
        (Phase::Stopping, RunEvent::Done) => (
            RunView { phase: Phase::Refetching, ..s },
            RunAction::Fetch,
        ),
        (Phase::Refetching, RunEvent::Fetched(d)) => if is_alignable(d, s.creds) {
            (
                RunView { phase: Phase::Running, current: Some(d), refused: None, ..s },
                RunAction::Spawn,
            )
        } else {
            (RunView { phase: Phase::Running, refused: Some(d), ..s }, RunAction::Spawn)
        },
        (Phase::Refetching, RunEvent::Failed) => (
            RunView { phase: Phase::Running, ..s },
            RunAction::Spawn,
        ),
        (Phase::Running, RunEvent::Stop) => (
            RunView { phase: Phase::Draining, ..s },
            RunAction::StopTasks,
        ),
        (Phase::Draining, RunEvent::Done) => (
            RunView { phase: Phase::Disconnecting, ..s },
            RunAction::Disconnect,
        ),
        (Phase::Disconnecting, RunEvent::Done) => (
            RunView { phase: Phase::Over, ..s },
            RunAction::Exit,
        ),
        (Phase::Connecting, RunEvent::Failed)
        | (Phase::SubscribingBeacon, RunEvent::Failed)
        | (Phase::Fetching, RunEvent::Failed)
        | (Phase::SubscribingInputs, RunEvent::Failed)
        | (Phase::Disconnecting, RunEvent::Failed) => (
            RunView { phase: Phase::Over, ..s },
            RunAction::Fail,
        ),
        _ => (s, RunAction::Ignore),
    }
}

impl<N: Scalar> RunState<N> {
    /// A gateway that has done nothing yet.
    pub fn new(creds: Option<GatewayCredentials>) -> (r: Self)
        ensures
            r@ == initial::<N>(creds),
    {
        RunState { phase: Phase::Idle, creds, current: None, refused: None }
    }

    /// The document whose tasks run, if one was accepted.
    pub fn current(&self) -> (r: Option<&AsyncApiSpec<N>>)
        ensures
            match r {
                Some(d) => self@.current == Some(*d),
                None => self@.current is None,
            },
    {
        self.current.as_ref()
    }

    /// The document that the dispatch lookups are made of, if one came.
    pub fn lookups(&self) -> (r: Option<&AsyncApiSpec<N>>)
        ensures
            match r {
                Some(d) => lookups_of(self@) == Some(*d),
                None => lookups_of(self@) is None,
            },
    {
        match &self.refused {
            Some(d) => Some(d),
            None => self.current.as_ref(),
        }
    }

    fn can_dial(&self, document: &AsyncApiSpec<N>) -> (r: bool)
        ensures
            r == is_alignable(*document, self@.creds),
    {
        match validate_trust_creds_alignment(document, self.creds.as_ref()) {
            Ok(_) => true,
            Err(_) => false,
        }
    }

    fn can_boot(&self, document: &AsyncApiSpec<N>) -> (r: bool)
        ensures
            r == is_bootable(*document, self@.creds),
    {
        if !self.can_dial(document) {
            return false;
        }
        match validate_allocation_policies(document) {
            Ok(_) => true,
            Err(_) => false,
        }
    }

    fn advance(&mut self, phase: Phase, action: RunAction) -> (r: RunAction)
        ensures
            final(self)@ == (RunView { phase, ..old(self)@ }),
            r == action,
    {
        self.phase = phase;
        action
    }
}

/// Take one step of the gateway's life: what happened leads to what is asked
/// for next.
pub fn step<N: Scalar>(state: &mut RunState<N>, event: RunEvent<N>) -> (r: RunAction)
    ensures
        (final(state)@, r) == next_step(old(state)@, event),
{
    match (state.phase, event) {
        (Phase::Idle, RunEvent::Begin) => state.advance(Phase::Connecting, RunAction::Connect),
        (Phase::Connecting, RunEvent::Done) => state.advance(
            Phase::SubscribingBeacon,
            RunAction::SubscribeBeacon,
        ),
        (Phase::SubscribingBeacon, RunEvent::Done) => state.advance(
            Phase::Fetching,
            RunAction::Fetch,
        ),
        (Phase::Fetching, RunEvent::Fetched(d)) => {
            if state.can_boot(&d) {
                state.current = Some(d);
                state.advance(Phase::SubscribingInputs, RunAction::SubscribeInputs)
            } else {
                state.refused = Some(d);
                state.advance(Phase::Over, RunAction::Refuse)
            }
        },
        (Phase::SubscribingInputs, RunEvent::Done) => state.advance(
            Phase::Running,
            RunAction::Spawn,
        ),
        (Phase::Running, RunEvent::Beacon) => state.advance(
            Phase::Stopping,
            RunAction::StopTasks,
        ),
        (Phase::Stopping, RunEvent::Done) => state.advance(Phase::Refetching, RunAction::Fetch),
        (Phase::Refetching, RunEvent::Fetched(d)) => {
            if state.can_dial(&d) {
                state.current = Some(d);
                state.refused = None;
            } else {
                state.refused = Some(d);
            }
            state.advance(Phase::Running, RunAction::Spawn)
        },
        (Phase::Refetching, RunEvent::Failed) => state.advance(Phase::Running, RunAction::Spawn),
        (Phase::Running, RunEvent::Stop) => state.advance(Phase::Draining, RunAction::StopTasks),
        (Phase::Draining, RunEvent::Done) => state.advance(
            Phase::Disconnecting,
            RunAction::Disconnect,
        ),
        (Phase::Disconnecting, RunEvent::Done) => state.advance(Phase::Over, RunAction::Exit),
        (Phase::Connecting, RunEvent::Failed)
        | (Phase::SubscribingBeacon, RunEvent::Failed)
        | (Phase::Fetching, RunEvent::Failed)
        | (Phase::SubscribingInputs, RunEvent::Failed)
        | (Phase::Disconnecting, RunEvent::Failed) => state.advance(Phase::Over, RunAction::Fail),
        _ => RunAction::Ignore,
    }
}

// ---------------------------------------------------------------------
// Laws
// ---------------------------------------------------------------------

/// Where a run of events leads from the start.
pub open spec fn reached<N>(
    creds: Option<GatewayCredentials>,
    events: Seq<RunEvent<N>>,
) -> RunView<N>
    decreases events.len(),
{
    if events.len() == 0 {
        initial(creds)
    } else {
        next_step(reached(creds, events.drop_last()), events.last()).0
    }
}

/// What the last event of a run leads to.
pub open spec fn asked<N>(
    creds: Option<GatewayCredentials>,
    events: Seq<RunEvent<N>>,
) -> RunAction {
    next_step(reached(creds, events.drop_last()), events.last()).1
}

/// What was asked for last over a run of events, and so what a following
/// `Done` is the answer to.
pub open spec fn asked_last<N>(
    creds: Option<GatewayCredentials>,
    events: Seq<RunEvent<N>>,
) -> RunAction
    decreases events.len(),
{
    if events.len() == 0 {
        RunAction::Ignore
    } else if asked(creds, events) == RunAction::Ignore {
        asked_last(creds, events.drop_last())
    } else {
        asked(creds, events)
    }
}

/// Whether the last event of a run says that an action is done.
pub open spec fn is_done<N>(
    creds: Option<GatewayCredentials>,
    events: Seq<RunEvent<N>>,
    action: RunAction,
) -> bool {
    events.last() is Done && asked_last(creds, events.drop_last()) == action
}

/// Whether the beacon was subscribed over a run of events.
pub open spec fn is_listening<N>(
    creds: Option<GatewayCredentials>,
    events: Seq<RunEvent<N>>,
) -> bool
    decreases events.len(),
{
    events.len() > 0 && (is_done(creds, events, RunAction::SubscribeBeacon) || is_listening(
        creds,
        events.drop_last(),
    ))
}

/// Whether tasks are left at the end of a run of events: some were spawned and
/// have not been joined since.
pub open spec fn has_tasks<N>(
    creds: Option<GatewayCredentials>,
    events: Seq<RunEvent<N>>,
) -> bool
    decreases events.len(),
{
    if events.len() == 0 {
        false
    } else if asked(creds, events) == RunAction::Spawn {
        true
    } else if is_done(creds, events, RunAction::StopTasks) {
        false
    } else {
        has_tasks(creds, events.drop_last())
    }
}

/// What a phase waits for.
spec fn awaited(phase: Phase) -> RunAction {
    match phase {
        Phase::Idle => RunAction::Ignore,
        Phase::Connecting => RunAction::Connect,
        Phase::SubscribingBeacon => RunAction::SubscribeBeacon,
        Phase::Fetching => RunAction::Fetch,
        Phase::SubscribingInputs => RunAction::SubscribeInputs,
        Phase::Running => RunAction::Spawn,
        Phase::Stopping => RunAction::StopTasks,
        Phase::Refetching => RunAction::Fetch,
        Phase::Draining => RunAction::StopTasks,
        Phase::Disconnecting => RunAction::Disconnect,
        Phase::Over => RunAction::Exit,
    }
}

spec fn is_late(phase: Phase) -> bool {
    phase != Phase::Idle && phase != Phase::Connecting && phase != Phase::SubscribingBeacon
        && phase != Phase::Over
}

spec fn runs_tasks(phase: Phase) -> bool {
    phase == Phase::Running || phase == Phase::Stopping || phase == Phase::Draining
}

/// What the phase says of the run that led to it.
proof fn lemma_phase_tells<N>(creds: Option<GatewayCredentials>, events: Seq<RunEvent<N>>)
    ensures
        ({
            let s = reached(creds, events);
            &&& s.creds == creds
            &&& s.phase != Phase::Over ==> asked_last(creds, events) == awaited(s.phase)
            &&& is_late(s.phase) ==> is_listening(creds, events)
            &&& has_tasks(creds, events) == runs_tasks(s.phase)
            &&& s.current matches Some(d) ==> is_alignable(d, creds)
            &&& is_late(s.phase) && s.phase != Phase::Fetching ==> s.current is Some
        }),
    decreases events.len(),
{
    if events.len() > 0 {
        lemma_phase_tells(creds, events.drop_last());
    }
}

/// No topology change is missed at boot: whenever a document is fetched, the
/// beacon has been subscribed before.
pub proof fn lemma_beacon_before_fetch<N>(
    creds: Option<GatewayCredentials>,
    events: Seq<RunEvent<N>>,
)
    requires
        events.len() > 0,
        asked(creds, events) == RunAction::Fetch,
    ensures
        is_listening(creds, events),
{
    lemma_phase_tells(creds, events);
    lemma_phase_tells(creds, events.drop_last());
}

/// Every task is joined before a new document is fetched and before the broker
/// is disconnected.
pub proof fn lemma_tasks_joined_first<N>(
    creds: Option<GatewayCredentials>,
    events: Seq<RunEvent<N>>,
)
    requires
        events.len() > 0,
        asked(creds, events) == RunAction::Fetch || asked(creds, events) == RunAction::Disconnect
            || asked(creds, events) == RunAction::Exit,
    ensures
        !has_tasks(creds, events),
{
    lemma_phase_tells(creds, events);
    lemma_phase_tells(creds, events.drop_last());
}

/// Tasks are spawned only when none are left from before, and only of an
/// accepted document whose devices can all be dialled as they ask to be.
pub proof fn lemma_spawns_from_nothing<N>(
    creds: Option<GatewayCredentials>,
    events: Seq<RunEvent<N>>,
)
    requires
        events.len() > 0,
        asked(creds, events) == RunAction::Spawn,
    ensures
        !has_tasks(creds, events.drop_last()),
        reached(creds, events).current matches Some(d) && is_alignable(d, creds),
{
    lemma_phase_tells(creds, events);
    lemma_phase_tells(creds, events.drop_last());
}

/// A refresh that fails, or brings a document that cannot be run, keeps the
/// current document and spawns its tasks again.
pub proof fn lemma_failed_refresh_keeps_current<N>(s: RunView<N>, event: RunEvent<N>)
    requires
        s.phase == Phase::Refetching,
        event is Failed || (event matches RunEvent::Fetched(d) && !is_alignable(d, s.creds)),
    ensures
        next_step(s, event).1 == RunAction::Spawn,
        next_step(s, event).0.current == s.current,
{
}

/// A refresh that brings a document that can be run makes it the current one,
/// for the tasks and for the dispatch lookups.
pub proof fn lemma_refresh_adopts<N>(s: RunView<N>, document: AsyncApiSpec<N>)
    requires
        s.phase == Phase::Refetching,
        is_alignable(document, s.creds),
    ensures
        ({
            let (after, action) = next_step(s, RunEvent::Fetched(document));
            &&& action == RunAction::Spawn
            &&& after.current == Some(document)
            &&& lookups_of(after) == Some(document)
        }),
{
}

/// The current document changes by nothing but a document that was fetched and
/// can be run.
pub proof fn lemma_current_changes_by_adoption<N>(s: RunView<N>, event: RunEvent<N>)
    ensures
        next_step(s, event).0.current != s.current ==> (event matches RunEvent::Fetched(d)
            && is_alignable(d, s.creds) && next_step(s, event).0.current == Some(d)),
{
}

/// The gateway comes up in its boot order when nothing fails and its first
/// document can be run.
pub proof fn lemma_boot_order<N>(
    creds: Option<GatewayCredentials>,
    document: AsyncApiSpec<N>,
)
    requires
        is_bootable(document, creds),
    ensures
        ({
            let a = next_step(initial(creds), RunEvent::<N>::Begin);
            let b = next_step(a.0, RunEvent::Done);
            let c = next_step(b.0, RunEvent::Done);
            let d = next_step(c.0, RunEvent::Fetched(document));
            let e = next_step(d.0, RunEvent::Done);
            &&& a.1 == RunAction::Connect
            &&& b.1 == RunAction::SubscribeBeacon
            &&& c.1 == RunAction::Fetch
            &&& d.1 == RunAction::SubscribeInputs
            &&& e.1 == RunAction::Spawn
            &&& e.0.current == Some(document)
        }),
{
}

/// The gateway starts on a document if every device can be dialled as it asks to be, that
/// is if the gateway has credentials or no device asks for mutual TLS, and if every
/// distributed command names a policy that there is.
pub proof fn lemma_bootable_documents<N>(
    document: AsyncApiSpec<N>,
    creds: Option<GatewayCredentials>,
)
    ensures
        is_alignable(document, creds) <==> creds is Some || forall|d: Seq<char>|
            document.x_device_trust@.dom().contains(d) ==> !(#[trigger] document.x_device_trust@[d]
                is TlsMutual),
        is_bootable(document, creds) ==> is_alignable(document, creds),
        is_bootable(document, creds) ==> forall|i: int|
            0 <= i < app::commands_of(document.x_command_source.entries()).len() ==> ((
            #[trigger] app::commands_of(
                document.x_command_source.entries(),
            )[i]).source.binding matches ProtocolBinding::Distribute(d) ==> d.allocation_policy@
                == "equal_split"@ || d.allocation_policy@ == "soc_weighted"@),
{
    duties::lemma_policies_are_known(app::commands_of(document.x_command_source.entries()));
    if creds is None {
        if forall|d: Seq<char>|
            document.x_device_trust@.dom().contains(d) ==> !(#[trigger] document.x_device_trust@[d]
                is TlsMutual) {
            assert forall|d: Seq<char>| #[trigger]
                document.x_device_trust@.dom().contains(d) implies !(document.x_device_trust@[d]
                is TlsMutual) by {}
        }
    }
}

/// A first document that cannot be run ends the gateway, and so does whatever fails on the
/// way up; but no document that comes later does.
pub proof fn lemma_only_boot_can_fail<N>(s: RunView<N>, document: AsyncApiSpec<N>)
    ensures
        s.phase == Phase::Fetching && !is_bootable(document, s.creds) ==> next_step(
            s,
            RunEvent::Fetched(document),
        ).1 == RunAction::Refuse && next_step(s, RunEvent::Fetched(document)).0.phase
            == Phase::Over,
        s.phase == Phase::Connecting || s.phase == Phase::SubscribingBeacon || s.phase
            == Phase::Fetching || s.phase == Phase::SubscribingInputs ==> next_step(
            s,
            RunEvent::Failed,
        ).1 == RunAction::Fail && next_step(s, RunEvent::Failed).0.phase == Phase::Over,
        s.phase == Phase::Refetching ==> next_step(s, RunEvent::Fetched(document)).0.phase
            == Phase::Running && next_step(s, RunEvent::Failed).0.phase == Phase::Running,
{
}

/// A beacon stops the tasks and fetches anew; an order to stop stops the tasks,
/// disconnects and ends. While the tasks run nothing else does anything.
pub proof fn lemma_orders_of_refresh_and_stop<N>(s: RunView<N>, event: RunEvent<N>)
    requires
        s.phase == Phase::Running,
    ensures
        ({
            let a = next_step(s, RunEvent::Beacon);
            let b = next_step(a.0, RunEvent::Done);
            let c = next_step(s, RunEvent::Stop);
            let d = next_step(c.0, RunEvent::Done);
            let e = next_step(d.0, RunEvent::Done);
            &&& a.1 == RunAction::StopTasks
            &&& b.1 == RunAction::Fetch
            &&& b.0.current == s.current
            &&& c.1 == RunAction::StopTasks
            &&& d.1 == RunAction::Disconnect
            &&& e.1 == RunAction::Exit
            &&& e.0.phase == Phase::Over
        }),
        !(event is Beacon) && !(event is Stop) ==> next_step(s, event) == (s, RunAction::Ignore),
{
}

/// Once it is over, nothing starts the gateway again.
pub proof fn lemma_over_is_over<N>(s: RunView<N>, event: RunEvent<N>)
    requires
        s.phase == Phase::Over,
    ensures
        next_step(s, event) == (s, RunAction::Ignore),
{
}

/// Dispatch goes by the last document that came, tasks by the last that could be run: a
/// later document that cannot be run changes the one and not the other.
pub proof fn lemma_refused_document_is_looked_up<N>(s: RunView<N>, document: AsyncApiSpec<N>)
    requires
        s.phase == Phase::Refetching,
        !is_alignable(document, s.creds),
    ensures
        lookups_of(next_step(s, RunEvent::Fetched(document)).0) == Some(document),
        next_step(s, RunEvent::Fetched(document)).0.current == s.current,
        next_step(s, RunEvent::<N>::Failed).0 == (RunView { phase: Phase::Running, ..s }),
{
}

} // verus!
