//! The writes of a setpoint while they are carried out.

use crate::dispatch::distribute;
use crate::dispatch::distribute::child_write_failure;
use crate::dispatch::SetpointPlan;
use crate::error::GatewayError;
use crate::modbus::client::WritePlan;
use vstd::prelude::*;

verus! {

/// The writes of a plan, in order. A setpoint that could not be planned has
/// none.
pub open spec fn writes_of(plan: Result<SetpointPlan, GatewayError>) -> Seq<WritePlan> {
    match plan {
        Err(_) => Seq::empty(),
        Ok(SetpointPlan::Write(w)) => seq![w],
        Ok(SetpointPlan::Shares(s)) => Seq::new(s.writes@.len(), |i: int| s.writes@[i].plan),
    }
}

/// A planned setpoint, and how far its writes have come. They are carried out
/// one at a time, in order, up to the first that fails. What was written
/// before it stays written.
#[derive(Debug)]
pub struct Work {
    plan: Result<SetpointPlan, GatewayError>,
    written: usize,
    failed: Option<GatewayError>,
}

impl Work {
    /// What was planned, or why nothing was.
    pub closed spec fn plan(self) -> Result<SetpointPlan, GatewayError> {
        self.plan
    }

    /// How many writes have succeeded.
    pub closed spec fn written(self) -> nat {
        self.written as nat
    }

    /// The error of the write after those, if it failed.
    pub closed spec fn failed(self) -> Option<GatewayError> {
        self.failed
    }

    /// Whether a write is left to carry out.
    pub open spec fn is_due(self) -> bool {
        self.failed() is None && self.written() < writes_of(self.plan()).len()
    }

    #[verifier::type_invariant]
    spec fn in_bounds(self) -> bool {
        &&& self.written <= writes_of(self.plan).len()
        &&& self.failed is Some ==> self.written < writes_of(self.plan).len()
    }

    /// Before the first write.
    pub fn begin(plan: Result<SetpointPlan, GatewayError>) -> (r: Work)
        ensures
            r.plan() == plan,
            r.written() == 0,
            r.failed() is None,
    {
        Work { plan, written: 0, failed: None }
    }

    fn count(&self) -> (r: usize)
        ensures
            r == writes_of(self.plan).len(),
    {
        match &self.plan {
            Err(_) => 0,
            Ok(SetpointPlan::Write(_)) => 1,
            Ok(SetpointPlan::Shares(s)) => s.writes.len(),
        }
    }

    /// The write to carry out next, if there is one.
    pub fn due(&self) -> (r: Option<&WritePlan>)
        ensures
            match r {
                Some(w) => self.is_due() && *w == writes_of(self.plan())[self.written() as int],
                None => !self.is_due(),
            },
    {
        if self.failed.is_some() {
            return None;
        }
        match &self.plan {
            Err(_) => None,
            Ok(SetpointPlan::Write(w)) => if self.written == 0 {
                Some(w)
            } else {
                None
            },
            Ok(SetpointPlan::Shares(s)) => if self.written < s.writes.len() {
                Some(&s.writes[self.written].plan)
            } else {
                None
            },
        }
    }

    /// Note what came of the write that was due. Where none was, nothing
    /// changes.
    pub fn note(&mut self, outcome: Result<(), GatewayError>)
        ensures
            final(self).plan() == old(self).plan(),
            !old(self).is_due() ==> *final(self) == *old(self),
            old(self).is_due() ==> match outcome {
                Ok(_) => final(self).written() == old(self).written() + 1 && final(self).failed()
                    is None,
                Err(e) => final(self).written() == old(self).written() && final(self).failed()
                    == Some(e),
            },
    {
        if self.failed.is_none() && self.written < self.count() {
            match outcome {
                Ok(_) => {
                    self.written = self.written + 1;
                },
                Err(e) => {
                    self.failed = Some(e);
                },
            }
        }
    }

    /// How the setpoint ended, once no write is due. It succeeded if it was
    /// planned to the end and every write succeeded.
    pub fn conclude(self) -> (r: Result<(), GatewayError>)
        requires
            !self.is_due(),
        ensures
            match self.plan() {
                Err(e) => r == Err::<(), _>(e),
                Ok(SetpointPlan::Write(_)) => match self.failed() {
                    Some(e) => r == Err::<(), _>(e),
                    None => r is Ok,
                },
                Ok(SetpointPlan::Shares(s)) => match self.failed() {
                    Some(_) => r matches Err(e) && e.message@ == distribute::write_failed(
                        s.writes@[self.written() as int].device_id@,
                    ),
                    None => match s.failure {
                        Some(e) => r == Err::<(), _>(e),
                        None => r is Ok,
                    },
                },
            },
            r is Ok ==> self.written() == writes_of(self.plan()).len(),
    {
        proof {
            use_type_invariant(&self);
        }
        match self.plan {
            Err(e) => Err(e),
            Ok(SetpointPlan::Write(_)) => match self.failed {
                Some(e) => Err(e),
                None => Ok(()),
            },
            Ok(SetpointPlan::Shares(s)) => match self.failed {
                Some(_) => Err(child_write_failure(s.writes[self.written].device_id.as_str())),
                None => match s.failure {
                    Some(e) => Err(e),
                    None => Ok(()),
                },
            },
        }
    }
}

/// The writes of a plan are the planned ones, each once and in order: the one write
/// of a command, or one for every child.
pub proof fn lemma_writes_are_the_planned_ones(plan: Result<SetpointPlan, GatewayError>)
    ensures
        plan is Err ==> writes_of(plan).len() == 0,
        plan matches Ok(SetpointPlan::Write(w)) ==> writes_of(plan).len() == 1 && writes_of(plan)[0]
            == w,
        plan matches Ok(SetpointPlan::Shares(s)) ==> {
            &&& writes_of(plan).len() == s.writes@.len()
            &&& forall|i: int|
                0 <= i < s.writes@.len() ==> (#[trigger] s.writes@[i]).plan == writes_of(plan)[i]
        },
{
}

} // verus!
