//! The shutdown coordinator: a crawl stops on the first of an external
//! interrupt or a fixed idle timeout, checkpoints, announces why, and exits.

use vstd::prelude::*;

verus! {

/// Which of the two racing triggers fired first.
#[derive(Clone, Copy, PartialEq, Eq, Structural, Debug)]
pub enum ShutdownReason {
    /// An external interrupt signal arrived.
    Interrupted,
    /// The fixed idle timer elapsed with no interrupt.
    TimedOut,
}

/// Where the coordinator stands.
#[derive(Clone, Copy, PartialEq, Eq, Structural, Debug)]
pub enum ShutdownPhase {
    /// The crawl runs; no trigger has fired.
    Running,
    /// A trigger fired; the checkpoint is being written.
    ShuttingDown,
    /// The checkpoint is written and the process halts. Terminal.
    Exited,
}

/// The coordinator: phase plus the reason recorded by the winning trigger.
pub struct ShutdownCoordinator {
    pub phase: ShutdownPhase,
    pub reason: Option<ShutdownReason>,
}

impl ShutdownCoordinator {
    /// A reason is recorded exactly from the moment a trigger wins.
    pub open spec fn wf(&self) -> bool {
        (self.phase is Running) <==> (self.reason is None)
    }

    /// A coordinator for a crawl that is starting.
    pub fn start() -> (r: ShutdownCoordinator)
        ensures
            r.phase is Running,
            r.reason is None,
            r.wf(),
    {
        ShutdownCoordinator { phase: ShutdownPhase::Running, reason: None }
    }

    /// A trigger fires: the first one wins and records its reason; a later
    /// one changes nothing.
    pub fn trigger(&mut self, reason: ShutdownReason)
        requires
            old(self).wf(),
        ensures
            final(self).wf(),
            old(self).phase is Running ==> final(self).phase is ShuttingDown
                && final(self).reason == Some(reason),
            !(old(self).phase is Running) ==> final(self).phase == old(self).phase
                && final(self).reason == old(self).reason,
    {
        match self.phase {
            ShutdownPhase::Running => {
                self.phase = ShutdownPhase::ShuttingDown;
                self.reason = Some(reason);
            },
            _ => {},
        }
    }

    /// The checkpoint is on disk: leave the shutting-down phase for the
    /// terminal one. In any other phase nothing changes.
    pub fn finish(&mut self)
        requires
            old(self).wf(),
        ensures
            final(self).wf(),
            old(self).phase is ShuttingDown ==> final(self).phase is Exited,
            !(old(self).phase is ShuttingDown) ==> final(self).phase == old(self).phase,
            final(self).reason == old(self).reason,
    {
        match self.phase {
            ShutdownPhase::ShuttingDown => {
                self.phase = ShutdownPhase::Exited;
            },
            _ => {},
        }
    }

    /// The termination line to print, one per reason.
    pub fn termination_message(&self) -> (r: String)
        requires
            self.reason is Some,
        ensures
            self.reason == Some(ShutdownReason::Interrupted) ==> r@
                == "Received Ctrl-C, Exit successfully"@,
            self.reason == Some(ShutdownReason::TimedOut) ==> r@ == "Exiting.."@,
    {
        match self.reason {
            Some(ShutdownReason::Interrupted) => String::from_str(
                "Received Ctrl-C, Exit successfully",
            ),
            _ => String::from_str("Exiting.."),
        }
    }
}

} // verus!
