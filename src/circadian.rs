//! Phases of the circadian duty cycle that gates background work.
use vstd::prelude::*;

verus! {

/// Phase states in the circadian cycle.
#[derive(Clone, Copy, Debug, PartialEq, Eq, Hash, Structural)]
pub enum CircadianPhase {
    /// Active phase: high compute, fast learning.
    Active,
    /// Transition: winding down, consolidation permitted.
    Dusk,
    /// Rest phase: minimal compute, background consolidation only.
    Rest,
    /// Transition: warming up, preparing for activity.
    Dawn,
}

impl CircadianPhase {
    /// Whether learning and writes are permitted: in the active phase and at dawn.
    pub fn allows_learning(&self) -> (r: bool)
        ensures
            r == (*self == CircadianPhase::Active || *self == CircadianPhase::Dawn),
    {
        match self {
            CircadianPhase::Active | CircadianPhase::Dawn => true,
            _ => false,
        }
    }

    /// Whether consolidation should run: at rest and at dusk.
    pub fn allows_consolidation(&self) -> (r: bool)
        ensures
            r == (*self == CircadianPhase::Rest || *self == CircadianPhase::Dusk),
    {
        match self {
            CircadianPhase::Rest | CircadianPhase::Dusk => true,
            _ => false,
        }
    }
}

/// Whether expensive compute is permitted in a phase: when active and at dawn.
pub open spec fn computes_in(p: CircadianPhase) -> bool {
    p == CircadianPhase::Active || p == CircadianPhase::Dawn
}

/// Whether learning is permitted in a phase with the given coherence verdict.
pub open spec fn learns_in(p: CircadianPhase, coherent: bool) -> bool {
    (p == CircadianPhase::Active || p == CircadianPhase::Dawn) && coherent
}

/// Whether consolidation runs in a phase.
pub open spec fn consolidates_in(p: CircadianPhase) -> bool {
    p == CircadianPhase::Rest || p == CircadianPhase::Dusk
}

/// The value of a latch, or the fresh decision when it is open.
pub open spec fn latched(l: Option<bool>, fresh: bool) -> bool {
    match l {
        Some(b) => b,
        None => fresh,
    }
}

/// Decisions latched within one phase: the first decision of a kind stands
/// until the latches are reset at the next phase boundary, so gates never
/// flap inside a phase.
#[derive(Clone, Copy, Debug, PartialEq, Eq, Structural)]
pub struct PhaseLatches {
    pub compute: Option<bool>,
    pub learn: Option<bool>,
    pub consolidate: Option<bool>,
}

impl PhaseLatches {
    /// All latches open.
    pub fn new() -> (r: Self)
        ensures
            r.compute is None && r.learn is None && r.consolidate is None,
    {
        PhaseLatches { compute: None, learn: None, consolidate: None }
    }

    /// Opens every latch, as at a phase boundary.
    pub fn reset(&mut self)
        ensures
            final(self).compute is None && final(self).learn is None && final(self).consolidate is None,
    {
        self.compute = None;
        self.learn = None;
        self.consolidate = None;
    }

    /// Whether expensive compute is permitted; the answer is latched.
    pub fn should_compute(&mut self, phase: CircadianPhase) -> (r: bool)
        ensures
            r == latched(old(self).compute, computes_in(phase)),
            final(self).compute == Some(r),
            final(self).learn == old(self).learn,
            final(self).consolidate == old(self).consolidate,
    {
        match self.compute {
            Some(b) => b,
            None => {
                let d = match phase {
                    CircadianPhase::Active | CircadianPhase::Dawn => true,
                    _ => false,
                };
                self.compute = Some(d);
                d
            },
        }
    }

    /// Whether learning is permitted, given whether coherence is high
    /// enough; the answer is latched.
    pub fn should_learn(&mut self, phase: CircadianPhase, coherent: bool) -> (r: bool)
        ensures
            r == latched(old(self).learn, learns_in(phase, coherent)),
            final(self).learn == Some(r),
            final(self).compute == old(self).compute,
            final(self).consolidate == old(self).consolidate,
    {
        match self.learn {
            Some(b) => b,
            None => {
                let d = phase.allows_learning() && coherent;
                self.learn = Some(d);
                d
            },
        }
    }

    /// Whether consolidation should run; the answer is latched.
    pub fn should_consolidate(&mut self, phase: CircadianPhase) -> (r: bool)
        ensures
            r == latched(old(self).consolidate, consolidates_in(phase)),
            final(self).consolidate == Some(r),
            final(self).compute == old(self).compute,
            final(self).learn == old(self).learn,
    {
        match self.consolidate {
            Some(b) => b,
            None => {
                let d = phase.allows_consolidation();
                self.consolidate = Some(d);
                d
            },
        }
    }

    /// The compute decision, without latching it.
    pub fn peek_compute(&self, phase: CircadianPhase) -> (r: bool)
        ensures
            r == latched(self.compute, computes_in(phase)),
    {
        match self.compute {
            Some(b) => b,
            None => match phase {
                CircadianPhase::Active | CircadianPhase::Dawn => true,
                _ => false,
            },
        }
    }

    /// The learning decision, without latching it.
    pub fn peek_learn(&self, phase: CircadianPhase, coherent: bool) -> (r: bool)
        ensures
            r == latched(self.learn, learns_in(phase, coherent)),
    {
        match self.learn {
            Some(b) => b,
            None => phase.allows_learning() && coherent,
        }
    }
}

/// The most recent decision latencies, at most `capacity` of them, oldest first.
#[derive(Clone, Debug)]
pub struct LatencyWindow {
    pub latencies: Vec<u64>,
    pub capacity: usize,
}

impl LatencyWindow {
    /// Records a latency: when the window is full the oldest one leaves first.
    pub fn record(&mut self, latency_us: u64)
        ensures
            final(self).capacity == old(self).capacity,
            final(self).latencies@ == (if old(self).latencies@.len() >= old(self).capacity
                && old(self).latencies@.len() > 0 {
                old(self).latencies@.drop_first()
            } else {
                old(self).latencies@
            }).push(latency_us),
    {
        if self.latencies.len() >= self.capacity && self.latencies.len() > 0 {
            self.latencies.remove(0);
            assert(self.latencies@ =~= old(self).latencies@.drop_first());
        }
        self.latencies.push(latency_us);
    }
}

} // verus!
