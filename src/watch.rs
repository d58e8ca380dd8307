//! The watch scheduler's decisions: given each new snapshot, what to emit.
//! The caller takes the snapshot, writes what is emitted and sleeps for the
//! interval between ticks.
use vstd::prelude::*;

use crate::diff::{create_diff_envelope, duplicate_observation, observation_json, ops_view, DiffEnvelope};
use crate::json::apply_all;
use crate::observation::Observation;

verus! {

/// What one tick writes.
#[derive(Debug, Clone, PartialEq, Eq)]
pub enum Emission {
    /// A full record.
    Full(Observation),
    /// A patch against the previous record.
    Diff(DiffEnvelope),
}

/// The state of a watch loop.
#[derive(Debug, Clone, PartialEq, Eq)]
pub struct WatchLoop {
    /// Milliseconds to sleep between ticks.
    pub interval_ms: u64,
    /// Whether ticks after the first emit patches.
    pub diff: bool,
    /// The record the next patch is taken against.
    pub previous: Option<Observation>,
}

impl WatchLoop {
    pub fn new(interval_ms: u64, diff: bool) -> (r: WatchLoop)
        ensures
            r.interval_ms == interval_ms,
            r.diff == diff,
            r.previous is None,
    {
        WatchLoop { interval_ms, diff, previous: None }
    }

    /// What to emit for the snapshot just taken. In full mode every record
    /// is emitted whole. In diff mode the first is, and every later one is
    /// emitted as a patch against the one just before it.
    pub fn on_snapshot(&mut self, current: Observation) -> (r: Emission)
        ensures
            final(self).interval_ms == old(self).interval_ms,
            final(self).diff == old(self).diff,
            !old(self).diff ==> r == Emission::Full(current) && final(self).previous
                == old(self).previous,
            old(self).diff && old(self).previous is None ==> r == Emission::Full(current),
            old(self).diff && old(self).previous is Some ==> (r matches Emission::Diff(env) && {
                &&& env.ts == current.ts
                &&& env.monotonic_ms == current.monotonic_ms
                &&& apply_all(observation_json(old(self).previous->Some_0), ops_view(env.patch@))
                    == Some(observation_json(current))
            }),
            old(self).diff ==> (final(self).previous matches Some(p) && observation_json(p)
                == observation_json(current)),
    {
        if !self.diff {
            return Emission::Full(current);
        }
        let kept = duplicate_observation(&current);
        let previous = self.previous.take();
        self.previous = Some(kept);
        match previous {
            None => Emission::Full(current),
            Some(p) => Emission::Diff(create_diff_envelope(&p, &current)),
        }
    }
}

} // verus!
