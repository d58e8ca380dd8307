//! Structured perception records of a host: the record schemas, the
//! privacy compaction of the full profile, the structural diff between two
//! momentary records, the decisions of the snapshotter, the profiler and the
//! watch loop, and the readers of the text that system utilities print.
use vstd::prelude::*;

pub mod compaction;
pub mod diff;
pub mod host;
pub mod json;
pub mod net;
pub mod observation;
pub mod observer;
pub mod order;
pub mod parse;
pub mod text;
pub mod watch;

verus! {

} // verus!
