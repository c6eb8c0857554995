//! Call-stack samples as the encoder consumes them: a frame is an opaque
//! name/file/line triple, a stack trace is one thread's sample at one
//! instant, its frames ordered leaf first.

use vstd::prelude::*;

verus! {

/// One call-stack entry.
pub struct Frame {
    pub name: String,
    pub filename: String,
    pub line: u32,
}

/// One thread's sample: its frames leaf first (index 0 is the innermost
/// call).
pub struct StackTrace {
    pub thread_id: u64,
    pub pid: u64,
    pub frames: Vec<Frame>,
}

/// No two traces of a batch share a thread id.
pub open spec fn unique_tids(ts: Seq<StackTrace>) -> bool {
    forall|i: int, j: int| 0 <= i < j < ts.len() ==> ts[i].thread_id != ts[j].thread_id
}

} // verus!
