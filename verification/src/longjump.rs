use vstd::prelude::*;

verus! {

/// Completion status of a protected call.
#[derive(Debug, Clone, Copy, PartialEq, Eq, Structural)]
pub enum Status {
    OK,
    Yield,
    RuntimeError,
    SyntaxError,
    MemoryError,
    ErrorInErrorHandling,
}

/// One link of the chain of active error handlers: the handler that was
/// active before it, and the status that a raised error leaves in it.
#[derive(Debug)]
pub struct LongJump {
    pub longjump_previous: Option<Box<LongJump>>,
    pub longjump_status: Status,
}

impl LongJump {
    /// A handler with no predecessor and status `OK`.
    pub fn new() -> (r: LongJump)
        ensures
            r.longjump_previous is None,
            r.longjump_status == Status::OK,
    {
        LongJump { longjump_previous: None, longjump_status: Status::OK }
    }
}

} // verus!
