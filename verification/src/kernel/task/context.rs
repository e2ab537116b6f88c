use vstd::prelude::*;

verus! {

/// The registers a cooperative task switch saves: the callee-saved ones and the flags.
#[derive(Debug, Clone, Copy, PartialEq, Eq, Structural)]
pub struct Context {
    pub rsp: u64,
    pub rbp: u64,
    pub rbx: u64,
    pub r12: u64,
    pub r13: u64,
    pub r14: u64,
    pub r15: u64,
    pub rflags: u64,
}

/// The flags of a fresh context: interrupts enabled.
pub const INITIAL_RFLAGS: u64 = 0x200;

impl Context {
    pub open spec fn empty_spec() -> Context {
        Context { rsp: 0, rbp: 0, rbx: 0, r12: 0, r13: 0, r14: 0, r15: 0, rflags: INITIAL_RFLAGS }
    }

    /// All registers zero, interrupts enabled.
    pub fn empty() -> (c: Context)
        ensures
            c == Context::empty_spec(),
    {
        Context { rsp: 0, rbp: 0, rbx: 0, r12: 0, r13: 0, r14: 0, r15: 0, rflags: INITIAL_RFLAGS }
    }
}

} // verus!
