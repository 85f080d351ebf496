use vstd::prelude::*;

verus! {

/// The registers saved on a trap.
pub struct TrapContext {
    pub x: [usize; 32],
    pub sstatus: usize,
    pub spec: usize,
}

/// The causes of a trap that the handler tells apart.
#[derive(Clone, Copy, Debug, PartialEq, Eq)]
pub enum TrapCause {
    UserEnvCall,
    StoreFault,
    StorePageFault,
    IllegalInstruction,
    SupervisorTimer,
    Other,
}

/// What the kernel does once the handler has looked at a trap.
#[derive(Clone, Copy, Debug, PartialEq, Eq)]
pub enum TrapAction {
    /// Return to the trapped code.
    Resume,
    /// Report the faulting address and stop: a store fault.
    PageFault,
    /// Report an illegal instruction and return.
    IllegalInstruction,
    /// Program the next timer interrupt and return.
    NextTimer,
    /// Stop: a trap that the kernel does not handle.
    Unhandled,
}

/// Handles a trap of cause `cause` on the context `cx`. A system call from
/// user mode returns 0 in a0 and resumes after the `ecall`; every other cause
/// leaves the context as it is.
pub fn trap_handler(cx: &mut TrapContext, cause: TrapCause) -> (r: TrapAction)
    requires
        cause == TrapCause::UserEnvCall ==> old(cx).spec + 4 <= usize::MAX,
    ensures
        cause == TrapCause::UserEnvCall ==> {
            &&& final(cx).spec == old(cx).spec + 4
            &&& final(cx).x@ == old(cx).x@.update(10, 0)
            &&& final(cx).sstatus == old(cx).sstatus
        },
        cause != TrapCause::UserEnvCall ==> *final(cx) == *old(cx),
        r == match cause {
            TrapCause::UserEnvCall => TrapAction::Resume,
            TrapCause::StoreFault | TrapCause::StorePageFault => TrapAction::PageFault,
            TrapCause::IllegalInstruction => TrapAction::IllegalInstruction,
            TrapCause::SupervisorTimer => TrapAction::NextTimer,
            TrapCause::Other => TrapAction::Unhandled,
        },
{
    match cause {
        TrapCause::UserEnvCall => {
            cx.spec = cx.spec + 4;
            cx.x[10] = 0;
            TrapAction::Resume
        },
        TrapCause::StoreFault | TrapCause::StorePageFault => TrapAction::PageFault,
        TrapCause::IllegalInstruction => TrapAction::IllegalInstruction,
        TrapCause::SupervisorTimer => TrapAction::NextTimer,
        TrapCause::Other => TrapAction::Unhandled,
    }
}

} // verus!
