use vstd::prelude::*;

verus! {

/// Extension ids of the legacy SBI calls.
#[derive(Clone, Copy)]
pub enum LegacyExt {
    SetTimer,
    ConsolePutchar,
    ConsoleGetchar,
    ClearIPI,
    SendIPI,
    RemoteFENCEI,
    RemoteSFENCEVMA,
    RemoteSFENCEVMAASID,
    Shutdown,
}

impl LegacyExt {
    /// The extension id of the call.
    pub open spec fn id(self) -> usize {
        match self {
            LegacyExt::SetTimer => 0,
            LegacyExt::ConsolePutchar => 1,
            LegacyExt::ConsoleGetchar => 2,
            LegacyExt::ClearIPI => 3,
            LegacyExt::SendIPI => 4,
            LegacyExt::RemoteFENCEI => 5,
            LegacyExt::RemoteSFENCEVMA => 6,
            LegacyExt::RemoteSFENCEVMAASID => 7,
            LegacyExt::Shutdown => 8,
        }
    }
}

impl From<LegacyExt> for usize {
    fn from(ext: LegacyExt) -> (r: usize) {
        match ext {
            LegacyExt::SetTimer => 0,
            LegacyExt::ConsolePutchar => 1,
            LegacyExt::ConsoleGetchar => 2,
            LegacyExt::ClearIPI => 3,
            LegacyExt::SendIPI => 4,
            LegacyExt::RemoteFENCEI => 5,
            LegacyExt::RemoteSFENCEVMA => 6,
            LegacyExt::RemoteSFENCEVMAASID => 7,
            LegacyExt::Shutdown => 8,
        }
    }
}

impl vstd::std_specs::convert::FromSpecImpl<LegacyExt> for usize {
    open spec fn obeys_from_spec() -> bool {
        true
    }

    open spec fn from_spec(v: LegacyExt) -> usize {
        v.id()
    }
}

/// An `ecall` into the SBI firmware: the extension and function ids in
/// a7 and a6, the arguments in a0 to a2.
#[derive(Clone, Copy, Debug, PartialEq, Eq)]
pub struct SbiCall {
    pub eid: usize,
    pub fid: usize,
    pub arg0: usize,
    pub arg1: usize,
    pub arg2: usize,
}

/// The id of the SBI timer extension ("TIME").
pub const TIMER_EXTENSION: usize = 0x54494D45;

/// The call that programs the next timer interrupt for time `time`.
pub open spec fn set_timer_call(time: usize) -> SbiCall {
    SbiCall { eid: TIMER_EXTENSION, fid: 0, arg0: time, arg1: 0, arg2: 0 }
}

/// Programs the next timer interrupt for time `time`: function 0 of the
/// timer extension.
pub fn set_timer(time: usize) -> (r: SbiCall)
    ensures
        r == set_timer_call(time),
{
    SbiCall { eid: TIMER_EXTENSION, fid: 0, arg0: time, arg1: 0, arg2: 0 }
}

} // verus!
