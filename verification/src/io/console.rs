use vstd::prelude::*;
use vstd::string::StrSliceExecFns;
use crate::sbi::{LegacyExt, SbiCall};

verus! {

/// The kernel console, written through the firmware.
pub struct Stdout;

/// The legacy call that writes `c` to the console.
pub open spec fn putchar_call(c: char) -> SbiCall {
    SbiCall { eid: 1, fid: 0, arg0: c as usize, arg1: 0, arg2: 0 }
}

/// The call that writes `c` to the console.
pub fn putchar(c: char) -> (r: SbiCall)
    ensures
        r == putchar_call(c),
{
    SbiCall { eid: usize::from(LegacyExt::ConsolePutchar), fid: 0, arg0: c as usize, arg1: 0, arg2: 0 }
}

/// The calls that write `s` to the console, one per character.
pub fn puts(s: &str) -> (r: Vec<SbiCall>)
    ensures
        r@.len() == s@.len(),
        forall|i: int| 0 <= i < s@.len() ==> #[trigger] r@[i] == putchar_call(s@[i]),
{
    let n = s.unicode_len();
    let mut calls: Vec<SbiCall> = Vec::new();
    let mut i: usize = 0;
    while i < n
        invariant
            n == s@.len(),
            i <= n,
            calls@.len() == i,
            forall|k: int| 0 <= k < i ==> #[trigger] calls@[k] == putchar_call(s@[k]),
        decreases n - i,
    {
        let c = s.get_char(i);
        calls.push(putchar(c));
        i = i + 1;
    }
    calls
}

/// The legacy call that reads a character from the console.
pub fn getchar_call() -> (r: SbiCall)
    ensures
        r == (SbiCall { eid: 2, fid: 0, arg0: 0, arg1: 0, arg2: 0 }),
{
    SbiCall { eid: usize::from(LegacyExt::ConsoleGetchar), fid: 0, arg0: 0, arg1: 0, arg2: 0 }
}

/// The character that the console read returned `ret` stands for: none
/// when the firmware answered with all bits set, else its low byte.
pub fn getchar(ret: usize) -> (r: Option<char>)
    ensures
        r == if ret == usize::MAX {
            None
        } else {
            Some((ret as u8) as char)
        },
{
    if ret == usize::MAX {
        None
    } else {
        Some(ret as u8 as char)
    }
}

impl Stdout {
    /// The calls that writing `s` to the console makes.
    pub fn write_str(&mut self, s: &str) -> (r: Vec<SbiCall>)
        ensures
            r@.len() == s@.len(),
            forall|i: int| 0 <= i < s@.len() ==> #[trigger] r@[i] == putchar_call(s@[i]),
    {
        puts(s)
    }
}

} // verus!
