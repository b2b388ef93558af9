//! The bound checks of the fortified `printf` family (`__vsnprintf_chk`,
//! `__vsprintf_chk`): the fortify level itself is ignored, and a call whose
//! buffer is too small for what it asks fails the process.

use vstd::prelude::*;

verus! {

/// `__vsnprintf_chk`: the call may go on only when the buffer's real size
/// `slen` is at least the size `len` it asks to format into.
pub fn vsnprintf_chk_ok(len: usize, slen: usize) -> (r: bool)
    ensures
        r == (slen >= len),
{
    slen >= len
}

/// `__vsprintf_chk`, before formatting: a buffer of `strlen` bytes has
/// room for at least the terminator only when `strlen` is not 0.
pub fn vsprintf_chk_room(strlen: usize) -> (r: bool)
    ensures
        r == (strlen != 0),
{
    strlen != 0
}

/// `__vsprintf_chk`, after a bounded format into `strlen` bytes returned
/// `n`: the output fit, with its terminator, unless `n` is a count of at
/// least `strlen` (a negative `n`, an error, is passed on).
pub fn vsprintf_chk_fits(n: i32, strlen: usize) -> (r: bool)
    ensures
        r == !(n >= 0 && n as int >= strlen as int),
{
    if n < 0 {
        true
    } else {
        (n as u32 as usize) < strlen
    }
}

} // verus!
