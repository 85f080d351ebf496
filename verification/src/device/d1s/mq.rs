use vstd::prelude::*;

verus! {

/// The address of the register that drives pin PD2, the board's blue LED.
pub const PD2_CONTROLLER: usize = 0x0200_0098;

/// The register value that lights the blue LED: the pin's function field
/// (bits 24..27) set to output, the other bits kept.
pub fn blue_led_on(reg: u32) -> (r: u32)
    ensures
        r == (reg & 0xf0ff_ffffu32) | 0x0100_0000u32,
{
    let mut val = reg;
    val &= 0xf0ffffff;
    val |= 0x01000000;
    val
}

/// The register value that turns the blue LED off: the pin's function
/// field set to disabled, the other bits kept.
pub fn blue_led_off(reg: u32) -> (r: u32)
    ensures
        r == (reg & 0xf0ff_ffffu32) | 0x0f00_0000u32,
{
    let mut val = reg;
    val &= 0xf0ffffff;
    val |= 0x0f000000;
    val
}

} // verus!
