use vstd::prelude::*;

use crate::checksum::{lemma_low_bits, rotate32, rotl32};

verus! {

/// The byte of `window` that `selector` picks, counting round the window; 0 for an
/// empty window.
pub open spec fn sample_of(window: Seq<u8>, selector: usize) -> u8 {
    if window.len() == 0 {
        0
    } else {
        window[selector as int % window.len() as int]
    }
}

pub fn unchecked_window_sample(window: &[u8], selector: usize) -> (b: u8)
    ensures
        b == sample_of(window@, selector),
{
    if window.len() == 0 {
        return 0;
    }
    window[selector % window.len()]
}

/// A selector inside the window picks the byte at that position.
pub proof fn lemma_sample_in_range(window: Seq<u8>, selector: usize)
    requires
        selector < window.len(),
    ensures
        sample_of(window, selector) == window[selector as int],
{
    vstd::arithmetic::div_mod::lemma_small_mod(selector as nat, window.len());
}

/// Two samples of the window mixed with a salt.
pub open spec fn lane_of(window: Seq<u8>, selector: usize, salt: u32) -> u32 {
    let a = sample_of(window, selector) as u32;
    let b = sample_of(window, selector.wrapping_add((salt as usize) & 7usize)) as u32;
    (a << 8u32) ^ b ^ rotl32(salt, (a & 31u32) as u32)
}

pub fn mix_lane(window: &[u8], selector: usize, salt: u32) -> (r: u32)
    ensures
        r == lane_of(window@, selector, salt),
{
    let a = unchecked_window_sample(window, selector) as u32;
    let b = unchecked_window_sample(window, selector.wrapping_add((salt as usize) & 7)) as u32;
    proof {
        lemma_low_bits(a as u8);
        assert(a & 31u32 == (a as u8 & 31u8) as u32) by (bit_vector)
            requires
                a < 256,
        ;
    }
    (a << 8) ^ b ^ rotate32(salt, a & 31)
}

} // verus!
