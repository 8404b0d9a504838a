//! Playback settings shared by every node: sampling frequency and block size.
use vstd::prelude::*;

verus! {

/// Sampling frequency and block size.
///
/// The sampling frequency is kept as the bit pattern of an IEEE-754 single
/// precision number (`f32::to_bits`), so that the library can hold and check
/// it exactly while the arithmetic on samples stays with the nodes.
#[derive(PartialEq, Eq, Structural, Clone, Copy, Debug)]
pub struct AudioRuntimeParameters {
    pub sampling_freq_bits: u32,
    pub buffer_size: usize,
}

/// Whether the single-precision number with bit pattern `bits` compares
/// `> 0.0`: every positive number from the smallest subnormal up to positive
/// infinity. Both zeros, every negative number and every NaN do not.
pub open spec fn is_positive_f32(bits: u32) -> bool {
    0x0000_0001 <= bits && bits <= 0x7f80_0000
}

/// Whether the settings may be used: a block of at least one sample, and a
/// sampling frequency that compares `> 0.0` (a NaN is refused).
pub open spec fn params_error(p: AudioRuntimeParameters) -> Option<crate::error::ErrorCodes> {
    if p.buffer_size == 0 {
        Some(crate::error::ErrorCodes::InvalidBufferSize)
    } else if !is_positive_f32(p.sampling_freq_bits) {
        Some(crate::error::ErrorCodes::InvalidSamplingFrequency)
    } else {
        None
    }
}

impl AudioRuntimeParameters {
    pub open spec fn new_spec() -> AudioRuntimeParameters {
        AudioRuntimeParameters { sampling_freq_bits: 0x472c_4400, buffer_size: 512 }
    }

    /// 44.1 kHz and blocks of 512 samples: the settings a graph starts with.
    pub fn new() -> (r: AudioRuntimeParameters)
        ensures
            r == AudioRuntimeParameters::new_spec(),
    {
        AudioRuntimeParameters { sampling_freq_bits: 0x472c_4400, buffer_size: 512 }
    }

    /// Checks the settings: the kind of error they give, if any.
    pub fn check(&self) -> (r: Option<crate::error::ErrorCodes>)
        ensures
            r == params_error(*self),
    {
        if self.buffer_size == 0 {
            Some(crate::error::ErrorCodes::InvalidBufferSize)
        } else if self.sampling_freq_bits == 0 || self.sampling_freq_bits > 0x7f80_0000 {
            Some(crate::error::ErrorCodes::InvalidSamplingFrequency)
        } else {
            None
        }
    }
}

} // verus!
