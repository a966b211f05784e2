//! The Fourier transform plugin.

use vstd::prelude::*;
use crate::plugin_system::PluginInfo;
use crate::types::{AplResult, ErrorCode};
use crate::value::ValueP;

verus! {

/// The Fourier transform plugin: `⎕FFT` gives the discrete Fourier transform of a vector.
pub struct FftPlugin;

impl FftPlugin {
    /// the plugin
    pub fn new() -> Self {
        FftPlugin
    }

    /// what the plugin tells of itself
    pub fn info(&self) -> (r: PluginInfo)
        ensures
            r.name@ == "fft"@,
            r.version@ == "0.1.0"@,
            r.description@ == "Fast Fourier Transform (⎕FFT)"@,
    {
        PluginInfo::new("fft", "0.1.0", "Fast Fourier Transform (⎕FFT)")
    }
}

/// `⎕FFT B`. The transform's values are not integers, and this library
/// holds integers and characters only: `⎕FFT` is a DOMAIN ERROR, as in an
/// interpreter built without the plugin.
pub fn quad_fft(b: &ValueP) -> (r: AplResult<ValueP>)
    ensures
        r == Err::<ValueP, ErrorCode>(ErrorCode::DomainError),
{
    Err(ErrorCode::DomainError)
}

} // verus!
