//! The image plugin.

use vstd::prelude::*;
use crate::plugin_system::PluginInfo;
use crate::types::{AplResult, ErrorCode};
use crate::value::ValueP;

verus! {

/// The image plugin: `⎕PNG` reads and writes PNG images.
pub struct PngPlugin;

impl PngPlugin {
    /// the plugin
    pub fn new() -> Self {
        PngPlugin
    }

    /// what the plugin tells of itself
    pub fn info(&self) -> (r: PluginInfo)
        ensures
            r.name@ == "png"@,
            r.version@ == "0.1.0"@,
            r.description@ == "PNG image I/O (⎕PNG)"@,
    {
        PluginInfo::new("png", "0.1.0", "PNG image I/O (⎕PNG)")
    }
}

/// `⎕PNG B`. Images are files, which this library does not touch: `⎕PNG`
/// is a DOMAIN ERROR, as in an interpreter built without the plugin.
pub fn quad_png(b: &ValueP) -> (r: AplResult<ValueP>)
    ensures
        r == Err::<ValueP, ErrorCode>(ErrorCode::DomainError),
{
    Err(ErrorCode::DomainError)
}

} // verus!
