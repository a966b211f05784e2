//! The plotting plugin.

use vstd::prelude::*;
use crate::plugin_system::PluginInfo;

verus! {

/// The plotting plugin: `⎕PLOT` draws the values of a vector.
pub struct PlotPlugin;

impl PlotPlugin {
    /// the plugin
    pub fn new() -> Self {
        PlotPlugin
    }

    /// what the plugin tells of itself
    pub fn info(&self) -> (r: PluginInfo)
        ensures
            r.name@ == "plot"@,
            r.version@ == "0.1.0"@,
            r.description@ == "Plotting support (⎕PLOT)"@,
    {
        PluginInfo::new("plot", "0.1.0", "Plotting support (⎕PLOT)")
    }
}

} // verus!
