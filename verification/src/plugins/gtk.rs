//! The GUI plugin.

use vstd::prelude::*;
use crate::plugin_system::PluginInfo;

verus! {

/// The GUI plugin: `⎕GTK` opens windows and reports their events.
pub struct GtkPlugin;

impl GtkPlugin {
    /// the plugin
    pub fn new() -> Self {
        GtkPlugin
    }

    /// what the plugin tells of itself
    pub fn info(&self) -> (r: PluginInfo)
        ensures
            r.name@ == "gtk"@,
            r.version@ == "0.1.0"@,
            r.description@ == "GTK4 GUI (⎕GTK)"@,
    {
        PluginInfo::new("gtk", "0.1.0", "GTK4 GUI (⎕GTK)")
    }
}

} // verus!
