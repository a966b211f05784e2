//! The Python plugin.

use vstd::prelude::*;
use crate::plugin_system::PluginInfo;

verus! {

/// The Python plugin: `⎕PYTHON` evaluates Python code.
pub struct PythonPlugin;

impl PythonPlugin {
    /// the plugin
    pub fn new() -> Self {
        PythonPlugin
    }

    /// what the plugin tells of itself
    pub fn info(&self) -> (r: PluginInfo)
        ensures
            r.name@ == "python"@,
            r.version@ == "0.1.0"@,
            r.description@ == "Python interop (⎕PYTHON)"@,
    {
        PluginInfo::new("python", "0.1.0", "Python interop (⎕PYTHON)")
    }
}

} // verus!
