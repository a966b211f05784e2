//! What a plugin tells of itself.

use vstd::prelude::*;

verus! {

/// A plugin's name, version and description.
pub struct PluginInfo {
    pub name: String,
    pub version: String,
    pub description: String,
}

impl PluginInfo {
    /// the description of a plugin
    pub fn new(name: &str, version: &str, description: &str) -> (r: PluginInfo)
        ensures
            r.name@ == name@,
            r.version@ == version@,
            r.description@ == description@,
    {
        PluginInfo { name: name.to_owned(), version: version.to_owned(), description: description.to_owned() }
    }
}

} // verus!
