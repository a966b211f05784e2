//! The database plugin.

use vstd::prelude::*;
use crate::plugin_system::PluginInfo;
use crate::types::{AplResult, ErrorCode};
use crate::value::ValueP;

verus! {

/// The database plugin: `⎕SQL` runs statements against an SQLite database.
pub struct SqlPlugin;

impl SqlPlugin {
    /// the plugin
    pub fn new() -> Self {
        SqlPlugin
    }

    /// what the plugin tells of itself
    pub fn info(&self) -> (r: PluginInfo)
        ensures
            r.name@ == "sql"@,
            r.version@ == "0.1.0"@,
            r.description@ == "SQL database access (⎕SQL)"@,
    {
        PluginInfo::new("sql", "0.1.0", "SQL database access (⎕SQL)")
    }
}

/// `⎕SQL B`. Databases are files, which this library does not touch:
/// `⎕SQL` is a DOMAIN ERROR, as in an interpreter built without the plugin.
pub fn quad_sql(b: &ValueP) -> (r: AplResult<ValueP>)
    ensures
        r == Err::<ValueP, ErrorCode>(ErrorCode::DomainError),
{
    Err(ErrorCode::DomainError)
}

} // verus!
