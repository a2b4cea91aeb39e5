//! Failures of plugin management.
use vstd::prelude::*;

verus! {

#[derive(Clone, Copy, Debug, PartialEq, Eq, Structural)]
pub enum PluginError {
    PluginDirNotExists,
    DownloadFailed,
    DeleteFailed,
    StartFailed,
}

impl PluginError {
    /// The message that describes the failure.
    pub fn message(&self) -> (m: &'static str)
        ensures
            m@ == match self {
                PluginError::PluginDirNotExists => "The plugin directory does not exist."@,
                PluginError::DownloadFailed => "Download failed."@,
                PluginError::DeleteFailed => "Delete Failed"@,
                PluginError::StartFailed => "Start Failed"@,
            },
    {
        match self {
            PluginError::PluginDirNotExists => "The plugin directory does not exist.",
            PluginError::DownloadFailed => "Download failed.",
            PluginError::DeleteFailed => "Delete Failed",
            PluginError::StartFailed => "Start Failed",
        }
    }
}

} // verus!
