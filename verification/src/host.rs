//! The host API that business modules use: the application root and the
//! process-wide log.
use vstd::prelude::*;
use crate::upt_log::Level;

verus! {

/// What a shell provides to business modules.
pub trait HostApi {
    /// The application root directory: the executable's directory in a
    /// portable build, the working directory in a debug build.
    fn root_dir(&self) -> String;

    /// Write one message through the process-wide log.
    fn log(&self, level: Level, message: &str);
}

/// The result of installing a plugin package.
#[derive(Debug, Clone)]
pub struct InstallResult {
    pub id: String,
    pub version: String,
    /// The installed package directory.
    pub path: String,
}

} // verus!
