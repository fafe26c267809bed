use vstd::prelude::*;

verus! {

/// Configuration consumed by the core. Reading it from disk and validating
/// it belong to the surrounding program, not to this library.
pub struct AppConfig {
    /// HTTP port to listen on.
    pub port: u16,
    /// Log level name for the tracing setup.
    pub log_level: String,
    /// Path of the snapshot file.
    pub snapshot_path: String,
    /// Seconds between automatic snapshot saves.
    pub snapshot_interval: u64,
    /// Version string the server reports.
    pub server_version: String,
    /// Retention window in seconds; entries older than this are dropped on
    /// load and by the cleanup loop. No window: entries never expire.
    pub retention_seconds: Option<u64>,
    /// Seconds between cleanup sweeps; without it no cleanup loop runs.
    pub cleanup_interval: Option<u64>,
}

impl AppConfig {
    /// The cleanup loop runs only when both the retention window and its
    /// sweep interval are configured.
    pub fn cleanup_enabled(&self) -> (r: bool)
        ensures
            r == (self.retention_seconds is Some && self.cleanup_interval is Some),
    {
        self.retention_seconds.is_some() && self.cleanup_interval.is_some()
    }
}

} // verus!
