//! The run's options, and the decisions that follow from them alone.
use vstd::prelude::*;

verus! {

/// How much is logged.
#[derive(Debug, Clone, Copy, PartialEq, Eq, Structural)]
pub enum LogLevel {
    Off,
    Error,
    Warn,
    Info,
    Debug,
    Trace,
}

#[derive(Debug, Clone)]
pub struct Opts {
    /// Write the result under `./output` instead of replacing the system files.
    pub dry_run: bool,
    /// Parse every fragment and stop, writing nothing.
    pub check: bool,
    /// Watch the fragment directory and run again on each change.
    pub watch: bool,
    /// Run in the background; needs `watch`.
    pub daemon: bool,
    /// Where the background process writes its id.
    pub pid_file: String,
    /// Copy the current hosts file into the fragment directory first.
    pub backup: bool,
    pub log_level: LogLevel,
    pub log_file: String,
}

impl Opts {
    /// The directory under which the hosts file and the fragment directory lie.
    pub fn root_prefix(&self) -> (r: String)
        ensures
            r@ == (if self.dry_run {
                "./output"@
            } else {
                "/etc"@
            }),
    {
        if self.dry_run {
            "./output".to_owned()
        } else {
            "/etc".to_owned()
        }
    }

    /// The directory of fragments.
    pub fn fragment_dir(&self) -> (r: String)
        ensures
            r@ == self.root_prefix_view() + "/hosts.d"@,
    {
        self.root_prefix().concat("/hosts.d")
    }

    /// The hosts file that a run writes.
    pub fn hosts_file(&self) -> (r: String)
        ensures
            r@ == self.root_prefix_view() + "/hosts"@,
    {
        self.root_prefix().concat("/hosts")
    }

    /// Where a backup of the hosts file goes: the first fragment of the directory.
    pub fn backup_file(&self) -> (r: String)
        ensures
            r@ == self.root_prefix_view() + "/hosts.d/10-old-config.conf"@,
    {
        self.root_prefix().concat("/hosts.d/10-old-config.conf")
    }

    pub open spec fn root_prefix_view(&self) -> Seq<char> {
        if self.dry_run {
            "./output"@
        } else {
            "/etc"@
        }
    }

    /// Whether replacing the system files needs root: when writing, outside a dry run.
    pub fn needs_root(&self, write: bool) -> (r: bool)
        ensures
            r == (write && !self.dry_run),
    {
        write && !self.dry_run
    }

    /// Whether the options ask for a daemon without the watch it needs.
    pub fn daemon_without_watch(&self) -> (r: bool)
        ensures
            r == (self.daemon && !self.watch),
    {
        self.daemon && !self.watch
    }
}

} // verus!
