//! The command line of the relay.

use vstd::prelude::*;
use vstd::string::StringExecFns;

verus! {

/// The command line: where the configuration is, and what to do.
#[derive(Debug)]
pub struct Cli {
    /// Path of the configuration file.
    pub config: String,
    pub command: Option<Command>,
}

/// Commands that run in place of the daemon.
#[derive(Clone, Copy, Debug, PartialEq, Eq, Structural)]
pub enum Command {
    /// Wipe the store of the running relay.
    ClearDb,
    /// Print a certificate request and install the signed certificate.
    Enroll,
}

impl Cli {
    /// The command line, given what it says: without a path, the configuration
    /// is where the package puts it.
    pub fn get(config: Option<String>, command: Option<Command>) -> (r: Cli)
        ensures
            r.command == command,
            r.config@ == (match config {
                Some(path) => path@,
                None => "/etc/promtuz/relay.toml"@,
            }),
    {
        let config: String = match config {
            Some(path) => path,
            None => String::from_str("/etc/promtuz/relay.toml"),
        };
        Cli { config, command }
    }

    /// Whether the daemon runs: it does without a command.
    pub fn runs_daemon(&self) -> (r: bool)
        ensures
            r == self.command is None,
    {
        self.command.is_none()
    }
}

} // verus!
