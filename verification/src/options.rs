//! The validated configuration that a run of the watcher receives.

use vstd::prelude::*;

verus! {

/// The watcher's configuration, already parsed and validated: the commands
/// to run, the pass interval, an optional total run time, and the initial
/// presentation choices.
#[derive(Debug)]
pub struct Options {
    /// Exit after this many seconds, where given.
    pub seconds: Option<u64>,
    /// Suppress the banner line.
    pub no_banner: bool,
    /// Treat each argument as its own command, rather than one joined one.
    pub multiple_commands: bool,
    /// Seconds between passes, where given; one second otherwise.
    pub interval: Option<u64>,
    /// The name of the initial style, where given.
    pub style: Option<String>,
    /// The commands to watch, in order.
    pub commands: Vec<String>,
}

impl Options {
    /// A configuration with nothing set: no commands, every choice at its
    /// default.
    pub fn new() -> (o: Options)
        ensures
            o.seconds is None,
            !o.no_banner,
            !o.multiple_commands,
            o.interval is None,
            o.style is None,
            o.commands@.len() == 0,
    {
        Options {
            seconds: None,
            no_banner: false,
            multiple_commands: false,
            interval: None,
            style: None,
            commands: Vec::new(),
        }
    }
}

} // verus!
