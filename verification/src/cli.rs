//! Command-line arguments, as the app's parser hands them over.

use vstd::prelude::*;

use crate::config::Channel;

verus! {

/// The command line.
#[derive(Debug)]
pub struct Cli {
    /// Which mode was chosen.
    pub mode: ModeArgs,
    /// Also log every step, not only switches and failures.
    pub verbose: bool,
    /// Config file to use instead of the platform's default.
    pub config: Option<String>,
}

/// The mode flags, of which the parser lets exactly one through.
#[derive(Debug)]
pub struct ModeArgs {
    /// Watch the cursor and switch when it rests at a configured edge.
    pub watch: bool,
    /// List the connected Logitech devices, as entries for the config.
    pub list: bool,
    /// Switch the configured devices to this channel once and exit.
    pub switch: Option<Channel>,
}

/// What edgehop was asked to do.
#[derive(Debug, PartialEq, Eq)]
pub enum Mode {
    Watch,
    List,
    Switch(Channel),
}

/// The mode that mode flags select: `--switch` before `--list`, and `--watch`
/// otherwise.
pub open spec fn mode_of(args: ModeArgs) -> Mode {
    match args.switch {
        Some(channel) => Mode::Switch(channel),
        None => if args.list {
            Mode::List
        } else {
            Mode::Watch
        },
    }
}

impl Cli {
    /// What the command line asks for.
    pub fn mode(&self) -> (mode: Mode)
        ensures
            mode == mode_of(self.mode),
    {
        match self.mode.switch {
            Some(channel) => Mode::Switch(channel),
            None => if self.mode.list {
                Mode::List
            } else {
                Mode::Watch
            },
        }
    }
}

} // verus!
