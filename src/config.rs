//! Start-up arguments and display settings.

use vstd::prelude::*;
use crate::folder::SortBy;

verus! {

/// Milliseconds between two ticks of the event loop.
pub const EVENT_INTERVAL: u64 = 100;

/// What the command line asks for: the folder to scan, if given.
#[derive(Debug)]
pub struct InitConfig {
    pub file_path: Option<String>,
}

/// The argument after the program name, if there is one.
pub open spec fn first_argument(args: Seq<String>) -> Option<Seq<char>> {
    if args.len() >= 2 {
        Some(args[1]@)
    } else {
        None
    }
}

/// A copy of the argument after the program name, if any.
fn first_arg(args: &Vec<String>) -> (r: Option<String>)
    ensures
        match r {
            Some(s) => first_argument(args@) == Some(s@),
            None => first_argument(args@) is None,
        },
{
    if args.len() >= 2 {
        Some(args[1].clone())
    } else {
        None
    }
}

impl InitConfig {
    /// Reads the command line (program name first): the folder to scan is
    /// the next argument, if any. Never fails.
    pub fn build(args: Vec<String>) -> (r: Result<InitConfig, &'static str>)
        ensures
            r is Ok,
            match r {
                Ok(c) => match c.file_path {
                    Some(s) => first_argument(args@) == Some(s@),
                    None => first_argument(args@) is None,
                },
                Err(_) => false,
            },
    {
        Ok(InitConfig { file_path: first_arg(&args) })
    }
}

/// Same reading of the command line as `InitConfig`.
#[derive(Debug)]
pub struct Config {
    pub file_path: Option<String>,
}

impl Config {
    /// Reads the command line (program name first): the folder to scan is
    /// the next argument, if any. Never fails.
    pub fn build(args: Vec<String>) -> (r: Result<Config, &'static str>)
        ensures
            r is Ok,
            match r {
                Ok(c) => match c.file_path {
                    Some(s) => first_argument(args@) == Some(s@),
                    None => first_argument(args@) is None,
                },
                Err(_) => false,
            },
    {
        Ok(Config { file_path: first_arg(&args) })
    }
}

/// Display settings.
#[derive(Debug, Clone, Copy, PartialEq, Eq, Structural)]
pub struct UIConfig {
    pub colored: bool,
    /// A first delete key press awaits confirmation.
    pub confirming_deletion: bool,
    pub sort_by: SortBy,
    pub move_to_trash: bool,
    pub open_file: bool,
    pub debug_enabled: bool,
}

} // verus!
