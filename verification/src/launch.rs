//! What to start as the editor, from the command line.

use vstd::prelude::*;

verus! {

/// The outcome of reading the command line.
#[derive(Debug, PartialEq, Eq)]
pub enum EmacsLaunch {
    /// `--no-spawn`: wait for an editor to connect by itself.
    NoSpawn,
    /// `--emacs-command` without the command that should follow it.
    MissingCommand,
    /// Start this command.
    Spawn(String),
}

pub open spec fn no_spawn_flag() -> Seq<char> {
    "--no-spawn"@
}

pub open spec fn command_flag() -> Seq<char> {
    "--emacs-command"@
}

pub open spec fn default_command() -> Seq<char> {
    "emacs"@
}

/// The decision, over the arguments' texts.
pub open spec fn spec_emacs_launch(args: Seq<Seq<char>>) -> EmacsLaunchView {
    if args.len() > 0 && args[0] == no_spawn_flag() {
        EmacsLaunchView::NoSpawn
    } else if args.len() > 0 && args[0] == command_flag() {
        if args.len() > 1 {
            EmacsLaunchView::Spawn(args[1])
        } else {
            EmacsLaunchView::MissingCommand
        }
    } else {
        EmacsLaunchView::Spawn(default_command())
    }
}

pub enum EmacsLaunchView {
    NoSpawn,
    MissingCommand,
    Spawn(Seq<char>),
}

impl View for EmacsLaunch {
    type V = EmacsLaunchView;

    open spec fn view(&self) -> EmacsLaunchView {
        match self {
            EmacsLaunch::NoSpawn => EmacsLaunchView::NoSpawn,
            EmacsLaunch::MissingCommand => EmacsLaunchView::MissingCommand,
            EmacsLaunch::Spawn(c) => EmacsLaunchView::Spawn(c@),
        }
    }
}

/// Decides what to start from the arguments after the program name:
/// nothing for `--no-spawn`, the command after `--emacs-command`, and
/// `emacs` otherwise.
pub fn emacs_launch(args: &Vec<String>) -> (r: EmacsLaunch)
    ensures
        r@ == spec_emacs_launch(args@.map_values(|a: String| a@)),
{
    let ghost views = args@.map_values(|a: String| a@);
    if args.len() > 0 {
        assert(views[0] == args@[0]@);
        if args[0] == "--no-spawn".to_owned() {
            return EmacsLaunch::NoSpawn;
        }
        if args[0] == "--emacs-command".to_owned() {
            if args.len() > 1 {
                assert(views[1] == args@[1]@);
                return EmacsLaunch::Spawn(args[1].clone());
            }
            return EmacsLaunch::MissingCommand;
        }
    }
    EmacsLaunch::Spawn("emacs".to_owned())
}

} // verus!
