//! Whether a shim invocation becomes a managed session or runs the real program.
use crate::drivers::interactive;
use crate::shell::ShellChoice;
use vstd::prelude::*;

verus! {

/// Where a shim sends an invocation of a shell.
#[derive(Debug, Clone, Copy, PartialEq, Eq, Structural)]
pub enum LaunchRoute {
    /// A FuncTerm session takes over the terminal.
    ManagedSession,
    /// The real program runs with the invocation's arguments and streams unchanged.
    NativeProcess,
}

impl LaunchRoute {
    /// A managed session is started only when standard input is a terminal and the
    /// arguments (as encoded bytes) only ask for an interactive shell; everything else
    /// runs natively, so redirected input and program arguments are always preserved.
    pub fn classify(choice: ShellChoice, arguments: &Vec<Vec<u8>>, terminal_input: bool) -> (r:
        Self)
        ensures
            r == (if terminal_input && interactive(
                choice,
                arguments@.map_values(|argument: Vec<u8>| argument@),
            ) {
                LaunchRoute::ManagedSession
            } else {
                LaunchRoute::NativeProcess
            }),
    {
        if terminal_input && choice.interactive_arguments(arguments) {
            LaunchRoute::ManagedSession
        } else {
            LaunchRoute::NativeProcess
        }
    }
}

} // verus!
