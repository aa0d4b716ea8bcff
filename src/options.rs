//! The command line: what was asked for, and what the program does about it.

use vstd::prelude::*;

verus! {

/// The parsed command line.
pub struct Options {
    pub command: Option<Command>,
}

/// A subcommand.
pub enum Command {
    /// Check if the renderer is supported.
    Supports(SupportsCommand),
    /// Process a parsed book (default).
    Process,
    /// Install the widget's assets into the current book project.
    Install(InstallCommand),
}

/// Arguments of the renderer check.
pub struct SupportsCommand {
    pub renderer: String,
}

/// Arguments of the installation.
pub struct InstallCommand {
    /// Where to put the assets.
    pub assets: Option<String>,
}

/// What the program does for a command line.
pub enum Action {
    /// Report whether the named renderer is supported.
    CheckRenderer(String),
    /// Read a book, transform it and write it back.
    Process,
    /// Install the assets, at the given place if one is given.
    Install(Option<String>),
}

impl Options {
    /// Processing is the default when no subcommand is given.
    pub fn action(&self) -> (r: Action)
        ensures
            match self.command {
                None => r is Process,
                Some(Command::Process) => r is Process,
                Some(Command::Supports(c)) => r matches Action::CheckRenderer(n) && n@ == c.renderer@,
                Some(Command::Install(c)) => match (r, c.assets) {
                    (Action::Install(Some(a)), Some(b)) => a@ == b@,
                    (Action::Install(None), None) => true,
                    _ => false,
                },
            },
    {
        match &self.command {
            None => Action::Process,
            Some(Command::Process) => Action::Process,
            Some(Command::Supports(c)) => Action::CheckRenderer(c.renderer.clone()),
            Some(Command::Install(c)) => Action::Install(
                match &c.assets {
                    Some(a) => Some(a.clone()),
                    None => None,
                },
            ),
        }
    }
}

} // verus!
