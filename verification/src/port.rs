//! The ports through which the session logic meets the outside world: command execution,
//! launch requests and the active window. Adapters implement them.
use vstd::prelude::*;

verus! {

/// Why a shell command failed.
#[derive(Debug)]
pub enum ExecutorError {
    RuntimeError(String),
    StartupError,
    UnknownError,
}

/// Executes string shaped shell commands and reports back how the execution went.
pub trait Executor {
    /// Executes the command synchronously, blocking until it finishes. On success, the command
    /// output is returned.
    fn run_to_completion(&self, command: &str) -> Result<String, ExecutorError>;

    /// Executes the command in the background, returning as soon as it was launched.
    fn run_in_background(&self, command: &str) -> Result<(), ExecutorError>;
}

/// Which root layer a session navigates.
#[derive(Clone, Copy, Debug, PartialEq, Eq, Structural)]
pub enum SessionMode {
    /// The global root layer.
    Global,
    /// The root layer configured for the currently active window.
    Window,
}

/// Reports the user's requests for a session.
pub trait Launcher {
    /// Blocks until the user requests a session and returns the mode they asked for.
    fn wait_for_launch(&self) -> SessionMode;
}

/// Knows the currently active window.
pub trait WindowManager {
    /// The name of the currently active window, or `None` if unavailable.
    fn get_active_window_name(&self) -> Option<String>;
}

/// Why the keyboard could not be taken.
#[derive(Debug)]
pub struct InputError {
    pub reason: String,
}

} // verus!
