//! Where the scanner reads from.
use vstd::prelude::*;

verus! {

/// The input of a scan: standard input, or the file at a path.
pub enum Input {
    Stdin(()),
    File(String),
}

impl Clone for Input {
    fn clone(&self) -> (copy: Input)
        ensures
            match (*self, copy) {
                (Input::Stdin(_), Input::Stdin(_)) => true,
                (Input::File(path), Input::File(copied)) => copied@ == path@,
                _ => false,
            },
    {
        match self {
            Input::Stdin(_) => Input::Stdin(()),
            Input::File(path) => Input::File(path.clone()),
        }
    }
}

impl Input {
    /// The input for one of the files named on the command line: standard input when it
    /// is not a terminal (something is piped in) and the check is not bypassed, the file
    /// otherwise.
    pub fn select(stdin_is_terminal: bool, bypass_stdin_check: bool, file: &String) -> (input: Input)
        ensures
            match input {
                Input::Stdin(_) => !stdin_is_terminal && !bypass_stdin_check,
                Input::File(path) => (stdin_is_terminal || bypass_stdin_check) && path@ == file@,
            },
    {
        if !stdin_is_terminal && !bypass_stdin_check {
            Input::Stdin(())
        } else {
            Input::File(file.clone())
        }
    }
}

} // verus!
