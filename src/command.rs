use vstd::prelude::*;

verus! {

/// How a bot command can fail.
pub enum CommErr {
    /// A failure with a message for the user and a detail for the log;
    /// either may be empty.
    Error(String, String),
    /// A failure with nothing more to say.
    UnknownError,
    /// The command was called with arguments it cannot use.
    SyntaxError,
    /// No command has the name that was called.
    UnknownCommand,
}

} // verus!
