use vstd::prelude::*;

verus! {

/// The ways a store operation can fail.
#[derive(Clone, Copy, Debug, PartialEq, Eq, Structural)]
pub enum StoreError {
    /// The user's home directory could not be determined.
    HomeDirUnresolvable,
    /// An operation that needs an existing store file was run without one.
    StoreFileMissing,
    /// `edit` or `unset` was asked for a name the store does not hold.
    KeyNotFound,
    /// A line of the store file has no `=` in its assignment part.
    MalformedLine,
    /// A filesystem operation failed.
    Io,
}

impl StoreError {
    /// A short description of the error, for callers that report it.
    pub fn message(&self) -> (r: &'static str)
        ensures
            r@.len() > 0,
    {
        let m = match self {
            StoreError::HomeDirUnresolvable => "impossible to get your home dir",
            StoreError::StoreFileMissing => "the evo file does not exist for the user",
            StoreError::KeyNotFound => "key not found",
            StoreError::MalformedLine => "malformed line in the evo file",
            StoreError::Io => "filesystem operation failed",
        };
        proof {
            reveal_strlit("impossible to get your home dir");
            reveal_strlit("the evo file does not exist for the user");
            reveal_strlit("key not found");
            reveal_strlit("malformed line in the evo file");
            reveal_strlit("filesystem operation failed");
        }
        m
    }
}

} // verus!
