//! Where the store keeps its files: `.evo` and the backup
//! `.local/share/evo/.evo.bk`, both under the user's home directory. The
//! home directory comes from the `home` crate and depends on the process
//! environment, so nothing is stated of the paths' values; callers carry
//! them to their file operations unchanged.

use std::path::PathBuf;

use vstd::prelude::*;

use crate::error::StoreError;

verus! {

#[verifier::external_type_specification]
#[verifier::external_body]
pub struct ExPathBuf(PathBuf);

/// Relies on home::home_dir: which directory comes back, if any, depends on
/// the process environment, so nothing is stated of the value.
#[verifier::external_body]
fn resolve_home_dir() -> (r: Option<PathBuf>) {
    home::home_dir()
}

/// Relies on Path::join: appends one relative path to `base`.
#[verifier::external_body]
fn join_relative(base: PathBuf, rel: &str) -> (r: PathBuf) {
    base.join(rel)
}

/// The path of the store file, `.evo` under the user's home directory.
/// Fails, and only with `HomeDirUnresolvable`, when the home directory
/// cannot be determined.
pub fn get_evo_path() -> (r: Result<PathBuf, StoreError>)
    ensures
        r is Err ==> r == Err::<PathBuf, StoreError>(StoreError::HomeDirUnresolvable),
{
    match resolve_home_dir() {
        None => Err(StoreError::HomeDirUnresolvable),
        Some(h) => Ok(join_relative(h, ".evo")),
    }
}

/// The path of the backup file, `.local/share/evo/.evo.bk` under the user's
/// home directory. Fails, and only with `HomeDirUnresolvable`, when the
/// home directory cannot be determined.
pub fn get_backup_path() -> (r: Result<PathBuf, StoreError>)
    ensures
        r is Err ==> r == Err::<PathBuf, StoreError>(StoreError::HomeDirUnresolvable),
{
    match resolve_home_dir() {
        None => Err(StoreError::HomeDirUnresolvable),
        Some(h) => Ok(join_relative(h, ".local/share/evo/.evo.bk")),
    }
}

} // verus!
