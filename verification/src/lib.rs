//! A small verified library for a persisted set of environment-variable
//! assignments, kept as a line-oriented text file of `export NAME=VALUE`
//! lines. The functions here do the parsing, rendering and editing of the
//! store's content; reading and writing the actual files is left to the
//! caller.

pub mod error;
pub mod lines;
pub mod paths;
pub mod store;
pub mod text;
pub mod varmap;

pub use error::StoreError;
pub use paths::{get_backup_path, get_evo_path};
pub use store::{
    create_evo, edit_var, fetch_vars, make_backup, restore_backup, set_var, unset_var,
};
pub use varmap::VarMap;
