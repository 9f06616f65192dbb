//! Names and limits that more than one module uses.

use vstd::prelude::*;

verus! {

/// What the application is called.
pub const APP_NAME: &'static str = "SenatorialNotes";

/// The directory of a vault that holds what is not a note.
pub const VAULT_STATE_DIR: &'static str = ".senatorial-notes";

/// The directory of the application among the user's configuration.
pub const CONFIG_DIR_NAME: &'static str = "senatorial-notes";

/// The notebook that every vault has.
pub const DEFAULT_NOTEBOOK: &'static str = "Inbox";

/// The fewest characters that a new password may have.
pub const MIN_PASSWORD_LENGTH: usize = 12;

} // verus!
