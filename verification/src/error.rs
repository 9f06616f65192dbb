//! What can go wrong in a vault.

use vstd::prelude::*;

use crate::text::{decimal, push_decimal};

verus! {

#[derive(Clone, Debug, PartialEq, Eq)]
pub enum Error {
    Io { path: String, source: String },
    InvalidFrontMatter(String),
    InvalidPath(String),
    ExternalModification(String),
    AlreadyExists(String),
    NoteNotFound(String),
    Configuration(String),
    NoConfigDirectory,
    Watcher(String),
    InvalidEncryptedNote(String),
    DecryptionFailed,
    Encryption(String),
    WeakPassword(String),
    WrongNoteType,
    NotebookNotEmpty { relative_path: String, note_count: usize },
    NotebookHasUnmanagedContent { relative_path: String },
    ReservedNotebook { relative_path: String },
    UnsupportedVaultVersion { found: u32, supported: u32 },
    VaultManifestCorrupt(String),
    UnsupportedVaultKind,
    VaultReadOnly,
    VaultLocked,
    InvalidEncryptedVault(String),
    EncryptedVaultTargetNotEmpty(String),
    ExportCancelled,
    ExportUnsupportedContent { attachments: usize },
    ExportTargetInvalid(String),
    ExportFailed(String),
    ExportCleanupFailed { temp: String },
}

/// What an error says to the user.
pub open spec fn message_of(error: Error) -> Seq<char> {
    match error {
        Error::Io { path, source } => "I/O error at "@ + path@ + ": "@ + source@,
        Error::InvalidFrontMatter(text) => "invalid note front matter: "@ + text@,
        Error::InvalidPath(text) => "invalid path component: "@ + text@,
        Error::ExternalModification(path) => {
            "the file changed on disk after it was opened: "@
                + path@
        },
        Error::AlreadyExists(path) => "a note already exists at "@ + path@,
        Error::NoteNotFound(path) => "note not found: "@ + path@,
        Error::Configuration(text) => "configuration error: "@ + text@,
        Error::NoConfigDirectory => "no platform configuration directory is available"@,
        Error::Watcher(text) => "filesystem watcher error: "@ + text@,
        Error::InvalidEncryptedNote(text) => "invalid encrypted note: "@ + text@,
        Error::DecryptionFailed => "the encrypted note could not be unlocked"@,
        Error::Encryption(text) => "encryption operation failed: "@ + text@,
        Error::WeakPassword(text) => "password does not meet the minimum policy: "@ + text@,
        Error::WrongNoteType => "the requested operation is not valid for this note type"@,
        Error::NotebookNotEmpty { relative_path, note_count } => {
            "notebook "@
                + relative_path@
                + " is not empty ("@
                + decimal(note_count as nat)
                + " note(s) inside); move, archive, or delete its notes first"@
        },
        Error::NotebookHasUnmanagedContent { relative_path } => {
            "notebook "@
                + relative_path@
                + " contains files SenatorialNotes does not manage; it will not delete them"@
        },
        Error::ReservedNotebook { relative_path } => {
            relative_path@
                + " is a reserved notebook and cannot be renamed or deleted"@
        },
        Error::UnsupportedVaultVersion { found, supported } => {
            "this vault was created by a newer version of SenatorialNotes (manifest format "@
                + decimal(found as nat)
                + "; this build supports up to "@
                + decimal(supported as nat)
                + ")"@
        },
        Error::VaultManifestCorrupt(text) => {
            "the vault manifest is missing or unreadable: "@
                + text@
        },
        Error::UnsupportedVaultKind => "encrypted vaults are not supported by this build"@,
        Error::VaultReadOnly => "this vault is open read-only and cannot be modified"@,
        Error::VaultLocked => "this encrypted vault is locked"@,
        Error::InvalidEncryptedVault(text) => "invalid encrypted vault: "@ + text@,
        Error::EncryptedVaultTargetNotEmpty(path) => {
            path@
                + " already contains a vault or plaintext notes; an encrypted vault can only be created in an empty folder (converting an existing vault is not supported in this release)"@
        },
        Error::ExportCancelled => "the export was cancelled"@,
        Error::ExportUnsupportedContent { attachments } => {
            "the vault holds "@
                + decimal(attachments as nat)
                + " attachment(s), which an ordinary vault cannot hold"@
        },
        Error::ExportTargetInvalid(text) => "the export destination cannot be used: "@ + text@,
        Error::ExportFailed(text) => "the export failed: "@ + text@,
        Error::ExportCleanupFailed { temp } => {
            "the export failed and left files behind at "@
                + temp@
        },
    }
}

impl Error {
    /// What the error says to the user.
    pub fn message(&self) -> (said: String)
        ensures
            said@ == message_of(*self),
    {
        let mut said: String = String::new();
        match self {
            Error::Io { path, source } => {
                said.append("I/O error at ");
                said.append(path);
                said.append(": ");
                said.append(source);
            },
            Error::InvalidFrontMatter(text) => {
                said.append("invalid note front matter: ");
                said.append(text);
            },
            Error::InvalidPath(text) => {
                said.append("invalid path component: ");
                said.append(text);
            },
            Error::ExternalModification(path) => {
                said.append("the file changed on disk after it was opened: ");
                said.append(path);
            },
            Error::AlreadyExists(path) => {
                said.append("a note already exists at ");
                said.append(path);
            },
            Error::NoteNotFound(path) => {
                said.append("note not found: ");
                said.append(path);
            },
            Error::Configuration(text) => {
                said.append("configuration error: ");
                said.append(text);
            },
            Error::NoConfigDirectory => {
                said.append("no platform configuration directory is available");
            },
            Error::Watcher(text) => {
                said.append("filesystem watcher error: ");
                said.append(text);
            },
            Error::InvalidEncryptedNote(text) => {
                said.append("invalid encrypted note: ");
                said.append(text);
            },
            Error::DecryptionFailed => {
                said.append("the encrypted note could not be unlocked");
            },
            Error::Encryption(text) => {
                said.append("encryption operation failed: ");
                said.append(text);
            },
            Error::WeakPassword(text) => {
                said.append("password does not meet the minimum policy: ");
                said.append(text);
            },
            Error::WrongNoteType => {
                said.append("the requested operation is not valid for this note type");
            },
            Error::NotebookNotEmpty { relative_path, note_count } => {
                said.append("notebook ");
                said.append(relative_path);
                said.append(" is not empty (");
                push_decimal(&mut said, *note_count as u64);
                said.append(" note(s) inside); move, archive, or delete its notes first");
            },
            Error::NotebookHasUnmanagedContent { relative_path } => {
                said.append("notebook ");
                said.append(relative_path);
                said.append(" contains files SenatorialNotes does not manage; it will not delete them");
            },
            Error::ReservedNotebook { relative_path } => {
                said.append(relative_path);
                said.append(" is a reserved notebook and cannot be renamed or deleted");
            },
            Error::UnsupportedVaultVersion { found, supported } => {
                said.append("this vault was created by a newer version of SenatorialNotes (manifest format ");
                push_decimal(&mut said, *found as u64);
                said.append("; this build supports up to ");
                push_decimal(&mut said, *supported as u64);
                said.append(")");
            },
            Error::VaultManifestCorrupt(text) => {
                said.append("the vault manifest is missing or unreadable: ");
                said.append(text);
            },
            Error::UnsupportedVaultKind => {
                said.append("encrypted vaults are not supported by this build");
            },
            Error::VaultReadOnly => {
                said.append("this vault is open read-only and cannot be modified");
            },
            Error::VaultLocked => {
                said.append("this encrypted vault is locked");
            },
            Error::InvalidEncryptedVault(text) => {
                said.append("invalid encrypted vault: ");
                said.append(text);
            },
            Error::EncryptedVaultTargetNotEmpty(path) => {
                said.append(path);
                said.append(" already contains a vault or plaintext notes; an encrypted vault can only be created in an empty folder (converting an existing vault is not supported in this release)");
            },
            Error::ExportCancelled => {
                said.append("the export was cancelled");
            },
            Error::ExportUnsupportedContent { attachments } => {
                said.append("the vault holds ");
                push_decimal(&mut said, *attachments as u64);
                said.append(" attachment(s), which an ordinary vault cannot hold");
            },
            Error::ExportTargetInvalid(text) => {
                said.append("the export destination cannot be used: ");
                said.append(text);
            },
            Error::ExportFailed(text) => {
                said.append("the export failed: ");
                said.append(text);
            },
            Error::ExportCleanupFailed { temp } => {
                said.append("the export failed and left files behind at ");
                said.append(temp);
            },
        }
        proof {
            assert(said@ =~= message_of(*self));
        }
        said
    }
}

pub type Result<T> = core::result::Result<T, Error>;

} // verus!
