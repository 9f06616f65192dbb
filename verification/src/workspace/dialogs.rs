//! What the dialogs check and say.

use vstd::prelude::*;

use crate::constants::{DEFAULT_NOTEBOOK, MIN_PASSWORD_LENGTH};
use crate::error::{message_of, Error};
use crate::ident::Uuid;
use crate::model::{format_moment, moment_text, Note, Timestamp, MINUTE_PATTERN};
use crate::paths::{join_path, joined, valid_name, validate_notebook_name};
use crate::storage::{has_parent, stands_in_directory};
use crate::text::{
    chars_of, copy_text, decimal, join_texts, joined_texts, push_decimal, same_text, texts, trim,
    trimmed, words, words_of,
};
use crate::vault::{parent_of, parent_path};
use crate::vault_export::{ExportProgress, ExportReport};
use crate::workspace::document::{find_summary, summary_from, Workspace};
use crate::workspace::listing::{name_or, notebook_name};

verus! {

// Passwords.

/// What is wrong with an entered password.
pub open spec fn password_fault(
    password: Seq<char>,
    confirmation: Option<Seq<char>>,
    enforce_policy: bool,
) -> Option<Seq<char>> {
    if password.len() == 0 {
        Some("Enter a password."@)
    } else if confirmation matches Some(repeated) && repeated != password {
        Some("The passwords do not match."@)
    } else if enforce_policy && password.len() < MIN_PASSWORD_LENGTH {
        Some(
            "Password is too short. SenatorialNotes requires at least "@ + decimal(
                MIN_PASSWORD_LENGTH as nat,
            ) + " characters."@,
        )
    } else {
        None
    }
}

/// Checks a password that was entered. The dialog stays open with what it says.
pub fn check_password(password: &str, confirmation: Option<&str>, enforce_policy: bool) -> (fault: Option<
    String,
>)
    ensures
        password_fault(
            password@,
            match confirmation {
                Some(repeated) => Some(repeated@),
                None => None,
            },
            enforce_policy,
        ) == (match fault {
            Some(text) => Some(text@),
            None => None,
        }),
{
    if password.is_empty() {
        return Some("Enter a password.".to_owned());
    }
    if let Some(repeated) = confirmation {
        if !same_text(repeated, password) {
            return Some("The passwords do not match.".to_owned());
        }
    }
    if enforce_policy && chars_of(password).len() < MIN_PASSWORD_LENGTH {
        let mut text: String =
            "Password is too short. SenatorialNotes requires at least ".to_owned();
        push_decimal(&mut text, MIN_PASSWORD_LENGTH as u64);
        text.append(" characters.");
        return Some(text);
    }
    None
}

/// What is wrong with the entries for a change of password.
pub open spec fn change_fault(
    current: Seq<char>,
    new: Seq<char>,
    confirmation: Seq<char>,
) -> Option<Seq<char>> {
    if current.len() == 0 {
        Some("Enter the current password."@)
    } else if new.len() < MIN_PASSWORD_LENGTH {
        Some(
            "The new password is too short. SenatorialNotes requires at least "@ + decimal(
                MIN_PASSWORD_LENGTH as nat,
            ) + " characters."@,
        )
    } else if new != confirmation {
        Some("The new passwords do not match."@)
    } else {
        None
    }
}

/// Checks the entries for a change of password.
pub fn check_password_change(current: &str, new: &str, confirmation: &str) -> (fault: Option<String>)
    ensures
        change_fault(current@, new@, confirmation@) == (match fault {
            Some(text) => Some(text@),
            None => None,
        }),
{
    if current.is_empty() {
        return Some("Enter the current password.".to_owned());
    }
    if chars_of(new).len() < MIN_PASSWORD_LENGTH {
        let mut text: String =
            "The new password is too short. SenatorialNotes requires at least ".to_owned();
        push_decimal(&mut text, MIN_PASSWORD_LENGTH as u64);
        text.append(" characters.");
        return Some(text);
    }
    if !same_text(new, confirmation) {
        return Some("The new passwords do not match.".to_owned());
    }
    None
}

/// No password that is accepted where the policy holds is too short.
pub proof fn law_accepted_passwords_meet_the_policy(
    password: Seq<char>,
    confirmation: Option<Seq<char>>,
    current: Seq<char>,
)
    ensures
        password_fault(password, confirmation, true) is None ==> password.len()
            >= MIN_PASSWORD_LENGTH,
        change_fault(current, password, password) is None ==> password.len() >= MIN_PASSWORD_LENGTH,
        password_fault(password, confirmation, true) is None ==> (confirmation matches Some(repeated)
            ==> repeated == password),
{
}

/// Checks a name that was entered.
pub fn check_name(name: &str) -> (fault: Option<&'static str>)
    ensures
        match fault {
            Some(text) => trimmed(name@).len() == 0 && text@ == "Enter a name."@,
            None => trimmed(name@).len() > 0,
        },
{
    if trim(name).as_str().is_empty() {
        Some("Enter a name.")
    } else {
        None
    }
}

/// The path of a new notebook, within another where one is given, or what the
/// window says instead.
pub fn new_notebook_path(parent: Option<&str>, name: &str) -> (path: core::result::Result<
    String,
    &'static str,
>)
    ensures
        match path {
            Ok(path) => valid_name(trimmed(name@)) && path@ == (match parent {
                Some(parent) => joined(parent@, trimmed(name@)),
                None => trimmed(name@),
            }),
            Err(status) => !valid_name(trimmed(name@)) && status@
                == "Notebook names can't be empty or contain a path separator."@,
        },
{
    match validate_notebook_name(name) {
        Ok(checked) => match parent {
            Some(parent) => Ok(join_path(parent, &checked)),
            None => Ok(checked),
        },
        Err(_) => Err("Notebook names can't be empty or contain a path separator."),
    }
}

/// What the window says where the password of a note was not changed.
pub fn change_failure(error: &Error) -> (status: String)
    ensures
        status@ == (match *error {
            Error::DecryptionFailed => "The current password is incorrect. The note was not changed."@,
            Error::WeakPassword(detail) => "The new password is too short. "@ + detail@ + "."@,
            _ => "The password could not be changed: "@ + message_of(*error),
        }),
{
    match error {
        Error::DecryptionFailed => {
            "The current password is incorrect. The note was not changed.".to_owned()
        },
        Error::WeakPassword(detail) => {
            let mut status: String = "The new password is too short. ".to_owned();
            status.append(detail);
            status.append(".");
            status
        },
        other => {
            let mut status: String = "The password could not be changed: ".to_owned();
            status.append(&other.message());
            status
        },
    }
}

/// What the window says where the encryption of a note was not removed.
pub fn removal_failure(error: &Error) -> (status: String)
    ensures
        status@ == (match *error {
            Error::DecryptionFailed => "The password is incorrect. Encryption was not removed."@,
            _ => "Could not remove encryption: "@ + message_of(*error),
        }),
{
    match error {
        Error::DecryptionFailed => {
            "The password is incorrect. Encryption was not removed.".to_owned()
        },
        other => {
            let mut status: String = "Could not remove encryption: ".to_owned();
            status.append(&other.message());
            status
        },
    }
}

/// The path of the open note, where it is an encrypted one.
pub fn open_secret_path(workspace: &Workspace) -> (path: Option<String>)
    ensures
        match workspace@.active {
            Some(document) => if document is Encrypted {
                path matches Some(found) && found@ == document.spec_note().relative_path@
            } else {
                path is None
            },
            None => path is None,
        },
{
    match &workspace.active {
        Some(document) => {
            if document.is_encrypted() {
                Some(copy_text(&document.note().relative_path))
            } else {
                None
            }
        },
        None => None,
    }
}

// Export.

/// Why the vault that is open cannot be exported, or nothing where it can.
pub fn export_refusal(workspace: &Workspace) -> (refusal: Option<&'static str>)
    ensures
        match workspace@.vault {
            Some(vault) => if !vault.encrypted || vault.locked {
                refusal matches Some(text) && text@
                    == "Unlock the Secure Vault before exporting it."@
            } else if workspace@.read_only {
                refusal matches Some(text) && text@
                    == "This Secure Vault is open read-only; it cannot be exported yet."@
            } else {
                refusal is None
            },
            None => refusal matches Some(text) && text@.len() == 0,
        },
{
    match &workspace.vault {
        Some(vault) => {
            if !vault.encrypted || vault.locked {
                Some("Unlock the Secure Vault before exporting it.")
            } else if workspace.read_only {
                Some("This Secure Vault is open read-only; it cannot be exported yet.")
            } else {
                None
            }
        },
        None => {
            proof {
                reveal_strlit("");
            }
            Some("")
        },
    }
}

/// What the window says while an export is under way.
pub fn export_status(progress: &ExportProgress) -> (status: String)
    ensures
        status@ == (if progress.spec_cancelled() {
            "Cancelling…"@
        } else if progress.spec_total() == 0 {
            "Preparing…"@
        } else {
            "Exporting notes… "@ + decimal(progress.spec_done() as nat) + " / "@ + decimal(
                progress.spec_total() as nat,
            )
        }),
{
    if progress.is_cancelled() {
        return "Cancelling…".to_owned();
    }
    if progress.total() == 0 {
        return "Preparing…".to_owned();
    }
    let mut status: String = "Exporting notes… ".to_owned();
    push_decimal(&mut status, progress.done() as u64);
    status.append(" / ");
    push_decimal(&mut status, progress.total() as u64);
    status
}

/// What the window says of an export that is done.
pub fn export_summary(report: &ExportReport) -> (text: String)
    requires
        report.notes + report.snotes <= usize::MAX,
    ensures
        text@ == "Exported "@ + decimal((report.notes + report.snotes) as nat) + " note(s)"@ + (
        if report.trashed > 0 {
            " and "@ + decimal(report.trashed as nat) + " in Trash"@
        } else {
            seq![]
        }) + " to "@ + report.destination@ + ". The Secure Vault is unchanged."@,
{
    let mut text: String = "Exported ".to_owned();
    push_decimal(&mut text, (report.notes + report.snotes) as u64);
    text.append(" note(s)");
    if report.trashed > 0 {
        text.append(" and ");
        push_decimal(&mut text, report.trashed as u64);
        text.append(" in Trash");
    }
    text.append(" to ");
    text.append(&report.destination);
    text.append(". The Secure Vault is unchanged.");
    proof {
        assert(text@ =~= "Exported "@ + decimal((report.notes + report.snotes) as nat)
            + " note(s)"@ + (if report.trashed > 0 {
            " and "@ + decimal(report.trashed as nat) + " in Trash"@
        } else {
            seq![]
        }) + " to "@ + report.destination@ + ". The Secure Vault is unchanged."@);
    }
    text
}

// What is known of a note.

/// A moment as it is shown. A moment that has no date is not shown.
pub fn format_timestamp(moment: Timestamp) -> (text: String)
    ensures
        text@ == (match moment_text(moment.seconds, moment.nanos, MINUTE_PATTERN@) {
            Some(shown) => shown,
            None => seq![],
        }),
{
    match format_moment(moment.seconds, moment.nanos, MINUTE_PATTERN) {
        Some(text) => text,
        None => {
            let text = String::new();
            proof {
                assert(text@ =~= seq![]);
            }
            text
        },
    }
}

/// What is shown of an open note.
#[derive(Debug, PartialEq, Eq)]
pub struct NoteDetails {
    pub title: String,
    pub notebook: String,
    pub tags: String,
    pub created: Timestamp,
    pub modified: Timestamp,
    pub pinned: &'static str,
    pub archived: &'static str,
    pub encryption: &'static str,
    pub words: usize,
    pub characters: usize,
    pub location: String,
}

/// What is shown of a note.
#[derive(Debug, PartialEq, Eq)]
pub enum NoteInfo {
    /// Nothing is known but where the note is.
    Locked { location: String },
    Details(NoteDetails),
}

/// The name of the notebook that a note lies in.
pub open spec fn notebook_shown(relative: Seq<char>) -> Seq<char> {
    if has_parent(relative) {
        name_or(parent_path(relative), "Notebook"@)
    } else {
        name_or(DEFAULT_NOTEBOOK@, "Notebook"@)
    }
}

/// Whether this is what is shown of a note.
pub open spec fn details_of(details: NoteDetails, note: Note, encrypted: bool) -> bool {
    &&& details.title@ == note.metadata.title@
    &&& details.notebook@ == notebook_shown(note.relative_path@)
    &&& details.tags@ == (if note.metadata.tags@.len() == 0 {
        "None"@
    } else {
        joined_texts(note.metadata.tag_texts(), ", "@)
    })
    &&& details.created == note.metadata.created_at
    &&& details.modified == note.metadata.updated_at
    &&& details.pinned@ == (if note.metadata.pinned {
        "Yes"@
    } else {
        "No"@
    })
    &&& details.archived@ == (if note.metadata.archived {
        "Yes"@
    } else {
        "No"@
    })
    &&& details.encryption@ == (if encrypted {
        "Encrypted · unlocked"@
    } else {
        "Not encrypted"@
    })
    &&& details.words == words(note.body@).len()
    &&& details.characters == note.body@.len()
    &&& details.location@ == note.relative_path@
}

fn yes_or_no(value: bool) -> (text: &'static str)
    ensures
        text@ == (if value {
            "Yes"@
        } else {
            "No"@
        }),
{
    if value {
        "Yes"
    } else {
        "No"
    }
}

impl Workspace {
    /// What is shown of a note. Of one that is not open nothing is shown but
    /// where it is: what its password protects is not guessed at.
    pub fn note_info(&self, id: Uuid) -> (info: Option<NoteInfo>)
        ensures
            ({
                let at = summary_from(self@.notes, id, 0);
                if at == self@.notes.len() {
                    info is None
                } else {
                    match self@.active {
                        Some(document) => if document.spec_id() == id {
                            info matches Some(NoteInfo::Details(details)) && details_of(
                                details,
                                document.spec_note(),
                                document is Encrypted,
                            )
                        } else {
                            info matches Some(NoteInfo::Locked { location }) && location@
                                == self@.notes[at].relative_path@
                        },
                        None => info matches Some(NoteInfo::Locked { location }) && location@
                            == self@.notes[at].relative_path@,
                    }
                }
            }),
    {
        let at: usize = find_summary(&self.notes, id);
        if at == self.notes.len() {
            return None;
        }
        if let Some(document) = &self.active {
            if document.id() == id {
                let note = document.note();
                let parent = if stands_in_directory(&note.relative_path) {
                    parent_of(&note.relative_path)
                } else {
                    DEFAULT_NOTEBOOK.to_owned()
                };
                let tags = if note.metadata.tags.len() == 0 {
                    "None".to_owned()
                } else {
                    proof {
                        assert(note.metadata.tag_texts().take(
                            note.metadata.tags@.len() as int,
                        ) =~= note.metadata.tag_texts());
                    }
                    join_texts(&note.metadata.tags, note.metadata.tags.len(), ", ")
                };
                let found = words_of(&note.body);
                proof {
                    assert(texts(found@).len() == found@.len());
                }
                let encryption = if document.is_encrypted() {
                    "Encrypted · unlocked"
                } else {
                    "Not encrypted"
                };
                return Some(
                    NoteInfo::Details(
                        NoteDetails {
                            title: copy_text(&note.metadata.title),
                            notebook: notebook_name(&parent, "Notebook"),
                            tags,
                            created: note.metadata.created_at,
                            modified: note.metadata.updated_at,
                            pinned: yes_or_no(note.metadata.pinned),
                            archived: yes_or_no(note.metadata.archived),
                            encryption,
                            words: found.len(),
                            characters: chars_of(&note.body).len(),
                            location: copy_text(&note.relative_path),
                        },
                    ),
                );
            }
        }
        Some(NoteInfo::Locked { location: copy_text(&self.notes[at].relative_path) })
    }
}

// The settings of a vault.

/// The parts of the settings of a vault.
#[derive(Debug, PartialEq, Eq)]
pub struct VaultSettings {
    pub title: &'static str,
    /// Whether there is anything on locking and on security.
    pub secure: bool,
}

impl Workspace {
    /// The parts of the settings of the vault that is open. An ordinary vault
    /// has none on security.
    pub fn vault_settings(&self) -> (settings: Option<VaultSettings>)
        ensures
            match self@.vault {
                Some(vault) => settings matches Some(shown) && shown.secure == vault.encrypted
                    && shown.title@ == (if vault.encrypted {
                    "Secure Vault Settings"@
                } else {
                    "Vault Settings"@
                }),
                None => settings is None,
            },
    {
        match &self.vault {
            Some(vault) => {
                if vault.encrypted {
                    Some(VaultSettings { title: "Secure Vault Settings", secure: true })
                } else {
                    Some(VaultSettings { title: "Vault Settings", secure: false })
                }
            },
            None => None,
        }
    }
}

} // verus!
