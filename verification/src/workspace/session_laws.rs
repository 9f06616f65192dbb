//! What opening, locking and leaving a vault shows and keeps.

use vstd::prelude::*;

use crate::ident::Uuid;
use crate::paths::same_path;
use crate::text_laws::law_decimal_digits_read_back;
use crate::ui_state::token_of;
use crate::workspace::document::{
    document_from, summary_from, OpenVault, WorkspaceView,
};
use crate::workspace::menus::{item, note_menu};
use crate::workspace::session::{
    captured, contention_of, first_free, note_is_opened, open_step_of, others, quick_lock_of,
    secure_name, session_target_of, switched_to, vault_is_locked, LockOutcome, LockOwner,
    NoteOpening, OpenStep, QuickLock, SessionTarget,
};

verus! {

/// A vault is opened for writing only by who holds its lock; where another holds it
/// the vault is opened only to be read, or the user is asked. Before anything else
/// the user is asked about text in the clear that would be lost.
pub proof fn law_one_writer_at_a_time(
    is_current: bool,
    has_plaintext: bool,
    vault_read_only: bool,
    lock: LockOutcome,
)
    ensures
        ({
            let step = open_step_of(is_current, has_plaintext, vault_read_only, lock);
            &&& step == OpenStep::Commit { owner: true } ==> lock is Acquired
            &&& step == OpenStep::Commit { owner: false } ==> vault_read_only
            &&& step is Commit ==> !has_plaintext && !is_current
            &&& lock is Failed ==> !(step is Commit)
            &&& !is_current && has_plaintext ==> step is AskAboutPlaintext
            &&& is_current ==> step is AlreadyOpen
            &&& lock is Acquired && !is_current && !has_plaintext ==> step == OpenStep::Commit {
                owner: true,
            }
        }),
{
}

/// A lock is taken over only where its owner is proven to be gone; whoever only
/// closes the question changes nothing.
pub proof fn law_only_a_dead_owner_loses_the_lock(owner: LockOwner, button: i32)
    ensures
        contention_of(owner, button) is TakeOver ==> owner == LockOwner::ProvenDead,
        contention_of(owner, button) is ShowExistingWindow ==> owner == LockOwner::Live,
        button != 1 && button != 2 ==> contention_of(owner, button) is Cancel,
        button == 1 ==> contention_of(owner, button) is OpenReadOnly,
        button == 2 && owner == LockOwner::ProvenDead ==> contention_of(owner, button) is TakeOver,
{
}

/// A vault that was just opened is the open one, nothing of the one before it is
/// left, and it is only to be read unless it can be written and the lock is held.
pub proof fn law_a_switch_leaves_nothing_behind(
    before: WorkspaceView,
    vault: OpenVault,
    vault_read_only: bool,
    lock_owner: bool,
)
    ensures
        ({
            let after = switched_to(before, vault, vault_read_only, lock_owner);
            &&& after.vault == Some(vault)
            &&& after.read_only <==> vault_read_only || !lock_owner
            &&& after.notes.len() == 0
            &&& after.trash.len() == 0
            &&& after.active is None
            &&& after.unlocked.len() == 0
            &&& after.plain.len() == 0
            &&& !after.body_dirty
            &&& !after.title_dirty
            &&& after.title_draft.len() == 0
            &&& after.filter is None
            &&& after.flow.selected_note is None
            &&& after.flow.selected_trash is None
        }),
{
}

/// Locking a vault leaves no note of it in memory; a vault that is not encrypted, or
/// that is locked, is not locked.
pub proof fn law_a_locked_vault_shows_no_note(
    before: WorkspaceView,
    locked: bool,
    after: WorkspaceView,
)
    requires
        vault_is_locked(before, locked, after),
    ensures
        locked <==> (before.vault matches Some(vault) && vault.encrypted && !vault.locked),
        !locked ==> after == before,
        locked ==> {
            &&& after.vault matches Some(vault) && vault.locked && vault.encrypted
            &&& after.notes.len() == 0
            &&& after.trash.len() == 0
            &&& after.active is None
            &&& after.unlocked.len() == 0
            &&& after.plain.len() == 0
            &&& after.title_draft.len() == 0
            &&& after.flow.selected_note is None
        },
{
}

/// What is kept of the use of an encrypted vault never goes to the settings, which
/// are in the clear; that of a locked one goes nowhere.
pub proof fn law_nothing_secret_goes_to_the_settings(vault: OpenVault)
    ensures
        vault.encrypted ==> !(session_target_of(Some(vault)) is Settings),
        vault.encrypted && vault.locked ==> session_target_of(Some(vault)) is Nowhere,
        vault.encrypted && !vault.locked ==> session_target_of(Some(vault)) is Manifest,
        !vault.encrypted ==> session_target_of(Some(vault)) == SessionTarget::Settings(
            vault.vault_id,
        ),
        session_target_of(None) is Nowhere,
{
}

/// What is kept of the use of a vault is the note that is selected, the view that is
/// shown and the place in the editor; the history stays as it is.
pub proof fn law_the_use_of_a_vault_is_kept(before: WorkspaceView, editor_scroll: Option<u64>)
    requires
        before.vault is Some,
    ensures
        ({
            let after = captured(before, editor_scroll);
            &&& after.session.last_note == before.flow.selected_note
            &&& after.session.last_view == Some(token_of(before.flow.view))
            &&& after.session.editor_scroll == editor_scroll
            &&& after.session.recently_opened == before.session.recently_opened
            &&& after.notes == before.notes
            &&& after.flow == before.flow
            &&& after.active == before.active
        }),
{
}

proof fn lemma_summary_found(
    notes: Seq<crate::model::NoteSummary>,
    id: Uuid,
    at: int,
)
    requires
        0 <= at <= notes.len(),
    ensures
        at <= summary_from(notes, id, at) <= notes.len(),
        summary_from(notes, id, at) < notes.len() ==> notes[summary_from(notes, id, at)].id == id,
        summary_from(notes, id, at) == notes.len() ==> forall|i: int|
            at <= i < notes.len() ==> (#[trigger] notes[i]).id != id,
    decreases notes.len() - at,
{
    if at < notes.len() && notes[at].id != id {
        lemma_summary_found(notes, id, at + 1);
    }
}

/// A note in the clear is read from its own file and selected; one with a password of
/// its own is never read from its file without the password: it is shown where it is
/// unlocked, and else it stays locked.
pub proof fn law_an_encrypted_note_is_never_just_loaded(
    before: WorkspaceView,
    id: Uuid,
    ask: bool,
    opening: NoteOpening,
    after: WorkspaceView,
)
    requires
        note_is_opened(before, id, ask, opening, after),
    ensures
        opening matches NoteOpening::Load(path) ==> exists|i: int|
            0 <= i < before.notes.len() && (#[trigger] before.notes[i]).id == id
                && !before.notes[i].encrypted && before.notes[i].relative_path@ == path@,
        opening matches NoteOpening::Locked { path, ask: asks } ==> asks == ask && exists|i: int|
            0 <= i < before.notes.len() && (#[trigger] before.notes[i]).id == id
                && before.notes[i].encrypted && before.notes[i].relative_path@ == path@,
        opening is ShowUnlocked ==> document_from(before.unlocked, id, 0) < before.unlocked.len(),
        opening is Nothing ==> after == before,
        !(opening is Nothing) ==> after.flow.selected_note == Some(id),
        !(opening is Nothing) ==> !(after.flow.view is Trash),
        after.notes == before.notes,
        after.active == before.active,
        before.vault is Some && (exists|i: int|
            0 <= i < before.notes.len() && (#[trigger] before.notes[i]).id == id) ==> !(
        opening is Nothing),
{
    lemma_summary_found(before.notes, id, 0);
    let at = summary_from(before.notes, id, 0);
    if at < before.notes.len() {
        assert(before.notes[at].id == id);
    }
}

/// The button locks an encrypted note that is open, encrypts one in the clear that is
/// open, and unlocks an encrypted note that is selected.
pub proof fn law_the_lock_button_fits_the_note(workspace: WorkspaceView)
    ensures
        quick_lock_of(workspace) is Lock <==> (workspace.active matches Some(document)
            && document is Encrypted),
        quick_lock_of(workspace) is Encrypt <==> (workspace.active matches Some(document)
            && document is Plain),
        quick_lock_of(workspace) matches QuickLock::Unlock(id) ==> workspace.active is None
            && workspace.flow.selected_note == Some(id) && exists|i: int|
            0 <= i < workspace.notes.len() && (#[trigger] workspace.notes[i]).id == id
                && workspace.notes[i].encrypted,
{
    if let Some(id) = workspace.flow.selected_note {
        lemma_summary_found(workspace.notes, id, 0);
        let at = summary_from(workspace.notes, id, 0);
        if at < workspace.notes.len() {
            assert(workspace.notes[at].id == id);
        }
    }
}

/// The menu of a note offers to encrypt it where it is not encrypted, and only there;
/// it offers to undo a mark that is set and to set one that is not.
pub proof fn law_a_menu_offers_what_can_be_done(pinned: bool, archived: bool, encrypted: bool)
    ensures
        ({
            let menu = note_menu(pinned, archived, encrypted);
            &&& menu.contains(item("Encrypt Note…"@, "app.context-encrypt"@)) <==> !encrypted
            &&& menu.contains(item("Unpin"@, "app.context-toggle-pin"@)) <==> pinned
            &&& menu.contains(item("Pin"@, "app.context-toggle-pin"@)) <==> !pinned
            &&& menu.contains(item("Unarchive"@, "app.context-toggle-archived"@)) <==> archived
            &&& menu.contains(item("Archive"@, "app.context-toggle-archived"@)) <==> !archived
            &&& menu.contains(item("Move to Trash"@, "app.context-move-to-trash"@))
        }),
{
    let menu = note_menu(pinned, archived, encrypted);
    reveal_strlit("Encrypt Note…");
    reveal_strlit("Rename");
    reveal_strlit("Unpin");
    reveal_strlit("Pin");
    reveal_strlit("Toggle Favourite");
    reveal_strlit("Unarchive");
    reveal_strlit("Archive");
    reveal_strlit("Move to Notebook…");
    reveal_strlit("Note Information");
    reveal_strlit("Move to Trash");
    assert("Pin"@.len() == 3 && "Unpin"@.len() == 5);
    assert("Archive"@.len() == 7 && "Unarchive"@.len() == 9);
    assert("Rename"@.len() == 6 && "Toggle Favourite"@.len() == 16);
    assert("Encrypt Note…"@.len() == 13 && "Move to Trash"@.len() == 13);
    assert("Encrypt Note…"@[0] == 'E' && "Move to Trash"@[0] == 'M');
    assert("Move to Notebook…"@.len() == 17 && "Note Information"@.len() == 16);
    let size = menu.len() as int;
    assert(menu[1] == item(
        if pinned {
            "Unpin"@
        } else {
            "Pin"@
        },
        "app.context-toggle-pin"@,
    ));
    assert(menu[3] == item(
        if archived {
            "Unarchive"@
        } else {
            "Archive"@
        },
        "app.context-toggle-archived"@,
    ));
    if !encrypted {
        assert(menu[5] == item("Encrypt Note…"@, "app.context-encrypt"@));
    }
    assert(menu[size - 1] == item("Move to Trash"@, "app.context-move-to-trash"@));
}

/// The recent vaults that are offered are all but the one that is open, in their
/// order.
pub proof fn law_the_open_vault_is_not_offered(
    recents: Seq<Seq<char>>,
    resolved: Seq<Seq<char>>,
    current: Seq<char>,
    at: int,
)
    requires
        recents.len() == resolved.len(),
        0 <= at < recents.len(),
    ensures
        ({
            let earlier = others(recents.take(at), resolved, Some(current)).len() as int;
            let shown = others(recents, resolved, Some(current));
            &&& !same_path(current, resolved[at]) ==> earlier < shown.len() && shown[earlier]
                == recents[at]
            &&& others(recents.take(at + 1), resolved, Some(current)).len() == earlier + (
            if same_path(current, resolved[at]) {
                0int
            } else {
                1int
            })
        }),
        others(recents, resolved, None) == recents,
{
    let upto = recents.take(at + 1);
    assert(upto.drop_last() =~= recents.take(at));
    assert(upto.last() == recents[at]);
    lemma_others_prefix(recents, resolved, current, at + 1);
    lemma_all_offered(recents, resolved);
}

proof fn lemma_others_prefix(
    recents: Seq<Seq<char>>,
    resolved: Seq<Seq<char>>,
    current: Seq<char>,
    upto: int,
)
    requires
        0 <= upto <= recents.len(),
    ensures
        ({
            let some = others(recents.take(upto), resolved, Some(current));
            let all = others(recents, resolved, Some(current));
            some.len() <= all.len() && forall|i: int|
                0 <= i < some.len() ==> #[trigger] all[i] == some[i]
        }),
    decreases recents.len() - upto,
{
    if upto == recents.len() {
        assert(recents.take(upto) =~= recents);
    } else {
        lemma_others_prefix(recents, resolved, current, upto + 1);
        let next = recents.take(upto + 1);
        assert(next.drop_last() =~= recents.take(upto));
        let some = others(recents.take(upto), resolved, Some(current));
        let more = others(next, resolved, Some(current));
        let all = others(recents, resolved, Some(current));
        assert forall|i: int| 0 <= i < some.len() implies #[trigger] all[i] == some[i] by {
            assert(more[i] == some[i]);
        }
    }
}

proof fn lemma_all_offered(recents: Seq<Seq<char>>, resolved: Seq<Seq<char>>)
    ensures
        others(recents, resolved, None) == recents,
    decreases recents.len(),
{
    if recents.len() > 0 {
        lemma_all_offered(recents.drop_last(), resolved);
        assert(recents.drop_last().push(recents.last()) =~= recents);
    } else {
        assert(others(recents, resolved, None) =~= recents);
    }
}

/// A new encrypted vault gets the first folder that is free, and no two numbers give
/// the same folder.
pub proof fn law_the_first_free_folder_is_taken(free: Seq<bool>, one: nat, other: nat)
    ensures
        0 <= first_free(free, 0) <= free.len(),
        first_free(free, 0) < free.len() ==> free[first_free(free, 0)],
        forall|i: int| 0 <= i < first_free(free, 0) ==> !(#[trigger] free[i]),
        one != other ==> secure_name(one) != secure_name(other),
{
    lemma_first_free(free, 0);
    reveal_strlit("Secure");
    reveal_strlit("Secure ");
    assert("Secure"@.len() == 6 && "Secure "@.len() == 7);
    law_decimal_digits_read_back(one + 1);
    law_decimal_digits_read_back(other + 1);
    if one != other && one > 0 && other > 0 && secure_name(one) == secure_name(other) {
        assert(secure_name(one).skip(7) =~= crate::text::decimal(one + 1));
        assert(secure_name(other).skip(7) =~= crate::text::decimal(other + 1));
    }
}

proof fn lemma_first_free(free: Seq<bool>, at: int)
    requires
        0 <= at <= free.len(),
    ensures
        at <= first_free(free, at) <= free.len(),
        first_free(free, at) < free.len() ==> free[first_free(free, at)],
        forall|i: int| at <= i < first_free(free, at) ==> !(#[trigger] free[i]),
    decreases free.len() - at,
{
    if at < free.len() && !free[at] {
        lemma_first_free(free, at + 1);
    }
}

} // verus!
