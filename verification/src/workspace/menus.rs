//! The menus and buttons of a note, a notebook and the trash.

use vstd::prelude::*;

use crate::config::SortOrder;
use crate::formatting::FormatAction;
use crate::text::same_text;
use crate::workspace::document::{find_summary, summary_from, Workspace};

verus! {

/// An item of a menu: its label and the action that it starts.
#[derive(Clone, Copy, Debug, PartialEq, Eq)]
pub struct MenuItem {
    pub label: &'static str,
    pub action: &'static str,
}

/// An item as texts.
#[verifier::ext_equal]
pub struct ItemView {
    pub label: Seq<char>,
    pub action: Seq<char>,
}

impl MenuItem {
    pub open spec fn shown(&self) -> ItemView {
        ItemView { label: self.label@, action: self.action@ }
    }
}

/// The items of a menu as texts.
pub open spec fn items_shown(items: Seq<MenuItem>) -> Seq<ItemView> {
    Seq::new(items.len(), |i: int| items[i].shown())
}

/// An item with a label and an action.
pub open spec fn item(label: Seq<char>, action: Seq<char>) -> ItemView {
    ItemView { label, action }
}

/// A menu where a condition holds, and else an empty one.
pub open spec fn items_if(condition: bool, items: Seq<ItemView>) -> Seq<ItemView> {
    if condition {
        items
    } else {
        seq![]
    }
}

fn push_item(items: &mut Vec<MenuItem>, label: &'static str, action: &'static str)
    ensures
        items_shown(final(items)@) == items_shown(old(items)@).push(item(label@, action@)),
{
    items.push(MenuItem { label, action });
    proof {
        assert(items_shown(items@) =~= items_shown(old(items)@).push(item(label@, action@)));
    }
}

/// The menu of a note in the list.
pub open spec fn note_menu(pinned: bool, archived: bool, encrypted: bool) -> Seq<ItemView> {
    seq![
        item("Rename"@, "app.context-rename"@),
        item(
            if pinned {
                "Unpin"@
            } else {
                "Pin"@
            },
            "app.context-toggle-pin"@,
        ),
        item("Toggle Favourite"@, "app.context-toggle-favourite"@),
        item(
            if archived {
                "Unarchive"@
            } else {
                "Archive"@
            },
            "app.context-toggle-archived"@,
        ),
        item("Move to Notebook…"@, "app.context-move-to-notebook"@),
    ] + items_if(!encrypted, seq![item("Encrypt Note…"@, "app.context-encrypt"@)]) + seq![
        item("Note Information"@, "app.context-note-info"@),
        item("Move to Trash"@, "app.context-move-to-trash"@),
    ]
}

/// The menu of a note in the list.
pub fn note_context_menu(pinned: bool, archived: bool, encrypted: bool) -> (items: Vec<MenuItem>)
    ensures
        items_shown(items@) == note_menu(pinned, archived, encrypted),
{
    let mut items: Vec<MenuItem> = Vec::new();
    push_item(&mut items, "Rename", "app.context-rename");
    let pin = if pinned {
        "Unpin"
    } else {
        "Pin"
    };
    push_item(&mut items, pin, "app.context-toggle-pin");
    push_item(&mut items, "Toggle Favourite", "app.context-toggle-favourite");
    let archive = if archived {
        "Unarchive"
    } else {
        "Archive"
    };
    push_item(&mut items, archive, "app.context-toggle-archived");
    push_item(&mut items, "Move to Notebook…", "app.context-move-to-notebook");
    if !encrypted {
        push_item(&mut items, "Encrypt Note…", "app.context-encrypt");
    }
    push_item(&mut items, "Note Information", "app.context-note-info");
    push_item(&mut items, "Move to Trash", "app.context-move-to-trash");
    items
}

/// The menu of a note in the trash.
pub fn trash_context_menu() -> (items: Vec<MenuItem>)
    ensures
        items_shown(items@) == seq![
            item("Restore"@, "app.context-restore"@),
            item("Permanently Delete…"@, "app.context-permanently-delete"@),
        ],
{
    let mut items: Vec<MenuItem> = Vec::new();
    push_item(&mut items, "Restore", "app.context-restore");
    push_item(&mut items, "Permanently Delete…", "app.context-permanently-delete");
    items
}

/// The menu of a notebook.
pub fn notebook_context_menu() -> (items: Vec<MenuItem>)
    ensures
        items_shown(items@) == seq![
            item("New Child Notebook…"@, "app.new-child-notebook"@),
            item("Rename…"@, "app.rename-notebook"@),
            item("Delete…"@, "app.delete-notebook"@),
        ],
{
    let mut items: Vec<MenuItem> = Vec::new();
    push_item(&mut items, "New Child Notebook…", "app.new-child-notebook");
    push_item(&mut items, "Rename…", "app.rename-notebook");
    push_item(&mut items, "Delete…", "app.delete-notebook");
    items
}

/// The sections of the menu beside the open or selected note.
pub struct OverflowMenu {
    pub organise: Vec<MenuItem>,
    /// Left out where it is empty.
    pub encryption: Vec<MenuItem>,
    pub info: Vec<MenuItem>,
    /// Left out where it is empty.
    pub danger: Vec<MenuItem>,
}

/// The menu beside the open or selected note. What changes the vault is left
/// out where the vault is read only.
pub fn note_overflow_menu(archived: bool, encrypted: bool, has_active: bool, read_only: bool) -> (menu:
    OverflowMenu)
    ensures
        items_shown(menu.organise@) == items_if(
            !read_only,
            seq![
                item("Rename"@, "app.context-rename"@),
                item("Move to Notebook…"@, "app.context-move-to-notebook"@),
            ],
        ) + seq![
            item(
                if archived {
                    "Unarchive"@
                } else {
                    "Archive"@
                },
                "app.context-toggle-archived"@,
            ),
        ],
        items_shown(menu.encryption@) == items_if(
            encrypted && has_active,
            seq![
                item("Change Note Password…"@, "app.change-password"@),
                item("Remove Note Encryption…"@, "app.remove-encryption"@),
            ],
        ) + items_if(
            !encrypted && !read_only,
            seq![item("Encrypt Note…"@, "app.context-encrypt"@)],
        ),
        items_shown(menu.info@) == seq![item("Note Information"@, "app.context-note-info"@)],
        items_shown(menu.danger@) == items_if(
            !read_only,
            seq![item("Delete"@, "app.context-move-to-trash"@)],
        ),
{
    let mut organise: Vec<MenuItem> = Vec::new();
    if !read_only {
        push_item(&mut organise, "Rename", "app.context-rename");
        push_item(&mut organise, "Move to Notebook…", "app.context-move-to-notebook");
    }
    let archive = if archived {
        "Unarchive"
    } else {
        "Archive"
    };
    push_item(&mut organise, archive, "app.context-toggle-archived");
    let mut encryption: Vec<MenuItem> = Vec::new();
    if encrypted {
        if has_active {
            push_item(&mut encryption, "Change Note Password…", "app.change-password");
            push_item(&mut encryption, "Remove Note Encryption…", "app.remove-encryption");
        }
    } else if !read_only {
        push_item(&mut encryption, "Encrypt Note…", "app.context-encrypt");
    }
    let mut info: Vec<MenuItem> = Vec::new();
    push_item(&mut info, "Note Information", "app.context-note-info");
    let mut danger: Vec<MenuItem> = Vec::new();
    if !read_only {
        push_item(&mut danger, "Delete", "app.context-move-to-trash");
    }
    OverflowMenu { organise, encryption, info, danger }
}

/// The buttons beside the title of the open or selected note.
#[derive(Debug, PartialEq, Eq)]
pub struct QuickActions {
    /// The place of the note's summary.
    pub summary: usize,
    pub lock_icon: &'static str,
    pub lock_tip: &'static str,
    pub lock_enabled: bool,
    pub favourite_icon: &'static str,
    pub favourite_tip: &'static str,
    pub pin_tip: &'static str,
    /// Whether the marks can be changed.
    pub marks_enabled: bool,
}

impl Workspace {
    /// The buttons beside the title, or none where no note is open or selected.
    /// A locked note can be unlocked even where the vault is read only, but its
    /// marks cannot be changed.
    pub fn quick_actions(&self) -> (actions: Option<QuickActions>)
        ensures
            ({
                let id = match self@.active {
                    Some(document) => Some(document.spec_id()),
                    None => self@.flow.selected_note,
                };
                match id {
                    None => actions is None,
                    Some(id) => {
                        let at = summary_from(self@.notes, id, 0);
                        let summary = self@.notes[at];
                        let open_secret = self@.active matches Some(document)
                            && document is Encrypted;
                        let locked = summary.encrypted && self@.active is None;
                        if at == self@.notes.len() {
                            actions is None
                        } else {
                            actions matches Some(shown) && {
                                &&& shown.summary == at
                                &&& shown.lock_icon@ == (if open_secret || locked {
                                    "changes-prevent-symbolic"@
                                } else {
                                    "changes-allow-symbolic"@
                                })
                                &&& shown.lock_tip@ == (if open_secret {
                                    "Lock Note"@
                                } else if locked {
                                    "Unlock Note"@
                                } else {
                                    "Encrypt Note"@
                                })
                                &&& shown.lock_enabled == (locked || !self@.read_only)
                                &&& shown.favourite_icon@ == (if summary.favourite {
                                    "starred-symbolic"@
                                } else {
                                    "non-starred-symbolic"@
                                })
                                &&& shown.favourite_tip@ == (if summary.favourite {
                                    "Remove from Favourites"@
                                } else {
                                    "Add to Favourites"@
                                })
                                &&& shown.pin_tip@ == (if summary.pinned {
                                    "Unpin Note"@
                                } else {
                                    "Pin Note"@
                                })
                                &&& shown.marks_enabled == (!locked && !self@.read_only)
                            }
                        }
                    },
                }
            }),
    {
        let id = match self.current_note_id() {
            Some(id) => id,
            None => {
                return None;
            },
        };
        let at: usize = find_summary(&self.notes, id);
        if at == self.notes.len() {
            return None;
        }
        let summary = &self.notes[at];
        let open_secret = match &self.active {
            Some(document) => document.is_encrypted(),
            None => false,
        };
        let locked = summary.encrypted && self.active.is_none();
        let (lock_icon, lock_tip) = if open_secret {
            ("changes-prevent-symbolic", "Lock Note")
        } else if locked {
            ("changes-prevent-symbolic", "Unlock Note")
        } else {
            ("changes-allow-symbolic", "Encrypt Note")
        };
        let (favourite_icon, favourite_tip) = if summary.favourite {
            ("starred-symbolic", "Remove from Favourites")
        } else {
            ("non-starred-symbolic", "Add to Favourites")
        };
        let pin_tip = if summary.pinned {
            "Unpin Note"
        } else {
            "Pin Note"
        };
        Some(
            QuickActions {
                summary: at,
                lock_icon,
                lock_tip,
                lock_enabled: locked || !self.read_only,
                favourite_icon,
                favourite_tip,
                pin_tip,
                marks_enabled: !locked && !self.read_only,
            },
        )
    }
}

/// The menu of the application, by its sections.
pub struct ApplicationMenu {
    pub vaults: Vec<MenuItem>,
    /// For a sealed vault that is unlocked.
    pub vault_security: Vec<MenuItem>,
    pub note_security: Vec<MenuItem>,
    pub note: Vec<MenuItem>,
    /// Without a section: before the section on encrypted notes, and at the end.
    pub preferences: MenuItem,
    pub about: MenuItem,
    pub quit: MenuItem,
}

/// The menu of the application.
pub fn application_menu() -> (menu: ApplicationMenu)
    ensures
        items_shown(menu.vaults@) == seq![
            item("Open Vault…"@, "app.open-vault"@),
            item("Create Vault…"@, "app.create-vault"@),
            item("Create Secure Vault…"@, "app.create-encrypted-vault"@),
            item("Vault Settings…"@, "app.vault-settings"@),
        ],
        items_shown(menu.vault_security@) == seq![
            item("Lock Vault"@, "app.lock-vault"@),
            item("Change Vault Password…"@, "app.change-vault-password"@),
            item("Export to Standard Vault…"@, "app.export-standard-vault"@),
        ],
        items_shown(menu.note_security@) == seq![
            item("Encrypt Note…"@, "app.encrypt-note"@),
            item("Lock Note"@, "app.lock-note"@),
            item("Change Note Password…"@, "app.change-password"@),
            item("Remove Note Encryption…"@, "app.remove-encryption"@),
        ],
        items_shown(menu.note@) == seq![
            item("Note Information"@, "app.note-info"@),
            item("Move to Trash"@, "app.move-to-trash"@),
        ],
        menu.preferences.shown() == item("Preferences"@, "app.preferences"@),
        menu.about.shown() == item("About SenatorialNotes"@, "app.about"@),
        menu.quit.shown() == item("Quit"@, "app.quit"@),
{
    let mut vaults: Vec<MenuItem> = Vec::new();
    push_item(&mut vaults, "Open Vault…", "app.open-vault");
    push_item(&mut vaults, "Create Vault…", "app.create-vault");
    push_item(&mut vaults, "Create Secure Vault…", "app.create-encrypted-vault");
    push_item(&mut vaults, "Vault Settings…", "app.vault-settings");
    let mut vault_security: Vec<MenuItem> = Vec::new();
    push_item(&mut vault_security, "Lock Vault", "app.lock-vault");
    push_item(&mut vault_security, "Change Vault Password…", "app.change-vault-password");
    push_item(&mut vault_security, "Export to Standard Vault…", "app.export-standard-vault");
    let mut note_security: Vec<MenuItem> = Vec::new();
    push_item(&mut note_security, "Encrypt Note…", "app.encrypt-note");
    push_item(&mut note_security, "Lock Note", "app.lock-note");
    push_item(&mut note_security, "Change Note Password…", "app.change-password");
    push_item(&mut note_security, "Remove Note Encryption…", "app.remove-encryption");
    let mut note: Vec<MenuItem> = Vec::new();
    push_item(&mut note, "Note Information", "app.note-info");
    push_item(&mut note, "Move to Trash", "app.move-to-trash");
    ApplicationMenu {
        vaults,
        vault_security,
        note_security,
        note,
        preferences: MenuItem { label: "Preferences", action: "app.preferences" },
        about: MenuItem { label: "About SenatorialNotes", action: "app.about" },
        quit: MenuItem { label: "Quit", action: "app.quit" },
    }
}

/// The menu of the orders: a label, and the name of the order.
pub fn sort_menu() -> (items: Vec<MenuItem>)
    ensures
        items_shown(items@) == seq![
            item("Last Edited"@, order_name(Some(SortOrder::LastEdited))),
            item("Date Created"@, order_name(Some(SortOrder::DateCreated))),
            item("Title A–Z"@, order_name(Some(SortOrder::TitleAsc))),
            item("Title Z–A"@, order_name(Some(SortOrder::TitleZa))),
        ],
{
    let mut items: Vec<MenuItem> = Vec::new();
    push_item(&mut items, "Last Edited", sort_target(Some(SortOrder::LastEdited)));
    push_item(&mut items, "Date Created", sort_target(Some(SortOrder::DateCreated)));
    push_item(&mut items, "Title A–Z", sort_target(Some(SortOrder::TitleAsc)));
    push_item(&mut items, "Title Z–A", sort_target(Some(SortOrder::TitleZa)));
    items
}

/// The menus of the formatting bar, by their sections.
pub struct FormatMenus {
    pub paragraphs: Vec<MenuItem>,
    pub inline: Vec<MenuItem>,
    pub blocks: Vec<MenuItem>,
}

/// The menus of the formatting bar.
pub fn format_menus() -> (menus: FormatMenus)
    ensures
        items_shown(menus.paragraphs@) == seq![
            item("Normal text"@, "app.format-normal"@),
            item("Heading 1"@, "app.format-heading-1"@),
            item("Heading 2"@, "app.format-heading-2"@),
            item("Heading 3"@, "app.format-heading-3"@),
        ],
        items_shown(menus.inline@) == seq![
            item("Strikethrough"@, "app.format-strikethrough"@),
            item("Highlight"@, "app.format-highlight"@),
            item("Inline code"@, "app.format-inline-code"@),
            item("Link"@, "app.format-link"@),
        ],
        items_shown(menus.blocks@) == seq![
            item("Code block"@, "app.format-code-block"@),
            item("Quote"@, "app.format-quote"@),
            item("Bulleted list"@, "app.format-bulleted-list"@),
            item("Numbered list"@, "app.format-numbered-list"@),
            item("Checklist"@, "app.format-checklist"@),
            item("Horizontal divider"@, "app.format-divider"@),
        ],
{
    let mut paragraphs: Vec<MenuItem> = Vec::new();
    push_item(&mut paragraphs, "Normal text", "app.format-normal");
    push_item(&mut paragraphs, "Heading 1", "app.format-heading-1");
    push_item(&mut paragraphs, "Heading 2", "app.format-heading-2");
    push_item(&mut paragraphs, "Heading 3", "app.format-heading-3");
    let mut inline: Vec<MenuItem> = Vec::new();
    push_item(&mut inline, "Strikethrough", "app.format-strikethrough");
    push_item(&mut inline, "Highlight", "app.format-highlight");
    push_item(&mut inline, "Inline code", "app.format-inline-code");
    push_item(&mut inline, "Link", "app.format-link");
    let mut blocks: Vec<MenuItem> = Vec::new();
    push_item(&mut blocks, "Code block", "app.format-code-block");
    push_item(&mut blocks, "Quote", "app.format-quote");
    push_item(&mut blocks, "Bulleted list", "app.format-bulleted-list");
    push_item(&mut blocks, "Numbered list", "app.format-numbered-list");
    push_item(&mut blocks, "Checklist", "app.format-checklist");
    push_item(&mut blocks, "Horizontal divider", "app.format-divider");
    FormatMenus { paragraphs, inline, blocks }
}

// Actions with a name.

/// The name of an order among the actions.
pub open spec fn order_name(order: Option<SortOrder>) -> Seq<char> {
    match order {
        None => "last-edited"@,
        Some(SortOrder::LastEdited) => "last-edited"@,
        Some(SortOrder::DateCreated) => "date-created"@,
        Some(SortOrder::TitleAsc) => "title-asc"@,
        Some(SortOrder::TitleZa) => "title-za"@,
    }
}

/// The name of an order among the actions.
pub fn sort_target(order: Option<SortOrder>) -> (target: &'static str)
    ensures
        target@ == order_name(order),
{
    match order {
        None => "last-edited",
        Some(SortOrder::LastEdited) => "last-edited",
        Some(SortOrder::DateCreated) => "date-created",
        Some(SortOrder::TitleAsc) => "title-asc",
        Some(SortOrder::TitleZa) => "title-za",
    }
}

/// The order with a name.
pub fn order_of_target(target: &str) -> (order: Option<SortOrder>)
    ensures
        match order {
            Some(found) => target@ == order_name(Some(found)),
            None => forall|known: SortOrder| target@ != #[trigger] order_name(Some(known)),
        },
{
    if same_text(target, "last-edited") {
        Some(SortOrder::LastEdited)
    } else if same_text(target, "date-created") {
        Some(SortOrder::DateCreated)
    } else if same_text(target, "title-asc") {
        Some(SortOrder::TitleAsc)
    } else if same_text(target, "title-za") {
        Some(SortOrder::TitleZa)
    } else {
        None
    }
}

/// Every order has a name of its own.
pub proof fn law_order_names_are_distinct(left: SortOrder, right: SortOrder)
    requires
        order_name(Some(left)) == order_name(Some(right)),
    ensures
        left == right,
{
    reveal_strlit("last-edited");
    reveal_strlit("date-created");
    reveal_strlit("title-asc");
    reveal_strlit("title-za");
    assert("last-edited"@[0] != "date-created"@[0]);
    assert("last-edited"@[0] != "title-asc"@[0]);
    assert("date-created"@[0] != "title-asc"@[0]);
    assert("title-asc"@.len() != "title-za"@.len());
}

/// The name of the action for a format.
pub open spec fn format_name(action: FormatAction) -> Seq<char> {
    match action {
        FormatAction::Normal => "format-normal"@,
        FormatAction::Heading1 => "format-heading-1"@,
        FormatAction::Heading2 => "format-heading-2"@,
        FormatAction::Heading3 => "format-heading-3"@,
        FormatAction::Bold => "format-bold"@,
        FormatAction::Italic => "format-italic"@,
        FormatAction::Strikethrough => "format-strikethrough"@,
        FormatAction::Highlight => "format-highlight"@,
        FormatAction::InlineCode => "format-inline-code"@,
        FormatAction::CodeBlock => "format-code-block"@,
        FormatAction::Quote => "format-quote"@,
        FormatAction::BulletedList => "format-bulleted-list"@,
        FormatAction::NumberedList => "format-numbered-list"@,
        FormatAction::Checklist => "format-checklist"@,
        FormatAction::Link => "format-link"@,
        FormatAction::HorizontalDivider => "format-divider"@,
    }
}

/// The name of the action for a format.
pub fn format_action_name(action: FormatAction) -> (name: &'static str)
    ensures
        name@ == format_name(action),
{
    match action {
        FormatAction::Normal => "format-normal",
        FormatAction::Heading1 => "format-heading-1",
        FormatAction::Heading2 => "format-heading-2",
        FormatAction::Heading3 => "format-heading-3",
        FormatAction::Bold => "format-bold",
        FormatAction::Italic => "format-italic",
        FormatAction::Strikethrough => "format-strikethrough",
        FormatAction::Highlight => "format-highlight",
        FormatAction::InlineCode => "format-inline-code",
        FormatAction::CodeBlock => "format-code-block",
        FormatAction::Quote => "format-quote",
        FormatAction::BulletedList => "format-bulleted-list",
        FormatAction::NumberedList => "format-numbered-list",
        FormatAction::Checklist => "format-checklist",
        FormatAction::Link => "format-link",
        FormatAction::HorizontalDivider => "format-divider",
    }
}

/// All formats that have an action.
pub fn format_actions() -> (actions: Vec<FormatAction>)
    ensures
        forall|action: FormatAction| #[trigger] actions@.contains(action),
        actions@.len() == 16,
{
    let mut actions: Vec<FormatAction> = Vec::new();
    actions.push(FormatAction::Normal);
    actions.push(FormatAction::Heading1);
    actions.push(FormatAction::Heading2);
    actions.push(FormatAction::Heading3);
    actions.push(FormatAction::Bold);
    actions.push(FormatAction::Italic);
    actions.push(FormatAction::Strikethrough);
    actions.push(FormatAction::Highlight);
    actions.push(FormatAction::InlineCode);
    actions.push(FormatAction::CodeBlock);
    actions.push(FormatAction::Quote);
    actions.push(FormatAction::BulletedList);
    actions.push(FormatAction::NumberedList);
    actions.push(FormatAction::Checklist);
    actions.push(FormatAction::Link);
    actions.push(FormatAction::HorizontalDivider);
    proof {
        assert forall|action: FormatAction| #[trigger] actions@.contains(action) by {
            let at: int = match action {
                FormatAction::Normal => 0,
                FormatAction::Heading1 => 1,
                FormatAction::Heading2 => 2,
                FormatAction::Heading3 => 3,
                FormatAction::Bold => 4,
                FormatAction::Italic => 5,
                FormatAction::Strikethrough => 6,
                FormatAction::Highlight => 7,
                FormatAction::InlineCode => 8,
                FormatAction::CodeBlock => 9,
                FormatAction::Quote => 10,
                FormatAction::BulletedList => 11,
                FormatAction::NumberedList => 12,
                FormatAction::Checklist => 13,
                FormatAction::Link => 14,
                FormatAction::HorizontalDivider => 15,
            };
            assert(actions@[at] == action);
        }
    }
    actions
}

/// The keys that start an action, where there are any.
pub fn accelerator(action: &str) -> (keys: Option<&'static str>)
    ensures
        match keys {
            Some(keys) => has_keys(action@, keys@),
            None => forall|keys: Seq<char>| !#[trigger] has_keys(action@, keys),
        },
{
    if same_text(action, "app.new-note") {
        Some("<Primary>n")
    } else if same_text(action, "app.save") {
        Some("<Primary>s")
    } else if same_text(action, "app.open-vault") {
        Some("<Primary>o")
    } else if same_text(action, "app.preferences") {
        Some("<Primary>comma")
    } else if same_text(action, "app.focus-search") {
        Some("<Primary><Shift>f")
    } else if same_text(action, "app.focus-note-list") {
        Some("<Primary>1")
    } else if same_text(action, "app.focus-editor") {
        Some("<Primary>2")
    } else if same_text(action, "app.next-note") {
        Some("<Primary>bracketright")
    } else if same_text(action, "app.previous-note") {
        Some("<Primary>bracketleft")
    } else if same_text(action, "app.toggle-pin") {
        Some("<Primary><Shift>p")
    } else if same_text(action, "app.toggle-archived") {
        Some("<Primary><Shift>a")
    } else if same_text(action, "app.note-info") {
        Some("<Alt>Return")
    } else if same_text(action, "app.new-notebook") {
        Some("<Primary><Shift>n")
    } else if same_text(action, "app.quit") {
        Some("<Primary>q")
    } else if same_text(action, "app.format-bold") {
        Some("<Primary>b")
    } else if same_text(action, "app.format-italic") {
        Some("<Primary>i")
    } else if same_text(action, "app.format-link") {
        Some("<Primary>k")
    } else {
        None
    }
}

/// Whether keys start an action.
pub open spec fn has_keys(action: Seq<char>, keys: Seq<char>) -> bool {
    ||| action == "app.new-note"@ && keys == "<Primary>n"@
    ||| action == "app.save"@ && keys == "<Primary>s"@
    ||| action == "app.open-vault"@ && keys == "<Primary>o"@
    ||| action == "app.preferences"@ && keys == "<Primary>comma"@
    ||| action == "app.focus-search"@ && keys == "<Primary><Shift>f"@
    ||| action == "app.focus-note-list"@ && keys == "<Primary>1"@
    ||| action == "app.focus-editor"@ && keys == "<Primary>2"@
    ||| action == "app.next-note"@ && keys == "<Primary>bracketright"@
    ||| action == "app.previous-note"@ && keys == "<Primary>bracketleft"@
    ||| action == "app.toggle-pin"@ && keys == "<Primary><Shift>p"@
    ||| action == "app.toggle-archived"@ && keys == "<Primary><Shift>a"@
    ||| action == "app.note-info"@ && keys == "<Alt>Return"@
    ||| action == "app.new-notebook"@ && keys == "<Primary><Shift>n"@
    ||| action == "app.quit"@ && keys == "<Primary>q"@
    ||| action == "app.format-bold"@ && keys == "<Primary>b"@
    ||| action == "app.format-italic"@ && keys == "<Primary>i"@
    ||| action == "app.format-link"@ && keys == "<Primary>k"@
}

} // verus!
