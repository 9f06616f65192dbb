//! What the window decides: which notes it lists, what it does with the open
//! note, which actions it offers and what it says.

pub mod changes;
pub mod dialogs;
pub mod display_laws;
pub mod document;
pub mod document_laws;
pub mod editor;
pub mod editor_laws;
pub mod listing;
pub mod listing_laws;
pub mod menus;
pub mod preferences;
pub mod selection;
pub mod session;
pub mod session_laws;
