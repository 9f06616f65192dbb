pub mod bytes;
pub mod config;
pub mod config_laws;
pub mod constants;
pub mod crypto;
pub mod error;
pub mod export_laws;
pub mod formatting;
pub mod formatting_laws;
pub mod ident;
pub mod ident_laws;
pub mod markdown_blocks;
pub mod markdown_forms;
pub mod markdown_laws;
pub mod markdown_lines;
pub mod markdown_spans;
pub mod model;
pub mod model_laws;
pub mod path_laws;
pub mod paths;
pub mod search;
pub mod sort;
pub mod storage;
pub mod text;
pub mod text_laws;
pub mod ui_laws;
pub mod ui_state;
pub mod vault;
pub mod vault_encrypted;
pub mod vault_export;
pub mod vault_laws;
pub mod workspace;

pub use crypto::EncryptedSession;
pub use error::{Error, Result};
pub use model::{Note, NoteMetadata, NoteSummary};
pub use vault::{FileStamp, NotebookEntry, TrashEntry, Vault};
pub use vault_export::{ExportProgress, ExportReport};
