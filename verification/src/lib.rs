//! Clipboard history: the data model, the decrypted-entry caches, the history
//! rules, search, and the cryptographic framing of a clipboard manager.
pub mod cache;
pub mod clipboard;
pub mod constants;
pub mod crypto;
pub mod entry;
pub mod frontend;
pub mod history;
pub mod listing;
pub mod migration;
pub mod model;
pub mod recency;
pub mod search;
pub mod session;
pub mod text;

pub use model::{
    AppError, AppSettings, CopiedObject, CopiedObjectPreview, EncryptionConfig, EncryptionStatus,
    ObjectContent, ObjectFormat, PreviewContent, RetentionUnit,
};
