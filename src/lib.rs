//! Mirror synchronisation engine for a remotely owned repository catalog: a
//! staleness gate, a merge-join differ between the cache and the remote
//! snapshot, content decoding for documents, and the writes a cycle asks for.

pub mod catalog;
pub mod content;
pub mod differ;
pub mod engine;
pub mod error;
pub mod fetch;
pub mod persist;
pub mod staleness;
pub mod text;
pub mod views;

pub use catalog::{BlogPost, DocumentEntry, FileMetadata, Repo};
pub use content::{decode_file_content, split_summary_and_body};
pub use differ::{diff, has_unique_keys, ChangeKind, ChangeRecord, MirrorItem};
pub use error::SyncError;
pub use persist::{effective_changes, sync_changes};
pub use staleness::{GitHubQueryState, StalenessState};
pub use text::get_url_safe_name;
