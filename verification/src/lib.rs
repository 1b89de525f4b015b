//! Turns an exported conversation archive into the records of a relational
//! store: conversations, their messages in a parent-linked order, and the
//! attachments with the files that the archive holds for them.
//!
//! The archive is a zip file, handed over as bytes. It holds a document that
//! describes the conversations, each a graph of nodes, and the binary files
//! that attachment pointers refer to. Decoding the document is left to the
//! caller; everything from the decoded conversations to the records to be
//! written is done here.

pub mod archive;
pub mod content;
pub mod identity;
pub mod import;
pub mod models;
pub mod reach;
pub mod store;
pub mod text;
pub mod tree;

pub use crate::archive::{
    extract_asset_id, extract_conversations_from_zip, extract_file_from_zip, guess_mime_type,
    mime_for_extension, ArchiveError, ResolvedFile,
};
pub use crate::content::{extract_content_and_assets, extract_model_slug, should_skip_message};
pub use crate::identity::find_conversation_id;
pub use crate::import::{
    import_conversations, AssetRow, ConversationRow, ImportPlan, MessageRow, Upsert,
};
pub use crate::models::{
    AssetPointer, Author, Content, Conversation, MappingNode, Message, Metadata, NodeMap, Part,
    Timestamp,
};
pub use crate::tree::{
    extract_messages_from_mapping, find_root, traverse_messages, LinearizedMessage,
};
