//! The content engine of a markdown note vault: a path guard that keeps
//! file operations inside the vault, a list-item parser that turns nested
//! bullet lists into an addressable forest, a tag query engine, a bounded
//! full-text search and the vault's file index.
use vstd::prelude::*;

pub mod text;
pub mod markdown;
pub mod path_guard;
pub mod query;
pub mod listing;
pub mod log;
pub mod search;
pub mod session;
pub mod vault;

pub use listing::{dir_node, file_entry, markdown_entries, DirNode, FileEntry};
pub use log::{log_level, LogLevel};
pub use markdown::{build_forest, parse_file, parse_list_items, MdEvent, ParseFileResult, TreeNode};
pub use path_guard::{
    check_new_filename, file_name, guard_create, guard_delete, guard_path, has_parent_traversal,
    is_markdown_file, path_under_root, PathProbe, VaultError,
};
pub use query::{
    is_descendant, parent_path, parse_scope, query_by_tag, query_nodes, LoadedFile,
    QueryResultItem,
};
pub use search::{match_line, search_file, search_full_text, SearchMatch, MAX_RESULTS};
pub use session::SessionData;
pub use vault::{
    index_vault, list_files, relative_path, resolve_under_vault, vault_root, OpenVaultResult,
    VaultState,
};
