//! The session record kept between runs, and how a save updates it.
use vstd::prelude::*;

verus! {

/// The last opened vault, the last opened file and the theme, each unset
/// until first saved.
#[derive(Debug, Clone, PartialEq, Eq)]
pub struct SessionData {
    pub last_vault_path: Option<String>,
    pub last_file_path: Option<String>,
    pub theme: Option<String>,
}

impl Default for SessionData {
    fn default() -> (r: SessionData)
        ensures
            r.last_vault_path is None,
            r.last_file_path is None,
            r.theme is None,
    {
        SessionData { last_vault_path: None, last_file_path: None, theme: None }
    }
}

/// `new` where it is set, else `current`.
pub open spec fn keep_or_replace(current: Option<String>, new: Option<String>) -> Option<String> {
    match new {
        Some(v) => Some(v),
        None => current,
    }
}

impl SessionData {
    /// The session after a save: each field that the save sets replaces
    /// the stored one, the others are kept.
    pub fn merge(
        self,
        last_vault_path: Option<String>,
        last_file_path: Option<String>,
        theme: Option<String>,
    ) -> (r: SessionData)
        ensures
            r.last_vault_path == keep_or_replace(self.last_vault_path, last_vault_path),
            r.last_file_path == keep_or_replace(self.last_file_path, last_file_path),
            r.theme == keep_or_replace(self.theme, theme),
    {
        let mut current = self;
        if last_vault_path.is_some() {
            current.last_vault_path = last_vault_path;
        }
        if last_file_path.is_some() {
            current.last_file_path = last_file_path;
        }
        if theme.is_some() {
            current.theme = theme;
        }
        current
    }
}

} // verus!
