//! Entries of the folder views: markdown files of a folder and the tree of
//! sub-directories.
use vstd::prelude::*;
use crate::path_guard::{file_name, is_markdown, is_markdown_file, last_segment};

verus! {

/// A markdown file of a folder: its name and its path.
#[derive(Debug, Clone, PartialEq, Eq)]
pub struct FileEntry {
    pub name: String,
    pub path: String,
}

/// A directory: its name, its path and its sub-directories.
#[derive(Debug)]
pub struct DirNode {
    pub name: String,
    pub path: String,
    pub children: Vec<DirNode>,
}

/// The entry for the file at `path`.
pub fn file_entry(path: String) -> (r: FileEntry)
    ensures
        r.name@ == last_segment(path@),
        r.path@ == path@,
{
    let name = file_name(path.as_str());
    FileEntry { name, path }
}

/// The node for the directory at `path`, with its sub-directories.
pub fn dir_node(path: String, children: Vec<DirNode>) -> (r: DirNode)
    ensures
        r.name@ == last_segment(path@),
        r.path@ == path@,
        r.children@ == children@,
{
    let name = file_name(path.as_str());
    DirNode { name, path, children }
}

/// The markdown files among the first `k` of `paths`, in order.
pub open spec fn markdown_paths(paths: Seq<String>, k: nat) -> Seq<Seq<char>>
    decreases k,
{
    if k == 0 || k > paths.len() {
        Seq::empty()
    } else {
        let prev = markdown_paths(paths, (k - 1) as nat);
        if is_markdown(paths[k - 1]@) {
            prev.push(paths[k - 1]@)
        } else {
            prev
        }
    }
}

/// The entries of the markdown files among the files of a folder, in the
/// order given.
pub fn markdown_entries(paths: &Vec<String>) -> (r: Vec<FileEntry>)
    ensures
        r@.map_values(|e: FileEntry| e.path@) == markdown_paths(paths@, paths.len() as nat),
        forall|i: int| 0 <= i < r.len() ==> (#[trigger] r@[i]).name@ == last_segment(r@[i].path@),
{
    let mut r: Vec<FileEntry> = Vec::new();
    let mut k: usize = 0;
    while k < paths.len()
        invariant
            k <= paths.len(),
            r@.map_values(|e: FileEntry| e.path@) == markdown_paths(paths@, k as nat),
            forall|i: int| 0 <= i < r.len() ==> (#[trigger] r@[i]).name@ == last_segment(r@[i].path@),
        decreases paths.len() - k,
    {
        if is_markdown_file(paths[k].as_str()) {
            let e = file_entry(paths[k].clone());
            let ghost before = r@;
            r.push(e);
            assert(r@.map_values(|e: FileEntry| e.path@) =~= before.map_values(|e: FileEntry| e.path@).push(
                paths@[k as int]@,
            ));
        }
        k = k + 1;
    }
    r
}

} // verus!
