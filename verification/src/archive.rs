use vstd::prelude::*;

verus! {

/// How the content of a file entry is stored in an archive.
#[derive(Clone, Copy, Debug, PartialEq, Eq, Structural)]
pub enum Compression {
    Stored,
    Deflated,
}

/// The permission bits every built entry gets: readable and executable by
/// all, writable by the owner.
pub const ENTRY_PERMISSIONS: u32 = 0o755;

/// One record of an archive.
///
/// `path` is relative and slash-separated, without a trailing separator;
/// `content` is empty for a directory.
#[derive(Clone, Debug, PartialEq, Eq)]
pub struct ArchiveEntry {
    pub path: String,
    pub is_directory: bool,
    pub content: Vec<u8>,
    pub permissions: u32,
}

/// What an [`ArchiveEntry`] holds, as mathematical values.
pub ghost struct EntryView {
    pub path: Seq<char>,
    pub is_directory: bool,
    pub content: Seq<u8>,
    pub permissions: u32,
}

impl View for ArchiveEntry {
    type V = EntryView;

    open spec fn view(&self) -> EntryView {
        EntryView {
            path: self.path@,
            is_directory: self.is_directory,
            content: self.content@,
            permissions: self.permissions,
        }
    }
}

/// The views of a sequence of entries.
pub open spec fn entry_views(entries: Seq<ArchiveEntry>) -> Seq<EntryView> {
    Seq::new(entries.len(), |i: int| entries[i]@)
}

/// No two entries of `entries` have the same path.
pub open spec fn paths_unique(entries: Seq<EntryView>) -> bool {
    forall|i: int, j: int|
        0 <= i < j < entries.len() ==> (#[trigger] entries[i]).path != (#[trigger] entries[j]).path
}

/// Some entry of `entries` has the path `path`.
pub open spec fn has_path(entries: Seq<EntryView>, path: Seq<char>) -> bool {
    exists|i: int| 0 <= i < entries.len() && (#[trigger] entries[i]).path == path
}

} // verus!
