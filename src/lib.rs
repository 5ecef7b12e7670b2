//! An archive of files in one flat byte stream: each entry is a path, a kind
//! and its contents, and the stream ends with a single zero byte.
use vstd::prelude::*;

pub mod codec;
pub mod listing;
pub mod ops;

pub use codec::{read_savn, read_savn_or_empty, write_savn, DecodeError};
pub use ops::{add_file, find_file, remove_files, FsNode};
pub use listing::list_savn;

verus! {

/// How the contents of an entry are to be read back.
#[derive(Debug, Default, Clone, Copy, PartialEq, Eq, Structural)]
pub enum FileType {
    /// Ordinary file; the contents are its bytes.
    #[default]
    RegularFile,
    /// Reserved kind for a file with its execute permission set. It has a
    /// kind byte of its own, which decoding does not accept, so adding from
    /// the filesystem never produces it.
    ExecutableFile,
    /// Symbolic link; the contents are its target, as UTF-8.
    SoftSymlink,
}

/// One archived item.
#[derive(Debug)]
pub struct FileSpec {
    pub path: String,
    pub file_type: FileType,
    pub contents: Vec<u8>,
}

/// The mathematical value of an entry.
pub struct EntryView {
    pub path: Seq<char>,
    pub file_type: FileType,
    pub contents: Seq<u8>,
}

impl View for FileSpec {
    type V = EntryView;

    open spec fn view(&self) -> EntryView {
        EntryView { path: self.path@, file_type: self.file_type, contents: self.contents@ }
    }
}

/// An archive: its entries in order.
pub type Savn = Vec<FileSpec>;

/// The entries of an archive as values.
pub open spec fn entries(s: Seq<FileSpec>) -> Seq<EntryView> {
    s.map_values(|e: FileSpec| e@)
}

} // verus!
