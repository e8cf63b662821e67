//! Whether a path can be scanned: a disk image (regular file) or a block
//! device can, a directory or anything else cannot.
use vstd::prelude::*;

use crate::text::push_str;

verus! {

/// What a source path turned out to be, from its metadata.
#[derive(Debug, Clone, Copy, PartialEq, Eq, Structural)]
pub enum SourceKind {
    RegularFile,
    BlockDevice,
    Directory,
    /// A socket, pipe, character device or other special file.
    Other,
}

/// Checks the source given on the command line before anything is read.
pub struct SourceValidator;

/// The message for a source whose metadata could not be read.
pub open spec fn access_error_text(display: Seq<char>, reason: Seq<char>) -> Seq<char> {
    "Cannot access '"@ + display + "': "@ + reason
}

/// The message for a directory given as source.
pub open spec fn directory_error_text(display: Seq<char>) -> Seq<char> {
    "'"@ + display + "' is a directory. Provide a disk image file or block device path."@
}

/// The message for a special file given as source.
pub open spec fn unsupported_error_text(display: Seq<char>) -> Seq<char> {
    "'"@ + display + "' is not a regular file or block device."@
}

/// The message for anything but a regular file given as source, where block
/// devices cannot be told apart.
pub open spec fn not_a_file_error_text(display: Seq<char>) -> Seq<char> {
    "'"@ + display + "' is not a regular file."@
}

impl SourceValidator {
    /// The error for a source at `display` whose metadata could not be read,
    /// for the reason `reason`.
    pub fn access_error(display: &str, reason: &str) -> (res: String)
        ensures
            res@ == access_error_text(display@, reason@),
    {
        let mut msg = String::new();
        push_str(&mut msg, "Cannot access '");
        push_str(&mut msg, display);
        push_str(&mut msg, "': ");
        push_str(&mut msg, reason);
        assert(msg@ =~= access_error_text(display@, reason@));
        msg
    }

    /// Accepts a regular file or a block device at `display`; refuses a
    /// directory or any other kind of file with a message that names it.
    pub fn judge(display: &str, kind: SourceKind) -> (res: Result<(), String>)
        ensures
            match kind {
                SourceKind::RegularFile | SourceKind::BlockDevice => res is Ok,
                SourceKind::Directory => res matches Err(m) && m@ == directory_error_text(display@),
                SourceKind::Other => res matches Err(m) && m@ == unsupported_error_text(display@),
            },
    {
        match kind {
            SourceKind::RegularFile | SourceKind::BlockDevice => Ok(()),
            SourceKind::Directory => {
                let mut msg = String::new();
                push_str(&mut msg, "'");
                push_str(&mut msg, display);
                push_str(&mut msg, "' is a directory. Provide a disk image file or block device path.");
                assert(msg@ =~= directory_error_text(display@));
                Err(msg)
            },
            SourceKind::Other => {
                let mut msg = String::new();
                push_str(&mut msg, "'");
                push_str(&mut msg, display);
                push_str(&mut msg, "' is not a regular file or block device.");
                assert(msg@ =~= unsupported_error_text(display@));
                Err(msg)
            },
        }
    }

    /// As [`Self::judge`], on systems where block devices cannot be told
    /// apart from other special files: only a regular file is accepted.
    pub fn judge_files_only(display: &str, kind: SourceKind) -> (res: Result<(), String>)
        ensures
            match kind {
                SourceKind::RegularFile => res is Ok,
                SourceKind::Directory => res matches Err(m) && m@ == directory_error_text(display@),
                SourceKind::BlockDevice | SourceKind::Other => res matches Err(m) && m@
                    == not_a_file_error_text(display@),
            },
    {
        match kind {
            SourceKind::RegularFile => Ok(()),
            SourceKind::Directory => Self::judge(display, kind),
            SourceKind::BlockDevice | SourceKind::Other => {
                let mut msg = String::new();
                push_str(&mut msg, "'");
                push_str(&mut msg, display);
                push_str(&mut msg, "' is not a regular file.");
                assert(msg@ =~= not_a_file_error_text(display@));
                Err(msg)
            },
        }
    }
}

} // verus!
