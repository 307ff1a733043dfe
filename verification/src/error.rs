//! The error kinds the file-system engine distinguishes. Every operation of
//! the engine either succeeds or surfaces one of these; none of them is fatal
//! to the engine.

use vstd::prelude::*;
use vstd::string::StringExecFns;

verus! {

/// One error kind per failure the engine can report. Variants that concern a
/// named entry carry the name, so that the rendered message can repeat it.
#[derive(Debug, PartialEq, Eq)]
pub enum FsError {
    /// A positioned read ran past the end of the volume.
    IoError,
    /// Bytes did not decode as the expected structure.
    CodecError,
    /// The inode bitmap has no free slot left.
    NoFreeInode,
    /// The data-block bitmap has no free block left where one was needed.
    NoFreeBlock,
    /// A payload needs more than `INODE_LINKS` data blocks.
    FileTooBig,
    /// A directory entry of this name already exists.
    AlreadyExists(String),
    /// No directory entry of this name exists.
    NotFound(String),
    /// No directory entry of this name (with its trailing `/`) exists.
    NotFoundDirectory(String),
    /// The entry resolved to an inode that is not a directory.
    NotADirectory(String),
    /// `cd ..` was asked of the root directory.
    AtRoot,
    /// A file name handed to `touch` contains `/`.
    IllegalName(String),
    /// A directory name handed to `mkdir` contains `/`.
    IllegalDirectoryName(String),
    /// A bitmap was indexed past its end; reachable only on programmer error.
    OutOfBoundsBitmap(usize),
}

/// The text that `message` renders for an error.
pub open spec fn spec_message(e: FsError) -> Seq<char> {
    match e {
        FsError::IoError => "unexpected end of file"@,
        FsError::CodecError => "Could not decode structure"@,
        FsError::NoFreeInode => "Could not locate free inode"@,
        FsError::NoFreeBlock => "Could not locate enough free datablocks"@,
        FsError::FileTooBig => "The file is too big"@,
        FsError::AlreadyExists(n) => "File already exists: "@ + n@,
        FsError::NotFound(n) => "Unknown filename: "@ + n@,
        FsError::NotFoundDirectory(n) => "Unknown directory name: "@ + n@,
        FsError::NotADirectory(n) => "Is not a directory: "@ + n@,
        FsError::AtRoot => "Already at root"@,
        FsError::IllegalName(n) => "Illegal filename: "@ + n@,
        FsError::IllegalDirectoryName(n) => "Illegal directory name: "@ + n@,
        FsError::OutOfBoundsBitmap(_) => "Out of bounds of bitmap"@,
    }
}

impl FsError {
    /// One line of text describing the error, as the shell prints it.
    pub fn message(&self) -> (r: String)
        ensures
            r@ == spec_message(*self),
    {
        match self {
            FsError::IoError => String::from_str("unexpected end of file"),
            FsError::CodecError => String::from_str("Could not decode structure"),
            FsError::NoFreeInode => String::from_str("Could not locate free inode"),
            FsError::NoFreeBlock => String::from_str("Could not locate enough free datablocks"),
            FsError::FileTooBig => String::from_str("The file is too big"),
            FsError::AlreadyExists(n) => String::from_str("File already exists: ").concat(
                n.as_str(),
            ),
            FsError::NotFound(n) => String::from_str("Unknown filename: ").concat(n.as_str()),
            FsError::NotFoundDirectory(n) => String::from_str("Unknown directory name: ").concat(
                n.as_str(),
            ),
            FsError::NotADirectory(n) => String::from_str("Is not a directory: ").concat(
                n.as_str(),
            ),
            FsError::AtRoot => String::from_str("Already at root"),
            FsError::IllegalName(n) => String::from_str("Illegal filename: ").concat(n.as_str()),
            FsError::IllegalDirectoryName(n) => String::from_str(
                "Illegal directory name: ",
            ).concat(n.as_str()),
            FsError::OutOfBoundsBitmap(_) => String::from_str("Out of bounds of bitmap"),
        }
    }
}

} // verus!
