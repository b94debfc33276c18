use vstd::prelude::*;
use vstd::string::*;

verus! {

/// What can go wrong while a container is edited.
#[derive(Debug, Clone, Copy, PartialEq, Eq, Structural)]
pub enum ClipError {
    FileOpenError,
    TmpDirError,
    FileSaveError,
    CreateDirectoryError,
    FileReadError,
    SQLError,
    UnknownFileStruct,
    IOError,
    NotClipFile,
}

impl ClipError {
    /// The text that tells a user what went wrong.
    pub open spec fn spec_message(self) -> Seq<char> {
        match self {
            ClipError::FileOpenError => "file open failed"@,
            ClipError::TmpDirError => "tempolary directory create failed"@,
            ClipError::FileSaveError => "file save failed"@,
            ClipError::CreateDirectoryError => "create directories failed"@,
            ClipError::FileReadError => "file read failed"@,
            ClipError::SQLError => "SQLite data base operation error"@,
            ClipError::UnknownFileStruct => "Fail to analyze layer.May be unsupported version."@,
            ClipError::IOError => "unknonw file io error occured"@,
            ClipError::NotClipFile => "not a clip studio file format."@,
        }
    }

    /// The text that tells a user what went wrong.
    pub fn message(&self) -> (s: String)
        ensures
            s@ == self.spec_message(),
    {
        let text: &'static str = match self {
            ClipError::FileOpenError => "file open failed",
            ClipError::TmpDirError => "tempolary directory create failed",
            ClipError::FileSaveError => "file save failed",
            ClipError::CreateDirectoryError => "create directories failed",
            ClipError::FileReadError => "file read failed",
            ClipError::SQLError => "SQLite data base operation error",
            ClipError::UnknownFileStruct => "Fail to analyze layer.May be unsupported version.",
            ClipError::IOError => "unknonw file io error occured",
            ClipError::NotClipFile => "not a clip studio file format.",
        };
        String::from_str(text)
    }
}

} // verus!
