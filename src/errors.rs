//! What the operations on an image can fail with.

use vstd::prelude::*;

verus! {

/// The error of a host file operation; the library only carries it.
#[verifier::external_type_specification]
#[verifier::external_body]
pub struct ExIoError(std::io::Error);

/// Why a full extraction failed.
#[derive(Debug)]
pub enum ReadISOError {
    InvalidISO,
    RootDirNotEmpty,
    WriteFileError(std::io::Error),
    CreateDirError(std::io::Error),
}

/// Why a full rebuild failed.
#[derive(Debug)]
pub enum WriteISOError {
    ISOTooLarge,
    InvalidFilename(String),
    ReadFileError(std::io::Error),
    ReadDirError(std::io::Error),
}

/// Why an in-place edit failed.
#[derive(Debug)]
pub enum OperateISOError {
    IOError(std::io::Error),
    OpenError { path: String, e: std::io::Error },
    FileInsertionReplicatesFolder(String),
    InvalidISOPath(String),
    InvalidFSPath(String),
    InvalidISO,
    TOCTooLarge,
    ISOTooLarge,
}

/// Why a selective extraction failed.
#[derive(Debug)]
pub enum ReadISOFilesError {
    IOError(std::io::Error),
    InvalidISO,
    InvalidFSPath(String),
}

impl From<std::io::Error> for OperateISOError {
    fn from(e: std::io::Error) -> (r: Self)
        ensures
            r == OperateISOError::IOError(e),
    {
        OperateISOError::IOError(e)
    }
}

impl vstd::std_specs::convert::FromSpecImpl<std::io::Error> for OperateISOError {
    open spec fn obeys_from_spec() -> bool {
        true
    }

    open spec fn from_spec(e: std::io::Error) -> Self {
        OperateISOError::IOError(e)
    }
}

impl From<std::io::Error> for ReadISOFilesError {
    fn from(e: std::io::Error) -> (r: Self)
        ensures
            r == ReadISOFilesError::IOError(e),
    {
        ReadISOFilesError::IOError(e)
    }
}

impl vstd::std_specs::convert::FromSpecImpl<std::io::Error> for ReadISOFilesError {
    open spec fn obeys_from_spec() -> bool {
        true
    }

    open spec fn from_spec(e: std::io::Error) -> Self {
        ReadISOFilesError::IOError(e)
    }
}

} // verus!
