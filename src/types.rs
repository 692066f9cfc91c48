//! The values that flow between the host and the library.
use vstd::prelude::*;

verus! {

/// Relies on `std::io::Error` as an opaque value: an error of the host's
/// file system calls, carried through unread.
#[verifier::external_type_specification]
#[verifier::external_body]
pub struct ExIoError(std::io::Error);

/// The process-wide settings, fixed at startup.
#[derive(Debug, Clone)]
pub struct Config {
    /// Port the web server binds to.
    pub app_port: u16,
    /// Directory that is exposed.
    pub base_dir: String,
    /// Template used where no directory overrides it.
    pub default_template: String,
}

/// What can go wrong while answering a request.
#[derive(Debug)]
pub enum TalkyError {
    /// A file system call failed.
    IoError(std::io::Error),
    /// A failure described in words (a template that did not compile or render).
    TextError(String),
    /// The request path would lead out of the base directory.
    PathJoin,
    /// Nothing that can be served lies at the request path.
    NotFound(String),
}

/// A subdirectory in a listing.
#[derive(Debug)]
pub struct Directory {
    pub name: String,
}

/// A file in a listing.
#[derive(Debug)]
pub struct File {
    pub name: String,
}

/// Everything a page template is rendered from.
#[derive(Debug)]
pub struct RenderData {
    pub current_path: String,
    pub directories: Vec<Directory>,
    pub files: Vec<File>,
    pub breadcrumbs: Vec<Breadcrumb>,
}

/// A link to one directory above the current one.
#[derive(Debug)]
pub struct Breadcrumb {
    pub path: String,
    pub display: String,
}

/// What a directory entry turned out to be.
#[derive(Debug, Clone, Copy, PartialEq, Eq, Structural)]
pub enum EntryKind {
    File,
    Directory,
    /// A symbolic link or a special file: never listed.
    Other,
}

/// One entry as read from a directory.
#[derive(Debug)]
pub struct ScannedEntry {
    pub name: String,
    pub kind: EntryKind,
}

} // verus!
