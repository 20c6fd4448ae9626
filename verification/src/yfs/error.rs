use vstd::prelude::*;

verus! {

#[verifier::external_type_specification]
#[verifier::external_body]
pub struct ExPathBuf(std::path::PathBuf);

#[verifier::external_type_specification]
#[verifier::external_body]
pub struct ExIoError(std::io::Error);

/// Errors of the store.
#[derive(Debug)]
pub enum Error {
    NotFound,
    AlreadyExists,
    InvalidName(String),
    FileTooLarge,
    StoreFull,
    Corrupt(String),
    Locked(std::path::PathBuf),
    Io(std::io::Error),
}

pub type Result<T> = std::result::Result<T, Error>;

/// The path as the platform shows it (`path.display()`); nothing is
/// claimed of the text.
#[verifier::external_body]
fn path_text(path: &std::path::PathBuf) -> String {
    format!("{}", path.display())
}

/// The operating system's description of an I/O error (its `Display`);
/// nothing is claimed of the text.
#[verifier::external_body]
fn io_error_text(err: &std::io::Error) -> String {
    format!("{err}")
}

impl Error {
    /// The text a user is shown for this error.
    pub fn message(&self) -> (s: String)
        ensures
            *self is NotFound ==> s@ == "not found"@,
            *self is AlreadyExists ==> s@ == "already exists"@,
            *self is FileTooLarge ==> s@ == "file too large"@,
            *self is StoreFull ==> s@ == "store full"@,
            self matches Error::InvalidName(m) ==> s@ == "invalid name: "@ + m@,
            self matches Error::Corrupt(m) ==> s@ == "corrupt: "@ + m@,
            *self is Locked ==> "store locked: "@.is_prefix_of(s@),
            *self is Io ==> "io: "@.is_prefix_of(s@),
    {
        match self {
            Error::NotFound => String::from_str("not found"),
            Error::AlreadyExists => String::from_str("already exists"),
            Error::InvalidName(m) => String::from_str("invalid name: ").concat(m.as_str()),
            Error::FileTooLarge => String::from_str("file too large"),
            Error::StoreFull => String::from_str("store full"),
            Error::Corrupt(m) => String::from_str("corrupt: ").concat(m.as_str()),
            Error::Locked(p) => String::from_str("store locked: ").concat(path_text(p).as_str()),
            Error::Io(e) => String::from_str("io: ").concat(io_error_text(e).as_str()),
        }
    }
}

} // verus!
