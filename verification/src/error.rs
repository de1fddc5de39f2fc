use vstd::prelude::*;

verus! {

/// The error kinds the library reports: an I/O failure (carrying the
/// underlying message), a missing value that was expected to be present
/// (e.g. a path without a final component), and a stat result that is
/// neither a regular file, a directory, nor a symlink.
#[derive(Debug, Clone)]
pub enum LsError {
    IOError(String),
    NoneValue(String),
    UnknownTypeOfFile(String),
}

pub type LsResult<T> = Result<T, LsError>;

impl LsError {
    pub fn none_from(s: &str) -> (r: LsError)
        ensures
            r matches LsError::NoneValue(m) && m@ == s@,
    {
        LsError::NoneValue(s.to_owned())
    }

    /// A human-readable description, in place of a `Display` impl.
    pub fn message(&self) -> (r: String)
        ensures
            r@ == self.message_spec(),
    {
        match self {
            LsError::IOError(m) => {
                let mut out = "IOError ".to_owned();
                out.append(m.as_str());
                out
            },
            LsError::NoneValue(m) => {
                let mut out = "Trying to unwrap None value ".to_owned();
                out.append(m.as_str());
                out
            },
            LsError::UnknownTypeOfFile(m) => {
                let mut out = "Function cannot determine the type of file ".to_owned();
                out.append(m.as_str());
                out
            },
        }
    }

    pub open spec fn message_spec(&self) -> Seq<char> {
        match self {
            LsError::IOError(m) => "IOError "@ + m@,
            LsError::NoneValue(m) => "Trying to unwrap None value "@ + m@,
            LsError::UnknownTypeOfFile(m) => "Function cannot determine the type of file "@ + m@,
        }
    }
}

} // verus!
