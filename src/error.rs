use vstd::prelude::*;

verus! {

/// A failure, with a message for people.
#[derive(Debug)]
pub enum Error {
    Text(String),
}

impl From<String> for Error {
    fn from(value: String) -> (r: Error) {
        Error::Text(value)
    }
}

impl vstd::std_specs::convert::FromSpecImpl<String> for Error {
    open spec fn obeys_from_spec() -> bool {
        true
    }

    open spec fn from_spec(v: String) -> Error {
        Error::Text(v)
    }
}

impl Error {
    /// The message.
    pub open spec fn message(self) -> Seq<char> {
        match self {
            Error::Text(s) => s@,
        }
    }
}

pub type GraphResult<T> = Result<T, Error>;

} // verus!
