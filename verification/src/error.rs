use vstd::prelude::*;
use vstd::string::StringExecFns;

verus! {

/// The error taxonomy of the library.
///
/// `Io` and `Yaml` carry only a message: the values of outside error types are
/// turned into text by the callers that produce them, outside the library.
#[derive(Debug)]
pub enum Error {
    Io(String),
    Yaml(String),
    Config(String),
    Processing(String),
}

impl Error {
    /// A human-readable rendering of the error, prefixed with its category.
    pub fn message(&self) -> (r: String)
        ensures
            r@ == self.message_spec(),
    {
        let mut r = String::new();
        match self {
            Error::Io(m) => {
                r.append("IO error: ");
                r.append(m.as_str());
            },
            Error::Yaml(m) => {
                r.append("YAML parsing error: ");
                r.append(m.as_str());
            },
            Error::Config(m) => {
                r.append("Configuration error: ");
                r.append(m.as_str());
            },
            Error::Processing(m) => {
                r.append("Processing error: ");
                r.append(m.as_str());
            },
        }
        r
    }

    pub open spec fn message_spec(&self) -> Seq<char> {
        match self {
            Error::Io(m) => "IO error: "@ + m@,
            Error::Yaml(m) => "YAML parsing error: "@ + m@,
            Error::Config(m) => "Configuration error: "@ + m@,
            Error::Processing(m) => "Processing error: "@ + m@,
        }
    }
}

} // verus!
