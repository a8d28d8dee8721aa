use vstd::prelude::*;

verus! {

/// What went wrong, with a short diagnostic text. One variant per failure
/// family: a malformed CSV document, a dataset-driver failure, a file
/// failure, and a count field that is not a non-negative integer.
#[derive(Debug)]
pub enum ErrorKind {
    Csv(String),
    Gdal(String),
    File(String),
    ParseInt(String),
}

impl ErrorKind {
    /// The diagnostic text carried by the variant.
    pub open spec fn spec_detail(&self) -> Seq<char> {
        match self {
            ErrorKind::Csv(s) => s@,
            ErrorKind::Gdal(s) => s@,
            ErrorKind::File(s) => s@,
            ErrorKind::ParseInt(s) => s@,
        }
    }

    pub fn detail(&self) -> (r: &String)
        ensures
            r@ == self.spec_detail(),
    {
        match self {
            ErrorKind::Csv(s) => s,
            ErrorKind::Gdal(s) => s,
            ErrorKind::File(s) => s,
            ErrorKind::ParseInt(s) => s,
        }
    }
}

/// The one error type that count and compare operations surface.
#[derive(Debug)]
pub struct CountError {
    pub kind: ErrorKind,
}

impl CountError {
    /// The top-level message, as the command line prints it.
    pub fn message(&self) -> (r: String)
        ensures
            r@ == "error while couting stuff"@,
    {
        String::from_str("error while couting stuff")
    }

    /// The cause chain under the top-level message: here one entry, the
    /// diagnostic text of the kind.
    pub fn causes(&self) -> (r: Vec<String>)
        ensures
            r@.len() == 1,
            r@[0]@ == self.kind.spec_detail(),
    {
        let mut v: Vec<String> = Vec::new();
        v.push(self.kind.detail().clone());
        v
    }
}

} // verus!
