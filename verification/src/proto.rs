use vstd::prelude::*;

verus! {

/// A request or response body with no content.
#[derive(Debug)]
pub struct Empty;

/// A transport-level error: the failure text that travels back to a
/// client.
#[derive(Debug)]
pub struct Error {
    pub msg: String,
}

impl Error {
    /// Wrap an already rendered failure text for transport; the caller
    /// renders whatever error it holds.
    pub fn from(msg: String) -> (r: Error)
        ensures
            r.msg@ == msg@,
    {
        Error { msg }
    }

    /// The carried message.
    pub fn message(&self) -> (r: &String)
        ensures
            r@ == self.msg@,
    {
        &self.msg
    }
}

/// Display settings a client hands over when a file is opened.
#[derive(Debug)]
pub struct RenderConfig {
    pub line_height: Option<u32>,
}

} // verus!
