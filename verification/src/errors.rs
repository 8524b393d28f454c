//! Error kinds: codec and framing failures, message-level failures, and
//! server construction failures.

use vstd::prelude::*;

verus! {

/// A field or frame could not be decoded; `msg` names the field or stage.
#[derive(Debug)]
pub struct ParseError {
    pub msg: String,
}

/// A message-level failure: an unknown field name, or a processor failure.
#[derive(Debug)]
pub struct IsoError {
    pub msg: String,
}

/// A failure while constructing the server (bad or unresolvable address).
#[derive(Debug)]
pub struct IsoServerError {
    pub msg: String,
}

impl ParseError {
    /// A parse error whose message is `what` followed by the field or stage
    /// name.
    pub fn about(what: &str, name: &String) -> (r: ParseError)
        ensures
            r.msg@ == what@ + name@,
    {
        let mut msg = what.to_owned();
        msg.append(name.as_str());
        ParseError { msg }
    }
}

impl IsoError {
    /// An error whose message is `what` followed by a name.
    pub fn about(what: &str, name: &String) -> (r: IsoError)
        ensures
            r.msg@ == what@ + name@,
    {
        let mut msg = what.to_owned();
        msg.append(name.as_str());
        IsoError { msg }
    }
}

} // verus!
