//! Errors of the audio engine.
use vstd::prelude::*;
use crate::text::push_str;

verus! {

#[verifier::external_type_specification]
#[verifier::external_body]
pub struct ExIoError(std::io::Error);

#[derive(Debug)]
pub enum Error {
    Decode(String),
    Encode(String),
    Io(std::io::Error),
    Unsupported(String),
}

/// Formats an I/O error with `{}`. The text comes from the operating system
/// and is not stated here.
#[verifier::external_body]
fn io_error_text(e: &std::io::Error) -> String {
    format!("{e}")
}

/// The human-readable message of an error whose detail is held as text.
pub open spec fn spec_message(e: &Error) -> Option<Seq<char>> {
    match e {
        Error::Decode(s) => Some("decode error: "@ + s@),
        Error::Encode(s) => Some("encode error: "@ + s@),
        Error::Io(_) => None,
        Error::Unsupported(s) => Some("unsupported: "@ + s@),
    }
}

impl Error {
    /// The human-readable message: the kind of failure, then its detail. An
    /// I/O error's detail is the system's text for it.
    pub fn message(&self) -> (m: String)
        ensures
            match spec_message(self) {
                Some(t) => m@ == t,
                None => m@.len() >= 10 && m@.subrange(0, 10) == "io error: "@,
            },
    {
        let mut m = String::new();
        match self {
            Error::Decode(s) => {
                push_str(&mut m, "decode error: ");
                push_str(&mut m, s.as_str());
            }
            Error::Encode(s) => {
                push_str(&mut m, "encode error: ");
                push_str(&mut m, s.as_str());
            }
            Error::Io(e) => {
                push_str(&mut m, "io error: ");
                let ghost head = m@;
                let t = io_error_text(e);
                push_str(&mut m, t.as_str());
                proof {
                    reveal_strlit("io error: ");
                    assert(m@.subrange(0, 10) =~= head);
                }
            }
            Error::Unsupported(s) => {
                push_str(&mut m, "unsupported: ");
                push_str(&mut m, s.as_str());
            }
        }
        m
    }
}

} // verus!
