use vstd::prelude::*;

verus! {

#[verifier::external_type_specification]
#[verifier::external_body]
pub struct ExIoError(std::io::Error);

/// What can go wrong around the tag language.
#[derive(Debug)]
pub enum MdtError {
    /// Reading the document failed.
    Io(std::io::Error),
    /// The host document could not be parsed.
    Markdown(String),
    /// An opening tag of the named block has no closing tag.
    MissingClosingTag(String),
    /// A grammar could not consume the token at this index.
    InvalidTokenSequence(usize),
}

pub type MdtResult<T> = Result<T, MdtError>;

} // verus!
