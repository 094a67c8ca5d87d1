use vstd::prelude::*;

verus! {

/// One indexed unit of text: the text itself, the token strings it was split into,
/// and its embedding, a vector of vocabulary token identifiers.
#[derive(Debug)]
pub struct Context {
    pub text: String,
    pub tokens: Vec<String>,
    pub embedding: Vec<u32>,
}

/// A question as it arrives with a request.
#[derive(Debug)]
pub struct RagQuery {
    pub prompt: String,
}

/// The body of the reply to a question.
#[derive(Debug)]
pub struct RagResp {
    pub body: String,
}

impl Context {
    /// Whether the embedding has exactly `width` entries.
    pub open spec fn has_width(&self, width: nat) -> bool {
        self.embedding@.len() == width
    }
}

} // verus!
