use vstd::prelude::*;
use crate::passage::Context;

verus! {

/// What the vocabulary model made of one text: the token strings and, for each, its
/// identifier in the vocabulary.
#[derive(Debug)]
pub struct Encoded {
    pub tokens: Vec<String>,
    pub ids: Vec<u32>,
}

/// Why a text could not be turned into tokens, or identifiers into a text.
#[derive(Debug)]
pub enum EncodingError {
    /// The vocabulary model refused the input, with the message it gave.
    Refused { message: String },
    /// The vocabulary model gave `found` identifiers where the context window asks
    /// for another number: it is not set to pad and truncate to the window.
    WrongWidth { found: usize },
    /// A text of `sentences` sentences came with `outcomes` token counts.
    CountMismatch { sentences: usize, outcomes: usize },
}

/// Embeds a text, given what the vocabulary model made of it: the passage of the
/// text, its tokens and its identifiers.
///
/// A refusal of the model is handed on. An encoding whose identifiers are not exactly
/// `context_window` in number is refused too, so every passage that comes out has an
/// embedding of that width.
pub fn create_context(text: String, outcome: Result<Encoded, String>, context_window: usize) -> (r:
    Result<Context, EncodingError>)
    ensures
        r matches Ok(context) ==> context.has_width(context_window as nat),
        match outcome {
            Err(refusal) => r matches Err(EncodingError::Refused { message }) && message@
                == refusal@,
            Ok(encoded) => if encoded.ids@.len() == context_window {
                r matches Ok(context) && context.text@ == text@ && context.tokens@
                    == encoded.tokens@ && context.embedding@ == encoded.ids@
            } else {
                r matches Err(EncodingError::WrongWidth { found }) && found == encoded.ids@.len()
            },
        },
{
    match outcome {
        Err(message) => Err(EncodingError::Refused { message }),
        Ok(encoded) => {
            let found: usize = encoded.ids.len();
            if found == context_window {
                Ok(Context { text, tokens: encoded.tokens, embedding: encoded.ids })
            } else {
                Err(EncodingError::WrongWidth { found })
            }
        },
    }
}

} // verus!
