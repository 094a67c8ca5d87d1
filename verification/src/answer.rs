use vstd::prelude::*;
use crate::embedder::{Encoded, EncodingError};
use crate::matrix::{column_count, copy_row, matrix_rows, matrix_width, RagMatrix};
use crate::passage::RagResp;
use crate::similarity::{is_nearest, nearest};

verus! {

/// The generation backend failed, with the message it gave.
#[derive(Debug)]
pub struct BackendError {
    pub message: String,
}

/// Why a question got no answer.
#[derive(Debug)]
pub enum QueryError {
    /// The question could not be embedded, or the matched row not be decoded.
    Encoding(EncodingError),
    /// No passage is indexed.
    EmptyMatrix,
    /// The generation backend failed.
    Backend(BackendError),
}

/// What is asked of the generation backend: the model to run and the prompt.
#[derive(Debug)]
pub struct Generation {
    pub model: String,
    pub prompt: String,
}

/// A question matched to a passage: the row of the passage in the matrix, and the
/// identifiers that the row holds, which are to be decoded.
#[derive(Debug)]
pub struct MatchedRow {
    pub row: usize,
    pub ids: Vec<u32>,
}

/// A reply as the transport sends it: a status code and a body.
#[derive(Debug)]
pub struct Reply {
    pub status: u16,
    pub body: RagResp,
}

/// The prompt for a question and the text of the passage matched to it.
pub open spec fn prompt_text(question: Seq<char>, context: Seq<char>) -> Seq<char> {
    "Generate a response to the following question. Use the provided context only if it is useful. \n Question: "@
        + question + " \n Context: "@ + context + "."@
}

/// Writes the prompt that states the question and offers the passage as context.
pub fn build_prompt(question: &str, context: &str) -> (prompt: String)
    ensures
        prompt@ == prompt_text(question@, context@),
{
    let mut prompt = String::from_str(
        "Generate a response to the following question. Use the provided context only if it is useful. \n Question: ",
    );
    prompt.append(question);
    prompt.append(" \n Context: ");
    prompt.append(context);
    prompt.append(".");
    prompt
}

/// What to ask of the generation backend, given what decoding the matched row gave:
/// the prompt over the decoded text, or the refusal handed on.
pub fn compose_generation(model: &str, question: &str, decoded: Result<String, String>) -> (r:
    Result<Generation, QueryError>)
    ensures
        match decoded {
            Ok(context) => r matches Ok(generation) && generation.model@ == model@
                && generation.prompt@ == prompt_text(question@, context@),
            Err(refusal) => r matches Err(QueryError::Encoding(EncodingError::Refused { message }))
                && message@ == refusal@,
        },
{
    match decoded {
        Ok(context) => Ok(
            Generation { model: model.to_owned(), prompt: build_prompt(question, context.as_str()) },
        ),
        Err(message) => Err(QueryError::Encoding(EncodingError::Refused { message })),
    }
}

/// Matches a question to the passage most similar to it, given what the vocabulary
/// model made of the question.
///
/// A refusal of the model is handed on, and an embedding of another width than the
/// matrix is refused. A matrix without rows has nothing to match. Otherwise the row
/// is the first of greatest cosine similarity to the embedding, and it comes with
/// the identifiers it holds.
pub fn match_query(matrix: &RagMatrix, encoded: Result<Encoded, String>) -> (r: Result<
    MatchedRow,
    QueryError,
>)
    ensures
        match encoded {
            Err(refusal) => r matches Err(QueryError::Encoding(EncodingError::Refused { message }))
                && message@ == refusal@,
            Ok(question) => if question.ids@.len() != matrix_width(*matrix) {
                r matches Err(QueryError::Encoding(EncodingError::WrongWidth { found })) && found
                    == question.ids@.len()
            } else if matrix_rows(*matrix).len() == 0 {
                r matches Err(QueryError::EmptyMatrix)
            } else {
                r matches Ok(matched) && is_nearest(
                    question.ids@,
                    matrix_rows(*matrix),
                    matched.row as int,
                ) && matched.ids@ == matrix_rows(*matrix)[matched.row as int]
            },
        },
{
    match encoded {
        Err(message) => Err(QueryError::Encoding(EncodingError::Refused { message })),
        Ok(question) => {
            let found: usize = question.ids.len();
            if found != column_count(matrix) {
                return Err(QueryError::Encoding(EncodingError::WrongWidth { found }));
            }
            match nearest(&question.ids, matrix) {
                Err(_) => Err(QueryError::EmptyMatrix),
                Ok(row) => {
                    let ids = copy_row(matrix, row);
                    Ok(MatchedRow { row, ids })
                },
            }
        },
    }
}

/// The answer to a question, given what the generation backend gave: its text as the
/// body, or its failure as an error.
pub fn answer(outcome: Result<String, String>) -> (r: Result<RagResp, BackendError>)
    ensures
        match outcome {
            Ok(text) => r matches Ok(response) && response.body@ == text@,
            Err(failure) => r matches Err(error) && error.message@ == failure@,
        },
{
    match outcome {
        Ok(body) => Ok(RagResp { body }),
        Err(message) => Err(BackendError { message }),
    }
}

/// The status code of success.
pub const STATUS_OK: u16 = 200;

/// The status code for a question that could not be encoded.
pub const STATUS_BAD_REQUEST: u16 = 400;

/// The status code for a failure of the generation backend.
pub const STATUS_SERVER_ERROR: u16 = 500;

/// The status code for a repository without passages.
pub const STATUS_NO_DATA: u16 = 503;

/// The status code that stands for an outcome.
pub open spec fn status_of(result: Result<RagResp, QueryError>) -> u16 {
    match result {
        Ok(_) => STATUS_OK,
        Err(QueryError::Encoding(_)) => STATUS_BAD_REQUEST,
        Err(QueryError::EmptyMatrix) => STATUS_NO_DATA,
        Err(QueryError::Backend(_)) => STATUS_SERVER_ERROR,
    }
}

/// What a failure says in the body of its reply.
pub open spec fn failure_text(error: QueryError) -> Seq<char> {
    match error {
        QueryError::Encoding(EncodingError::Refused { message }) =>
            "the vocabulary model refused the text: "@ + message@,
        QueryError::Encoding(EncodingError::WrongWidth { .. }) =>
            "the vocabulary model is not set to the context window"@,
        QueryError::Encoding(EncodingError::CountMismatch { .. }) =>
            "the sentences and their token counts do not match"@,
        QueryError::EmptyMatrix => "no passages are indexed"@,
        QueryError::Backend(error) => "the generation backend failed: "@ + error.message@,
    }
}

/// The reply for an outcome. Only an answer is sent with the status of success; each
/// kind of failure has a status of its own and a body that names the failure.
pub fn reply_for(result: Result<RagResp, QueryError>) -> (reply: Reply)
    ensures
        reply.status == status_of(result),
        reply.status == STATUS_OK <==> result is Ok,
        match result {
            Ok(response) => reply.body.body@ == response.body@,
            Err(error) => reply.body.body@ == failure_text(error),
        },
{
    match result {
        Ok(body) => Reply { status: STATUS_OK, body },
        Err(QueryError::Encoding(EncodingError::Refused { message })) => {
            let mut body = String::from_str("the vocabulary model refused the text: ");
            body.append(message.as_str());
            Reply { status: STATUS_BAD_REQUEST, body: RagResp { body } }
        },
        Err(QueryError::Encoding(EncodingError::WrongWidth { .. })) => Reply {
            status: STATUS_BAD_REQUEST,
            body: RagResp {
                body: String::from_str("the vocabulary model is not set to the context window"),
            },
        },
        Err(QueryError::Encoding(EncodingError::CountMismatch { .. })) => Reply {
            status: STATUS_BAD_REQUEST,
            body: RagResp {
                body: String::from_str("the sentences and their token counts do not match"),
            },
        },
        Err(QueryError::EmptyMatrix) => Reply {
            status: STATUS_NO_DATA,
            body: RagResp { body: String::from_str("no passages are indexed") },
        },
        Err(QueryError::Backend(error)) => {
            let mut body = String::from_str("the generation backend failed: ");
            body.append(error.message.as_str());
            Reply { status: STATUS_SERVER_ERROR, body: RagResp { body } }
        },
    }
}

/// The reply to a question once the generation backend has been asked: its text with
/// the status of success, or its failure with the status of a server error.
pub fn conclude_query(outcome: Result<String, String>) -> (reply: Reply)
    ensures
        match outcome {
            Ok(text) => reply.status == STATUS_OK && reply.body.body@ == text@,
            Err(failure) => reply.status == STATUS_SERVER_ERROR && reply.body.body@
                == "the generation backend failed: "@ + failure@,
        },
{
    match answer(outcome) {
        Ok(response) => reply_for(Ok(response)),
        Err(error) => reply_for(Err(QueryError::Backend(error))),
    }
}

} // verus!
