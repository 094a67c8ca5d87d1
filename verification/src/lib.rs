pub mod answer;
pub mod chunker;
pub mod embedder;
pub mod matrix;
pub mod passage;
pub mod sentences;
pub mod similarity;
pub mod wide;

pub use answer::{
    answer, build_prompt, compose_generation, conclude_query, match_query, reply_for,
    BackendError, Generation, MatchedRow, QueryError, Reply,
};
pub use chunker::{chunk_text, pack_sentences, Sentence};
pub use embedder::{create_context, Encoded, EncodingError};
pub use matrix::{build_rag_matrix, RagMatrix, RepoError};
pub use passage::{Context, RagQuery, RagResp};
pub use sentences::split_sentences;
pub use similarity::{dot_product, nearest, EmptyMatrixError};
