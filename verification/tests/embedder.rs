use llm_rag::{create_context, Encoded, EncodingError};
use std::collections::HashMap;
use tokenizers::models::wordlevel::WordLevel;
use tokenizers::pre_tokenizers::whitespace::Whitespace;
use tokenizers::{AddedToken, PaddingParams, PaddingStrategy, Tokenizer, TruncationParams};

fn plain_tokenizer(with_unknown: bool) -> Tokenizer {
    let mut vocab: HashMap<String, u32> = HashMap::new();
    let words = ["[PAD]", "[UNK]", "The", "sky", "is", "blue", "."];
    for (id, word) in words.iter().enumerate() {
        if with_unknown || *word != "[UNK]" {
            vocab.insert(String::from(*word), id as u32);
        }
    }
    let model = WordLevel::builder().vocab(vocab).unk_token(String::from("[UNK]")).build().unwrap();
    let mut tokenizer = Tokenizer::new(model);
    tokenizer.with_pre_tokenizer(Whitespace {});
    tokenizer.add_special_tokens(&[AddedToken::from("[PAD]", true)]);
    tokenizer
}

fn windowed_tokenizer(width: usize) -> Tokenizer {
    let mut tokenizer = plain_tokenizer(true);
    tokenizer.with_padding(Some(PaddingParams {
        strategy: PaddingStrategy::Fixed(width),
        ..Default::default()
    }));
    let truncation = TruncationParams { max_length: width, stride: 0, ..Default::default() };
    assert!(tokenizer.with_truncation(Some(truncation)).is_ok());
    tokenizer
}

fn encode(tokenizer: &Tokenizer, text: &str) -> Result<Encoded, String> {
    match tokenizer.encode(text, false) {
        Ok(encoding) => Ok(Encoded {
            tokens: encoding.get_tokens().to_vec(),
            ids: encoding.get_ids().to_vec(),
        }),
        Err(error) => Err(error.to_string()),
    }
}

fn strings(words: &[&str]) -> Vec<String> {
    words.iter().map(|word| String::from(*word)).collect()
}

#[test]
fn create_context_pads_to_the_window() {
    let tokenizer = windowed_tokenizer(10);
    let text = "The sky is blue.";
    let context = create_context(String::from(text), encode(&tokenizer, text), 10).unwrap();
    assert_eq!(context.text, "The sky is blue.");
    assert_eq!(context.embedding, vec![2, 3, 4, 5, 6, 0, 0, 0, 0, 0]);
    assert_eq!(
        context.tokens,
        strings(&["The", "sky", "is", "blue", ".", "[PAD]", "[PAD]", "[PAD]", "[PAD]", "[PAD]"])
    );
}

#[test]
fn create_context_truncates_to_the_window() {
    let tokenizer = windowed_tokenizer(3);
    let text = "The sky is blue.";
    let context = create_context(String::from(text), encode(&tokenizer, text), 3).unwrap();
    assert_eq!(context.embedding, vec![2, 3, 4]);
    assert_eq!(context.tokens, strings(&["The", "sky", "is"]));
}

#[test]
fn create_context_always_has_the_width_of_the_window() {
    for width in 1..12usize {
        let tokenizer = windowed_tokenizer(width);
        for text in ["", "sky", "The sky is blue.", "is is is is is is is is is is is is is"] {
            let context =
                create_context(String::from(text), encode(&tokenizer, text), width).unwrap();
            assert_eq!(context.embedding.len(), width);
        }
    }
}

#[test]
fn create_context_refuses_another_width_than_the_window() {
    let tokenizer = plain_tokenizer(true);
    let text = "The sky is blue.";
    assert!(matches!(
        create_context(String::from(text), encode(&tokenizer, text), 10),
        Err(EncodingError::WrongWidth { found: 5 })
    ));
    let windowed = windowed_tokenizer(10);
    assert!(matches!(
        create_context(String::from("The sky"), encode(&windowed, "The sky"), 8),
        Err(EncodingError::WrongWidth { found: 10 })
    ));
}

#[test]
fn create_context_hands_on_a_refusal_of_the_model() {
    let tokenizer = plain_tokenizer(false);
    let text = "The sky is green.";
    let outcome = encode(&tokenizer, text);
    assert!(outcome.is_err());
    match create_context(String::from(text), outcome, 5) {
        Err(EncodingError::Refused { message }) => assert!(!message.is_empty()),
        _ => panic!("a refusal was expected"),
    }
}

#[test]
fn create_context_keeps_what_the_model_gave() {
    let encoded = Encoded { tokens: strings(&["a", "b"]), ids: vec![7, 8] };
    let context = create_context(String::from("a b"), Ok(encoded), 2).unwrap();
    assert_eq!(context.text, "a b");
    assert_eq!(context.tokens, strings(&["a", "b"]));
    assert_eq!(context.embedding, vec![7, 8]);
}

#[test]
fn create_context_refuses_short_and_long_encodings() {
    let short = Encoded { tokens: strings(&["a"]), ids: vec![7] };
    assert!(matches!(
        create_context(String::from("a"), Ok(short), 2),
        Err(EncodingError::WrongWidth { found: 1 })
    ));
    let long = Encoded { tokens: strings(&["a", "b", "c"]), ids: vec![7, 8, 9] };
    assert!(matches!(
        create_context(String::from("a b c"), Ok(long), 2),
        Err(EncodingError::WrongWidth { found: 3 })
    ));
}

#[test]
fn create_context_hands_on_the_message_of_a_refusal() {
    match create_context(String::from("a"), Err(String::from("no such token")), 2) {
        Err(EncodingError::Refused { message }) => assert_eq!(message, "no such token"),
        _ => panic!("a refusal was expected"),
    }
}
