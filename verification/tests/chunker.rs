use llm_rag::{chunk_text, pack_sentences, split_sentences, EncodingError, Sentence};
use std::collections::HashMap;
use tokenizers::models::wordlevel::WordLevel;
use tokenizers::pre_tokenizers::whitespace::Whitespace;
use tokenizers::Tokenizer;

fn counting_tokenizer(with_unknown: bool) -> Tokenizer {
    let mut vocab: HashMap<String, u32> = HashMap::new();
    let words =
        ["[PAD]", "The", "sky", "is", "blue", "Water", "boils", "at", "100", "degrees", "a", "b"];
    for (id, word) in words.iter().enumerate() {
        vocab.insert(String::from(*word), id as u32);
    }
    if with_unknown {
        vocab.insert(String::from("[UNK]"), 99);
    }
    let model = WordLevel::builder().vocab(vocab).unk_token(String::from("[UNK]")).build().unwrap();
    let mut tokenizer = Tokenizer::new(model);
    tokenizer.with_pre_tokenizer(Whitespace {});
    tokenizer
}

fn counts_of(tokenizer: &Tokenizer, text: &str) -> Vec<Result<usize, String>> {
    split_sentences(text)
        .iter()
        .map(|sentence| match tokenizer.encode(sentence.as_str(), false) {
            Ok(encoding) => Ok(encoding.get_tokens().len()),
            Err(error) => Err(error.to_string()),
        })
        .collect()
}

fn sentence(text: &str, tokens: usize) -> Sentence {
    Sentence { text: String::from(text), tokens }
}

fn fewest_groups(counts: &[usize], budget: usize) -> usize {
    let mut best = vec![usize::MAX; counts.len() + 1];
    best[0] = 0;
    for end in 1..=counts.len() {
        let mut sum = 0;
        for start in (0..end).rev() {
            sum += counts[start];
            if sum > budget {
                break;
            }
            if best[start] != usize::MAX && best[start] + 1 < best[end] {
                best[end] = best[start] + 1;
            }
        }
    }
    best[counts.len()]
}

#[test]
fn pack_fills_a_chunk_up_to_the_budget() {
    let sentences = vec![sentence("A", 3), sentence("B", 3), sentence("C", 3)];
    assert_eq!(pack_sentences(&sentences, 10), vec!["A. B. C."]);
    assert_eq!(pack_sentences(&sentences, 9), vec!["A. B. C."]);
    assert_eq!(pack_sentences(&sentences, 8), vec!["A. B.", "C."]);
    assert_eq!(pack_sentences(&sentences, 5), vec!["A.", "B.", "C."]);
}

#[test]
fn pack_keeps_two_sentences_that_just_fit_in_one_chunk() {
    let sentences = vec![sentence("a b", 2), sentence("c d", 2)];
    assert_eq!(pack_sentences(&sentences, 4), vec!["a b. c d."]);
    assert_eq!(pack_sentences(&sentences, 3), vec!["a b.", "c d."]);
}

#[test]
fn pack_counts_the_tokens_of_the_sentences_only() {
    let sentences = vec![sentence("A", 4), sentence("B", 4), sentence("C", 1)];
    assert_eq!(pack_sentences(&sentences, 9), vec!["A. B. C."]);
    assert_eq!(pack_sentences(&sentences, 8), vec!["A. B.", "C."]);
    assert_eq!(pack_sentences(&sentences, 5), vec!["A.", "B. C."]);
    assert_eq!(pack_sentences(&sentences, 4), vec!["A.", "B.", "C."]);
}

#[test]
fn pack_emits_the_last_chunk() {
    assert_eq!(pack_sentences(&vec![sentence("only", 1)], 512), vec!["only."]);
}

#[test]
fn pack_gives_an_over_long_sentence_a_chunk_of_its_own() {
    let sentences = vec![sentence("a", 1), sentence("long one", 5), sentence("x", 1), sentence("y", 1)];
    assert_eq!(pack_sentences(&sentences, 3), vec!["a.", "long one.", "x. y."]);
    assert_eq!(pack_sentences(&vec![sentence("long one", 5)], 2), vec!["long one."]);
}

#[test]
fn pack_skips_sentences_without_tokens() {
    let sentences = vec![sentence("", 0), sentence("a", 1), sentence("  ", 0), sentence("b", 1)];
    assert_eq!(pack_sentences(&sentences, 10), vec!["a. b."]);
    assert_eq!(pack_sentences(&vec![sentence("", 0)], 10), Vec::<String>::new());
    assert_eq!(pack_sentences(&Vec::new(), 10), Vec::<String>::new());
}

#[test]
fn pack_trims_each_sentence() {
    let sentences = vec![sentence("  hello world \t", 2), sentence(" again", 1)];
    assert_eq!(pack_sentences(&sentences, 10), vec!["hello world. again."]);
}

#[test]
fn pack_with_budget_zero_puts_each_sentence_alone() {
    let sentences = vec![sentence("a", 1), sentence("b", 2)];
    assert_eq!(pack_sentences(&sentences, 0), vec!["a.", "b."]);
}

#[test]
fn pack_takes_the_largest_counts() {
    let sentences = vec![sentence("a", usize::MAX), sentence("b", usize::MAX), sentence("c", 1)];
    assert_eq!(pack_sentences(&sentences, usize::MAX), vec!["a.", "b.", "c."]);
}

#[test]
fn pack_drops_no_sentence_and_keeps_every_chunk_within_budget() {
    let counts = [3usize, 1, 4, 1, 5, 9, 2, 6, 5, 3, 5, 0, 8, 9, 7];
    let sentences: Vec<Sentence> =
        counts.iter().enumerate().map(|(i, n)| sentence(&format!("s{}", i), *n)).collect();
    for budget in 0..30usize {
        let chunks = pack_sentences(&sentences, budget);
        let mut seen: Vec<String> = Vec::new();
        let mut totals: Vec<usize> = Vec::new();
        let mut firsts: Vec<usize> = Vec::new();
        for chunk in &chunks {
            let names: Vec<&str> = chunk.trim_end_matches('.').split(". ").collect();
            let numbers: Vec<usize> =
                names.iter().map(|name| counts[name[1..].parse::<usize>().unwrap()]).collect();
            let total: usize = numbers.iter().sum();
            assert!(names.len() == 1 || total <= budget);
            totals.push(total);
            firsts.push(numbers[0]);
            seen.extend(names.iter().map(|name| String::from(*name)));
        }
        for i in 0..chunks.len().saturating_sub(1) {
            assert!(totals[i] + firsts[i + 1] > budget);
        }
        let expected: Vec<String> = counts
            .iter()
            .enumerate()
            .filter(|(_, n)| **n > 0)
            .map(|(i, _)| format!("s{}", i))
            .collect();
        assert_eq!(seen, expected);
    }
}

#[test]
fn pack_makes_the_fewest_chunks_where_every_sentence_fits() {
    let counts = [3usize, 1, 4, 1, 5, 9, 2, 6, 5, 3, 5, 8, 9, 7, 9, 3];
    let sentences: Vec<Sentence> =
        counts.iter().enumerate().map(|(i, n)| sentence(&format!("s{}", i), *n)).collect();
    for budget in 9..40usize {
        assert_eq!(pack_sentences(&sentences, budget).len(), fewest_groups(&counts, budget));
    }
}

#[test]
fn chunk_text_counts_tokens_with_the_vocabulary_model() {
    let tokenizer = counting_tokenizer(true);
    let text = "The sky is blue. Water boils at 100 degrees! Why?\nBecause.";
    let counts = counts_of(&tokenizer, text);
    assert_eq!(counts, vec![Ok(4), Ok(5), Ok(1), Ok(1)]);
    assert_eq!(
        chunk_text(text, &counts, 8).unwrap(),
        vec!["The sky is blue.", "Water boils at 100 degrees. Why. Because."]
    );
    assert_eq!(
        chunk_text(text, &counts, 9).unwrap(),
        vec!["The sky is blue. Water boils at 100 degrees.", "Why. Because."]
    );
    assert_eq!(
        chunk_text(text, &counts, 512).unwrap(),
        vec!["The sky is blue. Water boils at 100 degrees. Why. Because."]
    );
}

#[test]
fn chunk_text_keeps_two_sentences_of_two_words_under_budget_four() {
    let tokenizer = counting_tokenizer(true);
    let counts = counts_of(&tokenizer, "a b. c d.");
    assert_eq!(counts, vec![Ok(2), Ok(2)]);
    let chunks = chunk_text("a b. c d.", &counts, 4).unwrap();
    assert_eq!(chunks, vec!["a b. c d."]);
    assert!(chunks[0].ends_with('.'));
}

#[test]
fn chunk_text_skips_sentences_in_which_the_model_counts_nothing() {
    let tokenizer = counting_tokenizer(true);
    let text = "The sky.. \n .is blue";
    assert_eq!(chunk_text(text, &counts_of(&tokenizer, text), 5).unwrap(), vec!["The sky. is blue."]);
    assert_eq!(chunk_text("", &Vec::new(), 5).unwrap(), Vec::<String>::new());
    let blank = " . ? !";
    assert_eq!(chunk_text(blank, &counts_of(&tokenizer, blank), 5).unwrap(), Vec::<String>::new());
}

#[test]
fn chunk_text_hands_on_the_first_refusal_of_the_model() {
    let tokenizer = counting_tokenizer(false);
    let fine = "The sky is blue.";
    assert!(chunk_text(fine, &counts_of(&tokenizer, fine), 8).is_ok());
    let text = "The sky is blue. The sky is green.";
    let counts = counts_of(&tokenizer, text);
    assert!(counts[0].is_ok() && counts[1].is_err());
    assert!(matches!(chunk_text(text, &counts, 8), Err(EncodingError::Refused { .. })));
    let two = vec![Ok(1), Err(String::from("first")), Err(String::from("second"))];
    match chunk_text("a. b. c.", &two, 8) {
        Err(EncodingError::Refused { message }) => assert_eq!(message, "first"),
        _ => panic!("a refusal was expected"),
    }
}

#[test]
fn chunk_text_refuses_counts_that_do_not_match_the_sentences() {
    assert!(matches!(
        chunk_text("One. Two.", &vec![Ok(1)], 8),
        Err(EncodingError::CountMismatch { sentences: 2, outcomes: 1 })
    ));
    assert!(matches!(
        chunk_text("", &vec![Err(String::from("x"))], 8),
        Err(EncodingError::CountMismatch { sentences: 0, outcomes: 1 })
    ));
}
