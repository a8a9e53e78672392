use recursive_split::length::CustomLength;
use recursive_split::length::LengthFunction;
use recursive_split::length::TiktokenEncoding;
use recursive_split::length::length_function_for_tiktoken;
use recursive_split::length::SplitterError;
use recursive_split::length::TokenizerSelection;
use recursive_split::length::select_tokenizer;
use recursive_split::splitter::RecursiveSplitter;

fn splitter(
    chunk_size: usize,
    chunk_overlap: usize,
    separators: Vec<String>,
    trim: bool,
) -> RecursiveSplitter {
    RecursiveSplitter::new(chunk_size, chunk_overlap, LengthFunction::StrLen, separators, trim)
        .ok()
        .expect("valid configuration")
}

#[test]
fn reconstruction_simple() {
    let s = splitter(10, 0, vec![], false);
    let text = "Hello world. This is a test.";
    let chunks = s.split_text(text);
    assert_eq!(chunks.concat(), text);
}

#[test]
fn reconstruction_multiline() {
    let s = splitter(7, 0, vec![], false);
    let text = "one two three\n\nfour five\nsix seven eight nine ten";
    let chunks = s.split_text(text);
    assert_eq!(chunks.concat(), text);
}

#[test]
fn reconstruction_whitespace_only() {
    let s = splitter(3, 0, vec![], false);
    let text = "   \n\n  \n ";
    let chunks = s.split_text(text);
    assert_eq!(chunks.concat(), text);
}

#[test]
fn concrete_scenario_chunk_size_ten() {
    let s = splitter(10, 0, vec![], false);
    let chunks = s.split_text("Hello world. This is a test.");
    assert_eq!(chunks, vec!["Hello ", "world. ", "This is a ", "test."]);
    for c in &chunks {
        assert!(c.chars().count() <= 10);
    }
}

#[test]
fn separator_priority_prefers_paragraphs() {
    let s = splitter(3, 0, vec![], false);
    let chunks = s.split_text("A\n\nB\n\nC");
    assert_eq!(chunks, vec!["A\n\n", "B\n\n", "C"]);
}

#[test]
fn oversize_single_characters_pass_through() {
    let s = splitter(1, 0, vec![], false);
    let chunks = s.split_text("ab");
    assert_eq!(chunks, vec!["a", "b"]);
}

#[test]
fn bounded_size_with_raw_length() {
    let s = splitter(4, 0, vec![], false);
    let chunks = s.split_text("aa bb cc dd ee");
    assert_eq!(chunks.concat(), "aa bb cc dd ee");
    for c in &chunks {
        assert!(c.chars().count() <= 4);
    }
}

#[test]
fn overlap_repeats_window_tail() {
    let s = splitter(4, 2, vec![], false);
    let chunks = s.split_text("a b c d e");
    assert_eq!(chunks, vec!["a b ", "b c ", "c d ", "d e"]);
    for w in chunks.windows(2) {
        // a non-empty prefix of each chunk is a suffix of the previous one
        let mut shared = 0;
        for l in 1..=w[1].len() {
            if w[0].ends_with(&w[1][..l]) {
                shared = l;
            }
        }
        assert!(shared > 0);
    }
}

#[test]
fn trim_drops_whitespace_chunks() {
    let s = splitter(100, 0, vec![], true);
    let chunks = s.split_text("hi   \n\n   ");
    assert_eq!(chunks, vec!["hi"]);
}

#[test]
fn trim_output_is_trimmed_and_nonempty() {
    let s = splitter(6, 0, vec![], true);
    let chunks = s.split_text("  one two   three  \n\n  four ");
    assert!(!chunks.is_empty());
    for c in &chunks {
        assert!(!c.is_empty());
        assert_eq!(c.trim(), c);
    }
}

#[test]
fn custom_separator_recurses_to_characters() {
    let s = splitter(3, 0, vec!["::".to_string()], false);
    let chunks = s.split_text("ab::cd");
    assert_eq!(chunks.concat(), "ab::cd");
    for c in &chunks {
        assert!(c.chars().count() <= 3);
    }
}

#[test]
fn empty_text_yields_no_chunks() {
    let s = splitter(5, 0, vec![], false);
    let chunks = s.split_text("");
    assert!(chunks.is_empty());
}

#[test]
fn count_tokens_raw_length_counts_characters() {
    let s = splitter(5, 0, vec![], false);
    assert_eq!(s.count_tokens("hello"), 5);
    assert_eq!(s.count_tokens(""), 0);
    assert_eq!(s.count_tokens("a\u{3002}b"), 3);
}

#[test]
fn overlap_not_below_chunk_size_is_rejected() {
    let r = RecursiveSplitter::new(4, 4, LengthFunction::StrLen, vec![], false);
    match r {
        Ok(_) => panic!("an overlap as large as the chunk size must be rejected"),
        Err(e) => {
            assert_eq!(e.message(), "chunk_overlap must be smaller than chunk_size");
        }
    }
}

#[test]
fn unknown_tokenizer_kind_is_rejected() {
    let r = select_tokenizer("bogus", "");
    match r {
        Ok(_) => panic!("an unknown tokenizer kind must be rejected"),
        Err(e) => {
            assert_eq!(e.message(), "Unknown tokenizer kind: bogus");
        }
    }
}

#[test]
fn unknown_tokenizer_subkind_is_rejected() {
    let r = select_tokenizer("tiktoken", "nope");
    match r {
        Ok(_) => panic!("an unknown tokenizer subkind must be rejected"),
        Err(e) => {
            assert_eq!(e.message(), "Unknown tokenizer subkind: nope");
        }
    }
}

#[test]
fn known_tokenizer_kinds_are_selected() {
    assert!(matches!(select_tokenizer("len", ""), Ok(TokenizerSelection::RawLen)));
    assert!(matches!(select_tokenizer("tiktoken", ""), Ok(TokenizerSelection::Tiktoken(_))));
    assert!(matches!(
        select_tokenizer("openai", "p50k_base"),
        Ok(TokenizerSelection::Tiktoken(_))
    ));
    assert!(matches!(
        select_tokenizer("huggingface", "some/path.json"),
        Ok(TokenizerSelection::HuggingFaceFile)
    ));
}

#[test]
fn load_error_message_is_passed_through() {
    let e = SplitterError::TokenizerLoad("could not read file".to_string());
    assert_eq!(e.message(), "could not read file");
}

#[test]
fn explicit_empty_separator_is_not_duplicated() {
    let s = splitter(3, 0, vec!["x".to_string(), String::new()], false);
    let chunks = s.split_text("aaxbbxcc");
    assert_eq!(chunks, vec!["aax", "bbx", "cc"]);
}

#[test]
fn count_tokens_with_tiktoken_cl100k() {
    let lf = length_function_for_tiktoken(&TiktokenEncoding::Cl100kBase)
        .ok()
        .expect("embedded encoder");
    let s = RecursiveSplitter::new(5, 0, lf, vec![], false).ok().expect("valid configuration");
    assert_eq!(s.count_tokens(""), 0);
    assert_eq!(s.count_tokens("hello world"), 2);
    assert_eq!(s.count_tokens("The quick brown fox jumps over the lazy dog"), 9);
}

#[test]
fn reconstruction_with_tiktoken_metric() {
    let lf = length_function_for_tiktoken(&TiktokenEncoding::P50kBase)
        .ok()
        .expect("embedded encoder");
    let s = RecursiveSplitter::new(3, 0, lf, vec![], false).ok().expect("valid configuration");
    let text = "one two three four five six seven";
    let chunks = s.split_text(text);
    assert!(chunks.len() > 1);
    assert_eq!(chunks.concat(), text);
}

#[test]
fn count_tokens_with_huggingface_tokenizer() {
    let json = "{\"version\":\"1.0\",\"pre_tokenizer\":{\"type\":\"Whitespace\"},\"model\":{\"type\":\"WordLevel\",\"vocab\":{\"hello\":0,\"world\":1,\"[UNK]\":2},\"unk_token\":\"[UNK]\"}}";
    let tok: tokenizers::Tokenizer = json.parse().expect("tokenizer definition");
    let s = RecursiveSplitter::new(5, 0, LengthFunction::HuggingFace(tok), vec![], false)
        .ok()
        .expect("valid configuration");
    assert_eq!(s.count_tokens("hello world"), 2);
    assert_eq!(s.count_tokens("hello world hello"), 3);
}

#[test]
fn custom_measure_counts_words() {
    let lf = LengthFunction::Custom(CustomLength::new(|s: &str| s.split_whitespace().count()));
    let s = RecursiveSplitter::new(3, 0, lf, vec![], false).ok().expect("valid configuration");
    assert_eq!(s.count_tokens("one two three four"), 4);
    let text = "one two three four five six seven eight";
    let chunks = s.split_text(text);
    assert_eq!(chunks.concat(), text);
    assert!(chunks.len() > 1);
    for c in &chunks {
        assert!(c.split_whitespace().count() <= 3);
    }
}
