use llm_from_scratch::tokenizer::bpe::{merge_pair, BPETokenizer};
use llm_from_scratch::tokenizer::simple::{to_lowercase, CharTokenizer, SimpleTokenizer};
use llm_from_scratch::tokenizer::{SpecialTokens, Tokenizer};

fn strings(v: &[&str]) -> Vec<String> {
    v.iter().map(|s| s.to_string()).collect()
}

#[test]
fn test_char_tokenizer_roundtrip() {
    let tokenizer = CharTokenizer::new();
    let text = "Hello, World! 123";
    let tokens = tokenizer.encode(text);
    let decoded = tokenizer.decode(&tokens);
    assert_eq!(text, decoded);
}

#[test]
fn test_simple_tokenizer_roundtrip() {
    let text = "the quick brown fox jumps";
    let tokenizer = SimpleTokenizer::from_text(text, 1);
    let tokens = tokenizer.encode(text);
    let decoded = tokenizer.decode(&tokens);
    assert_eq!(text, decoded);
}

#[test]
fn test_bpe_tokenizer_roundtrip() {
    let corpus = "hello world hello there world peace";
    let tokenizer = BPETokenizer::train(corpus, 300);

    let text = "hello";
    let tokens = tokenizer.encode(text);
    let decoded = tokenizer.decode(&tokens);
    assert_eq!(text, decoded);
}

#[test]
fn test_char_tokenizer() {
    let tokenizer = CharTokenizer::new();

    let text = "Hello";
    let encoded = tokenizer.encode(text);
    let decoded = tokenizer.decode(&encoded);

    assert_eq!(decoded, text);
}

#[test]
fn test_char_tokenizer_from_text() {
    let text = "hello world";
    let tokenizer = CharTokenizer::from_text(text);

    let encoded = tokenizer.encode("hello");
    let decoded = tokenizer.decode(&encoded);

    assert_eq!(decoded, "hello");
}

#[test]
fn test_simple_tokenizer() {
    let text = "hello world hello rust world";
    let tokenizer = SimpleTokenizer::from_text(text, 1);

    let encoded = tokenizer.encode("hello world");
    let decoded = tokenizer.decode(&encoded);

    assert_eq!(decoded, "hello world");
}

#[test]
fn test_bpe_training() {
    let text = "low lower lowest low lower lowest low low";
    let tokenizer = BPETokenizer::train(text, 20);

    assert!(tokenizer.vocab_size() <= 20);
    assert!(tokenizer.merges().len() > 0);
}

#[test]
fn test_bpe_encode_decode() {
    let text = "low lower lowest low lower lowest";
    let tokenizer = BPETokenizer::train(text, 30);

    let encoded = tokenizer.encode("low");
    let decoded = tokenizer.decode(&encoded);

    assert_eq!(decoded, "low");
}

#[test]
fn test_merge_pair() {
    let tokens = vec!["l".to_string(), "o".to_string(), "w".to_string()];
    let merged = merge_pair(&tokens, "l", "o", "lo");

    assert_eq!(merged, vec!["lo", "w"]);
}

#[test]
fn test_tokenize() {
    let text = "aa bb aa bb aa bb";
    let tokenizer = BPETokenizer::train(text, 10);

    let tokens = tokenizer.tokenize("aa");
    assert!(tokens.len() <= 2);
}

// ---- further cases ----

#[test]
fn char_tokenizer_ascii_ids() {
    let t = CharTokenizer::new();
    assert_eq!(t.encode("Az0"), vec![65, 122, 48]);
    assert_eq!(t.encode("\0"), vec![128]);
    assert_eq!(t.decode(&[128, 72, 105]), "\0Hi");
    assert_eq!(t.vocab_size(), 256);
    let sp = t.special_tokens();
    assert_eq!((sp.pad, sp.bos, sp.eos, sp.unk, sp.mask), (Some(128), Some(129), Some(130), Some(131), None));
}

#[test]
fn char_tokenizer_unknown_char_is_unk_and_dropped() {
    let t = CharTokenizer::new();
    assert_eq!(t.encode("é"), vec![131]);
    assert_eq!(t.decode(&[131, 200, 65]), "A");
}

#[test]
fn char_tokenizer_from_text_ids() {
    let t = CharTokenizer::from_text("abca");
    assert_eq!(t.encode("abc"), vec![1, 2, 3]);
    assert_eq!(t.vocab_size(), 4);
    // unknown character: no unk token, so id 0 (padding)
    assert_eq!(t.encode("z"), vec![0]);
    assert_eq!(t.decode(&[0, 3, 2, 1, 9]), "\0cba");
    assert_eq!(t.special_tokens().pad, Some(0));
    assert_eq!(t.special_tokens().unk, None);
}

#[test]
fn char_tokenizer_default_is_ascii() {
    let t = CharTokenizer::default();
    assert_eq!(t.vocab_size(), 256);
    assert_eq!(t.encode("a"), vec![97]);
}

#[test]
fn simple_tokenizer_ids_and_unknown() {
    let t = SimpleTokenizer::from_text("b a b c", 1);
    // specials 0..3, then b, a, c in order of first occurrence
    assert_eq!(t.encode("a b c d"), vec![5, 4, 6, 3]);
    assert_eq!(t.vocab_size(), 7);
    assert_eq!(t.decode(&[0, 4, 99, 6]), "<pad> b c");
}

#[test]
fn simple_tokenizer_min_freq() {
    let t = SimpleTokenizer::from_text("x y x z x y", 2);
    assert_eq!(t.vocab_size(), 6);
    assert_eq!(t.encode("x y z"), vec![4, 5, 3]);
}

#[test]
fn simple_tokenizer_lowercases() {
    let t = SimpleTokenizer::from_text("Hello WORLD", 1);
    assert_eq!(t.encode("HELLO world"), vec![4, 5]);
    assert_eq!(t.decode(&t.encode("Hello World")), "hello world");
}

#[test]
fn simple_tokenizer_special_word_in_text() {
    let t = SimpleTokenizer::from_text("<pad> x", 1);
    // "<pad>" appears twice in the vocabulary; its id is the later one
    assert_eq!(t.encode("<pad>"), vec![4]);
    assert_eq!(t.vocab_size(), 5);
    assert_eq!(t.decode(&[0, 4]), "<pad> <pad>");
}

#[test]
fn to_lowercase_maps_letters() {
    assert_eq!(to_lowercase("HeLLo ÄÖ"), "hello äö");
}

#[test]
fn merge_pair_no_overlap_left_to_right() {
    let t = strings(&["a", "a", "a"]);
    assert_eq!(merge_pair(&t, "a", "a", "aa"), vec!["aa", "a"]);
    let t = strings(&["a"]);
    assert_eq!(merge_pair(&t, "a", "b", "ab"), vec!["a"]);
    let t: Vec<String> = Vec::new();
    assert!(merge_pair(&t, "a", "b", "ab").is_empty());
}

#[test]
fn bpe_train_table_and_merges() {
    let t = BPETokenizer::train("ab ab", 100);
    let table: Vec<(String, usize)> = t.token_table().clone();
    assert_eq!(
        table,
        vec![
            ("<pad>".to_string(), 0),
            ("<unk>".to_string(), 1),
            ("<bos>".to_string(), 2),
            ("<eos>".to_string(), 3),
            ("a".to_string(), 4),
            ("b".to_string(), 5),
            (" ".to_string(), 6),
            ("ab".to_string(), 7),
        ]
    );
    assert_eq!(t.merges(), &vec![("a".to_string(), "b".to_string())]);
    assert_eq!(t.encode("ab ba"), vec![7, 5, 4]);
    assert_eq!(t.decode(&[7, 6, 4, 42]), "ab a");
    let sp = t.special_tokens();
    assert_eq!((sp.pad, sp.unk, sp.bos, sp.eos, sp.mask), (Some(0), Some(1), Some(2), Some(3), None));
}

#[test]
fn bpe_train_stops_at_vocab_size() {
    let t = BPETokenizer::train("abc abc", 8);
    // 4 specials + a, b, c, space = 8: no room for merges
    assert!(t.merges().is_empty());
    assert_eq!(t.vocab_size(), 8);
}

#[test]
fn bpe_train_stops_without_pairs() {
    let t = BPETokenizer::train("ab", 1000);
    assert_eq!(t.merges().len(), 1);
    assert_eq!(t.vocab_size(), 7);
}

#[test]
fn bpe_unknown_character_is_unk() {
    let t = BPETokenizer::train("ab", 1000);
    assert_eq!(t.encode("az"), vec![4, 1]);
    assert_eq!(t.decode(&t.encode("az")), "a<unk>");
}

#[test]
fn bpe_roundtrip_drops_whitespace() {
    let t = BPETokenizer::train("the cat sat on the mat", 40);
    assert_eq!(t.decode(&t.encode("the  mat\tsat")), "thematsat");
}

#[test]
fn bpe_from_vocab_and_merges() {
    let vocab = vec![("a".to_string(), 10), ("b".to_string(), 11), ("ab".to_string(), 12)];
    let merges = vec![("a".to_string(), "b".to_string())];
    let mut t = BPETokenizer::from_vocab_and_merges(vocab, merges);
    assert_eq!(t.tokenize("abab b"), vec!["ab", "ab", "b"]);
    assert_eq!(t.encode("abab b"), vec![12, 12, 11]);
    assert_eq!(t.encode("c"), vec![0]);
    assert_eq!(t.decode(&[12, 10, 3]), "aba");
    assert_eq!(t.vocab_size(), 3);
    assert_eq!(t.special_tokens().unk, None);
    t.restore_special_tokens();
    assert_eq!(t.special_tokens().pad, None);
}

#[test]
fn bpe_restore_special_tokens() {
    let mut t = BPETokenizer::from_parts(
        vec![("<unk>".to_string(), 7), ("<mask>".to_string(), 9)],
        vec![(7, "<unk>".to_string()), (9, "<mask>".to_string())],
        Vec::new(),
        SpecialTokens::default(),
    );
    t.restore_special_tokens();
    let sp = t.special_tokens();
    assert_eq!((sp.pad, sp.unk, sp.bos, sp.eos, sp.mask), (None, Some(7), None, None, Some(9)));
    assert_eq!(t.encode("q"), vec![7]);
}

#[test]
fn special_tokens_default_is_empty() {
    let sp = SpecialTokens::default();
    assert_eq!((sp.pad, sp.bos, sp.eos, sp.unk, sp.mask), (None, None, None, None, None));
}

#[test]
fn merge_pair_keeps_text() {
    let t = strings(&["a", "b", "c", "a", "b"]);
    let merged = merge_pair(&t, "a", "b", "ab");
    assert_eq!(merged, vec!["ab", "c", "ab"]);
    assert_eq!(merged.concat(), t.concat());
}

#[test]
fn bpe_trained_vocab_within_limit() {
    let t = BPETokenizer::train("aaaa bbbb aaaa", 9);
    assert!(t.vocab_size() <= 9);
    assert_eq!(t.merges().len(), 2);
}

#[test]
fn char_tokenizer_from_text_with_nul() {
    let t = CharTokenizer::from_text("a\0b");
    assert_eq!(t.vocab_size(), 3);
    assert_eq!(t.encode("\0ab"), vec![0, 1, 2]);
}

#[test]
fn simple_tokenizer_from_words_and_encode_words() {
    let words = strings(&["b", "a", "b", "c", "b"]);
    let t = SimpleTokenizer::from_words(&words, 2);
    assert_eq!(t.vocab_size(), 5);
    assert_eq!(t.encode_words(&strings(&["b", "a", "Q"])), vec![4, 3, 3]);
    assert_eq!(t.decode(&[1, 2, 3, 4]), "<bos> <eos> <unk> b");
}

#[test]
fn merge_pair_twice_is_once() {
    let tokens = strings(&["a", "b", "a", "b", "b", "a", "a", "b"]);
    let once = merge_pair(&tokens, "a", "b", "ab");
    assert_eq!(once, strings(&["ab", "ab", "b", "a", "ab"]));
    assert_eq!(merge_pair(&once, "a", "b", "ab"), once);
    let repeated = strings(&["a", "a", "a"]);
    let once = merge_pair(&repeated, "a", "a", "aa");
    assert_eq!(once, strings(&["aa", "a"]));
    assert_eq!(merge_pair(&once, "a", "a", "aa"), once);
}

#[test]
fn bpe_tokens_are_tokens_of_words() {
    let t = BPETokenizer::train("low lower lowest newer wider", 40);
    let text = "  lower\tnewest  low ";
    let mut by_words: Vec<String> = Vec::new();
    for w in text.split_whitespace() {
        by_words.extend(t.tokenize(w));
    }
    let tokens = t.tokenize(text);
    assert_eq!(tokens, by_words);
    assert!(tokens.iter().all(|tok| !tok.is_empty() && !tok.contains(char::is_whitespace)));
}

#[test]
fn bpe_encoding_of_training_characters_has_no_special_id() {
    let corpus = "hello world hello there";
    let t = BPETokenizer::train(corpus, 30);
    let ids = t.encode("the low hero word");
    assert!(!ids.is_empty());
    assert!(ids.iter().all(|&id| id >= 4));
    assert_eq!(t.decode(&ids), "thelowheroword");
}

#[test]
fn char_tokenizer_keeps_only_ascii_of_any_text() {
    let t = CharTokenizer::new();
    assert_eq!(t.decode(&t.encode("naïve café ok")), "nave caf ok");
    assert_eq!(t.decode(&t.encode("日本")), "");
}

#[test]
fn char_tokenizer_from_text_unknown_becomes_nul() {
    let t = CharTokenizer::from_text("abc");
    assert_eq!(t.decode(&t.encode("abzc\0")), "ab\0c\0");
}

#[test]
fn simple_tokenizer_unknown_words_decode_as_unk() {
    let t = SimpleTokenizer::from_text("the cat sat on the mat", 1);
    assert_eq!(t.decode(&t.encode("The DOG sat  on a mat")), "the <unk> sat on <unk> mat");
    let t0 = SimpleTokenizer::from_text("one two", 0);
    assert_eq!(t0.decode(&t0.encode("one three")), "one <unk>");
}

#[test]
fn bpe_tokenizer_clone_keeps_tables() {
    let t = BPETokenizer::train("abab abab", 8);
    let c = t.clone();
    assert_eq!(c.token_table(), t.token_table());
    assert_eq!(c.merges(), t.merges());
    assert_eq!(c.encode("abab"), t.encode("abab"));
    assert_eq!(c.vocab_size(), t.vocab_size());
}
