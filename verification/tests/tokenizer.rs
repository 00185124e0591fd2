use nano_gpt::tokenizer::{CharTokenizer, Error, Tokenizer};

#[test]
fn vocab_size_matches_unique_chars() {
    let tok = CharTokenizer::from_text("hello");
    // unique: h, e, l, o
    assert_eq!(tok.vocab_size(), 4);
}

#[test]
fn empty_corpus_yields_empty_vocab() {
    let tok = CharTokenizer::from_text("");
    assert_eq!(tok.vocab_size(), 0);
    assert_eq!(tok.encode("").unwrap(), Vec::<u32>::new());
}

#[test]
fn encode_decode_round_trip() {
    let tok = CharTokenizer::from_text("hello world");
    let ids = tok.encode("hello").unwrap();
    let text = tok.decode(&ids).unwrap();
    assert_eq!(text, "hello");
}

#[test]
fn encode_unknown_char_errors() {
    let tok = CharTokenizer::from_text("abc");
    let err = tok.encode("ad").unwrap_err();
    assert!(matches!(err, Error::UnknownChar('d')));
}

#[test]
fn decode_unknown_token_errors() {
    let tok = CharTokenizer::from_text("abc");
    let err = tok.decode(&[42]).unwrap_err();
    assert!(matches!(err, Error::UnknownToken(42)));
}

#[test]
fn vocab_is_deterministic_regardless_of_input_order() {
    let a = CharTokenizer::from_text("cba");
    let b = CharTokenizer::from_text("abc");
    assert_eq!(a.encode("abc").unwrap(), b.encode("abc").unwrap());
}

#[test]
fn handles_non_ascii_chars() {
    let tok = CharTokenizer::from_text("あいう");
    let ids = tok.encode("いあう").unwrap();
    assert_eq!(tok.decode(&ids).unwrap(), "いあう");
}

#[test]
fn ids_follow_code_point_order() {
    let tok = CharTokenizer::from_text("hello world");
    // sorted: ' ' d e h l o r w
    assert_eq!(tok.vocab_size(), 8);
    assert_eq!(tok.encode(" dehlorw").unwrap(), vec![0, 1, 2, 3, 4, 5, 6, 7]);
    assert_eq!(tok.encode("hello").unwrap(), vec![3, 2, 4, 4, 5]);
}

#[test]
fn encode_reports_the_first_unknown_char() {
    let tok = CharTokenizer::from_text("abc");
    let err = tok.encode("abxyz").unwrap_err();
    assert_eq!(err, Error::UnknownChar('x'));
}

#[test]
fn decode_reports_the_first_unknown_token() {
    let tok = CharTokenizer::from_text("abc");
    assert_eq!(tok.decode(&[0, 1, 2]).unwrap(), "abc");
    let err = tok.decode(&[2, 3, 7]).unwrap_err();
    assert_eq!(err, Error::UnknownToken(3));
}

#[test]
fn decode_of_no_tokens_is_empty() {
    let tok = CharTokenizer::from_text("abc");
    assert_eq!(tok.decode(&[]).unwrap(), "");
}

#[test]
fn repeated_corpora_give_the_same_vocabulary() {
    let a = CharTokenizer::from_text("aaabbbccc");
    let b = CharTokenizer::from_text("cab");
    assert_eq!(a.vocab_size(), 3);
    assert_eq!(a.encode("cab").unwrap(), b.encode("cab").unwrap());
    assert_eq!(a.encode("cab").unwrap(), vec![2, 0, 1]);
}

#[test]
fn clone_keeps_the_vocabulary() {
    let tok = CharTokenizer::from_text("zyx");
    let copy = tok.clone();
    assert_eq!(copy.vocab_size(), 3);
    assert_eq!(copy.encode("xyz").unwrap(), vec![0, 1, 2]);
}
