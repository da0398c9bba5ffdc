use chat_repo::tokens::{bpe_tokenize, token_count};

#[test]
fn token_count_valid() {
    let tokens = token_count("This is a test      with spaces").unwrap();
    assert_eq!(tokens, 7);
}

#[test]
fn tokenize_valid() {
    let tokens = bpe_tokenize("This is a test      with spaces").unwrap();
    assert_eq!(
        tokens,
        vec!["This", " is", " a", " test", "     ", " with", " spaces"]
    );
}
