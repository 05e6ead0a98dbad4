//! Which files of the hub a tokenizer comes from.
use tokie::hub::tokiers_repo_name;

#[test]
fn test_tokiers_repo_name() {
    // Case-insensitive matching
    assert_eq!(tokiers_repo_name("BAAI/bge-base-en-v1.5"), Some("bge-base-en-v1.5"));
    assert_eq!(tokiers_repo_name("baai/bge-base-en-v1.5"), Some("bge-base-en-v1.5"));
    // Known models
    assert_eq!(tokiers_repo_name("sentence-transformers/all-MiniLM-L6-v2"), Some("all-MiniLM-L6-v2"));
    assert_eq!(tokiers_repo_name("openai-community/gpt2"), Some("gpt2"));
    assert_eq!(tokiers_repo_name("meta-llama/Llama-3.2-1B"), Some("Llama-3.2-1B"));
    // Unknown model
    assert_eq!(tokiers_repo_name("some-random/model"), None);
}
