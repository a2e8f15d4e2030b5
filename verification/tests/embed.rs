use kb::embed::{first_vector, unexpected_response, OllamaEmbedder, DEFAULT_BASE_URL, DEFAULT_MODEL};
use kb::error::KbError;

#[test]
fn settings_have_defaults() {
    let e = OllamaEmbedder::new(None, None);
    assert_eq!((e.base_url.as_str(), e.model.as_str()), (DEFAULT_BASE_URL, DEFAULT_MODEL));
    assert_eq!(e.endpoint(), "http://127.0.0.1:11434/api/embed");
    let set = OllamaEmbedder::new(Some("http://h"), Some("m"));
    assert_eq!((set.endpoint().as_str(), set.model.as_str()), ("http://h/api/embed", "m"));
}

#[test]
fn failing_embedder_reports_clear_error() {
    let err = KbError::Embed("ollama unreachable".to_string());
    assert!(err.message().contains("unreachable"));
}

#[test]
fn a_service_that_cannot_be_reached_is_named() {
    let err = OllamaEmbedder::new(Some("http://h"), Some("m")).unreachable("refused");
    assert_eq!(
        err.message(),
        "cannot reach ollama at http://h with model 'm' (is `ollama serve` running, and has `ollama pull m` been run? \u{2014} refused)"
    );
    assert_eq!(unexpected_response("eof").message(), "unexpected response from ollama: eof");
}

#[test]
fn the_first_vector_is_taken() {
    assert_eq!(first_vector(vec![vec![1.5f32], vec![2.0]]).unwrap(), vec![1.5f32]);
    let none: Vec<Vec<f32>> = vec![];
    assert_eq!(first_vector(none).unwrap_err().message(), "ollama returned no embedding vector");
}
