use c3po::ollama::{
    build_prompt, json_candidate, ollama_exe_candidate, ollama_status_from, resolve_query,
    PROMPT_HEAD, PROMPT_TAIL,
};
use c3po::query::ParsedQuery;

#[test]
fn status_when_not_installed() {
    let st = ollama_status_from(false, Some(vec![Some("llama3".to_string())]));
    assert!(!st.installed);
    assert!(!st.running);
    assert!(st.models.is_empty());
}

#[test]
fn status_when_not_answering() {
    let st = ollama_status_from(true, None);
    assert!(st.installed);
    assert!(!st.running);
    assert!(st.models.is_empty());
}

#[test]
fn status_lists_named_models() {
    let st = ollama_status_from(
        true,
        Some(vec![Some("llama3:latest".to_string()), None, Some("mistral".to_string())]),
    );
    assert!(st.installed && st.running);
    assert_eq!(st.models, vec!["llama3:latest".to_string(), "mistral".to_string()]);
    let st = ollama_status_from(true, Some(vec![]));
    assert!(st.running);
    assert!(st.models.is_empty());
}

#[test]
fn prompt_holds_the_request() {
    let p = build_prompt("ma facture");
    assert_eq!(p, format!("{}ma facture{}", PROMPT_HEAD, PROMPT_TAIL));
    assert!(p.contains("User query: \"ma facture\""));
    assert!(p.ends_with("Output ONLY the JSON object."));
    assert!(p.contains("{\n  \"keywords\": [\"word1\", \"word2\"],"));
}

#[test]
fn object_is_cut_out_of_chatter() {
    let raw = "Sure! {\"keywords\": [\"edf\"], \"want_latest\": false} Hope it helps";
    assert_eq!(
        json_candidate(raw).as_deref(),
        Some("{\"keywords\": [\"edf\"], \"want_latest\": false}")
    );
}

#[test]
fn object_spans_first_open_to_last_close() {
    assert_eq!(json_candidate("a{b}c{d}e").as_deref(), Some("{b}c{d}"));
    assert_eq!(json_candidate("é{ü}").as_deref(), Some("{ü}"));
}

#[test]
fn no_object_found() {
    assert!(json_candidate("").is_none());
    assert!(json_candidate("no braces").is_none());
    assert!(json_candidate("} before {").is_none());
    assert!(json_candidate("{ unterminated").is_none());
    assert!(json_candidate("{").is_none());
}

#[test]
fn model_parse_is_kept() {
    let m = ParsedQuery { keywords: vec!["x".to_string()], want_latest: true };
    let p = resolve_query("cherche le fichier edf", Some(m));
    assert_eq!(p.keywords, vec!["x".to_string()]);
    assert!(p.want_latest);
}

#[test]
fn local_parse_is_the_fallback() {
    let p = resolve_query("cherche le fichier EDF", None);
    assert_eq!(p.keywords, vec!["edf".to_string()]);
    assert!(!p.want_latest);
}

#[test]
fn executable_path_under_local_app_data() {
    assert_eq!(
        ollama_exe_candidate("C:\\Users\\me\\AppData\\Local"),
        "C:\\Users\\me\\AppData\\Local\\Programs\\Ollama\\ollama.exe"
    );
}
