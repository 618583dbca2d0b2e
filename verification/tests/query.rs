use c3po::query::{local_parse, parse_lowered};

fn words(v: &[String]) -> Vec<&str> {
    v.iter().map(|s| s.as_str()).collect()
}

#[test]
fn stop_and_recency_words_are_dropped() {
    let p = local_parse("Cherche ma dernière facture EDF");
    assert_eq!(words(&p.keywords), vec!["facture", "edf"]);
    assert!(p.want_latest);
}

#[test]
fn contractions_are_split() {
    let p = local_parse("avis d'imposition 2025");
    assert_eq!(words(&p.keywords), vec!["avis", "imposition", "2025"]);
    assert!(!p.want_latest);
}

#[test]
fn elided_article_is_dropped() {
    let p = local_parse("l'EDF");
    assert_eq!(words(&p.keywords), vec!["edf"]);
}

#[test]
fn recency_word_inside_contraction_is_kept_as_keyword() {
    let p = local_parse("l'dernier");
    assert_eq!(words(&p.keywords), vec!["dernier"]);
    assert!(!p.want_latest);
}

#[test]
fn any_white_space_separates() {
    let p = local_parse("  factures\tgaz\u{00a0}2024\n");
    assert_eq!(words(&p.keywords), vec!["factures", "gaz", "2024"]);
}

#[test]
fn empty_request() {
    let p = local_parse("");
    assert!(p.keywords.is_empty());
    assert!(!p.want_latest);
    let q = local_parse("le la les");
    assert!(q.keywords.is_empty());
}

#[test]
fn recency_only() {
    let p = local_parse("Récent");
    assert!(p.keywords.is_empty());
    assert!(p.want_latest);
}

#[test]
fn empty_parts_are_dropped() {
    let p = parse_lowered("''bail''");
    assert_eq!(words(&p.keywords), vec!["bail"]);
}

#[test]
fn parse_lowered_does_not_lowercase() {
    let p = parse_lowered("EDF Mon");
    assert_eq!(words(&p.keywords), vec!["EDF", "Mon"]);
}

#[test]
fn joined_requests_parse_as_both() {
    let a = parse_lowered("cherche l'edf");
    let b = parse_lowered("dernière facture");
    let j = parse_lowered("cherche l'edf dernière facture");
    let mut both = a.keywords.clone();
    both.extend(b.keywords.clone());
    assert_eq!(j.keywords, both);
    assert_eq!(j.want_latest, a.want_latest || b.want_latest);
}
