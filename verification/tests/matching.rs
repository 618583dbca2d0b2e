use c3po::matching::{contains_whole_word, extract_year, extract_year_bytes};

#[test]
fn year_in_tax_notice_name() {
    assert_eq!(extract_year("avis d'imposition 2025.pdf"), 2025);
}

#[test]
fn year_between_underscores() {
    assert_eq!(extract_year("travis_2019_backup"), 2019);
}

#[test]
fn no_year_gives_zero() {
    assert_eq!(extract_year("facture edf.pdf"), 0);
    assert_eq!(extract_year(""), 0);
    assert_eq!(extract_year("abc"), 0);
}

#[test]
fn year_out_of_range_is_ignored() {
    assert_eq!(extract_year("scan 1899.pdf"), 0);
    assert_eq!(extract_year("plan 2100.pdf"), 0);
    assert_eq!(extract_year("1900"), 1900);
    assert_eq!(extract_year("x2099y"), 2099);
}

#[test]
fn year_inside_longer_number_is_ignored() {
    assert_eq!(extract_year("ref 120251 doc"), 0);
    assert_eq!(extract_year("20251"), 0);
    assert_eq!(extract_year("02025"), 0);
}

#[test]
fn first_plausible_year_wins() {
    assert_eq!(extract_year("1999 puis 2005"), 1999);
    assert_eq!(extract_year("id 123456 bilan 2010 2011"), 2010);
}

#[test]
fn year_after_accented_text() {
    assert_eq!(extract_year("relevé été 2021"), 2021);
}

#[test]
fn year_from_bytes() {
    assert_eq!(extract_year_bytes(b"a-2003-b"), 2003);
    assert_eq!(extract_year_bytes(b"200"), 0);
}

#[test]
fn word_inside_other_word_is_not_found() {
    assert!(!contains_whole_word("travis_gh_page", "avis"));
}

#[test]
fn word_at_start_is_found() {
    assert!(contains_whole_word("avis d imposition", "avis"));
}

#[test]
fn word_after_dash_is_found() {
    assert!(contains_whole_word("mon-avis.pdf", "avis"));
}

#[test]
fn word_at_end_and_alone() {
    assert!(contains_whole_word("mon avis", "avis"));
    assert!(contains_whole_word("avis", "avis"));
    assert!(!contains_whole_word("avis2", "avis"));
    assert!(!contains_whole_word("2avis", "avis"));
}

#[test]
fn empty_or_longer_needle_is_not_found() {
    assert!(!contains_whole_word("avis", ""));
    assert!(!contains_whole_word("", ""));
    assert!(!contains_whole_word("avi", "avis"));
}

#[test]
fn later_occurrence_can_match() {
    assert!(contains_whole_word("travis avis", "avis"));
    assert!(contains_whole_word("c:\\docs\\edf\\facture.pdf", "edf"));
}

#[test]
fn match_is_case_sensitive() {
    assert!(!contains_whole_word("Avis", "avis"));
}

#[test]
fn accented_letter_does_not_separate_words() {
    assert!(!contains_whole_word("préavis.pdf", "avis"));
    assert!(!contains_whole_word("avisé", "avis"));
    assert!(!contains_whole_word("ταavis", "avis"));
    assert!(!contains_whole_word("٣avis", "avis"));
}

#[test]
fn non_letters_beyond_ascii_separate_words() {
    assert!(contains_whole_word("mon\u{00a0}avis", "avis"));
    assert!(contains_whole_word("«avis»", "avis"));
    assert!(contains_whole_word("avis→edf", "edf"));
    assert!(contains_whole_word("relevé été", "été"));
}

#[test]
fn word_between_spaces_is_found() {
    assert!(contains_whole_word("xavis avis avisx", "avis"));
    assert!(contains_whole_word("préavis avis", "avis"));
}
