use c3po::ranking::FileItem;
use c3po::search::{decimal_chars, search_reply, search_result};

#[test]
fn nothing_found_repeats_the_request() {
    assert_eq!(search_reply("facture edf", 0), "Aucun résultat trouvé pour : facture edf");
}

#[test]
fn count_is_given() {
    assert_eq!(search_reply("x", 1), "1 résultat(s) trouvé(s)");
    assert_eq!(search_reply("x", 120), "120 résultat(s) trouvé(s)");
}

#[test]
fn decimal_digits() {
    let s: String = decimal_chars(0).into_iter().collect();
    assert_eq!(s, "0");
    let s: String = decimal_chars(907).into_iter().collect();
    assert_eq!(s, "907");
    let s: String = decimal_chars(usize::MAX).into_iter().collect();
    assert_eq!(s, usize::MAX.to_string());
}

#[test]
fn result_holds_files() {
    let f = FileItem {
        name: "a.pdf".to_string(),
        path: "/a.pdf".to_string(),
        file_type: "pdf".to_string(),
        score: 30,
        modified_secs: 0,
        year_in_name: 0,
    };
    let r = search_result("a", vec![f]);
    assert_eq!(r.reply, "1 résultat(s) trouvé(s)");
    assert_eq!(r.files.len(), 1);
    assert_eq!(r.files[0].name, "a.pdf");
}
