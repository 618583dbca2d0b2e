use c3po::query::local_parse;
use c3po::text::{chars_of, same_chars, split_pieces, white_space, Separator};

#[test]
fn white_space_agrees_with_std() {
    for u in 0u32..=0x10ffff {
        if let Some(c) = char::from_u32(u) {
            assert_eq!(white_space(c), c.is_whitespace(), "{:x}", u);
        }
    }
}

#[test]
fn requests_are_lowercased() {
    let p = local_parse("ÉTÉ Facture");
    assert_eq!(p.keywords, vec!["été".to_string(), "facture".to_string()]);
}

#[test]
fn characters_of_a_string() {
    let v = chars_of("dernière");
    assert_eq!(v, vec!['d', 'e', 'r', 'n', 'i', 'è', 'r', 'e']);
    assert!(same_chars(&v, &chars_of("dernière")));
    assert!(!same_chars(&v, &chars_of("dernier")));
}

#[test]
fn split_keeps_empty_pieces() {
    let v = chars_of("a''b");
    let p = split_pieces(&v, Separator::Apostrophe);
    let got: Vec<String> = p.iter().map(|w| w.iter().collect()).collect();
    assert_eq!(got, vec!["a", "", "b"]);
    let e = split_pieces(&Vec::new(), Separator::WhiteSpace);
    assert_eq!(e.len(), 1);
    assert!(e[0].is_empty());
}
