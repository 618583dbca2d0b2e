use c3po::order::sort_ranked;
use c3po::ranking::{rank_entries, score_entry, EntryInfo, FileItem};

fn kws(words: &[&str]) -> Vec<String> {
    words.iter().map(|w| w.to_string()).collect()
}

fn file(name: &str, path: &str, ext: Option<&str>, modified: u64) -> EntryInfo {
    EntryInfo {
        file_name: Some(name.to_string()),
        full_path: path.to_string(),
        is_dir: false,
        extension: ext.map(|e| e.to_string()),
        modified_secs: modified,
    }
}

fn folder(name: &str, path: &str, modified: u64) -> EntryInfo {
    EntryInfo {
        file_name: Some(name.to_string()),
        full_path: path.to_string(),
        is_dir: true,
        extension: None,
        modified_secs: modified,
    }
}

fn names(v: &[FileItem]) -> Vec<&str> {
    v.iter().map(|f| f.name.as_str()).collect()
}

#[test]
fn all_keywords_in_name_and_path() {
    let e = file(
        "Avis d'imposition 2025.pdf",
        "C:\\Docs\\Avis d'imposition 2025.pdf",
        Some("pdf"),
        100,
    );
    let it = score_entry(&kws(&["avis", "imposition"]), &e).unwrap();
    assert_eq!(it.score, 110);
    assert_eq!(it.year_in_name, 2025);
    assert_eq!(it.file_type, "pdf");
    assert_eq!(it.name, "Avis d'imposition 2025.pdf");
    assert_eq!(it.path, "C:\\Docs\\Avis d'imposition 2025.pdf");
    assert_eq!(it.modified_secs, 100);
}

#[test]
fn keyword_only_in_path() {
    let e = file("releve.pdf", "/home/u/edf/releve.pdf", None, 7);
    let it = score_entry(&kws(&["edf"]), &e).unwrap();
    assert_eq!(it.score, 10 + 50);
    assert_eq!(it.file_type, "file");
}

#[test]
fn no_keyword_found_rejects() {
    let e = file("travis.txt", "/home/u/travis.txt", Some("txt"), 1);
    assert!(score_entry(&kws(&["avis"]), &e).is_none());
}

#[test]
fn no_keywords_rejects_everything() {
    let e = file("avis.txt", "/home/u/avis.txt", Some("txt"), 1);
    assert!(score_entry(&kws(&[]), &e).is_none());
}

#[test]
fn half_the_keywords_are_required() {
    let e = file("facture gaz.pdf", "/d/facture gaz.pdf", Some("pdf"), 1);
    // 3 keywords: 2 needed, only 1 found
    assert!(score_entry(&kws(&["facture", "edf", "2024"]), &e).is_none());
    // 4 keywords: 2 needed, 2 found
    let it = score_entry(&kws(&["facture", "edf", "gaz", "2024"]), &e).unwrap();
    assert_eq!(it.score, 60);
}

#[test]
fn folder_type_and_unknown_name() {
    let d = folder("Impots", "/d/Impots", 3);
    let it = score_entry(&kws(&["impots"]), &d).unwrap();
    assert_eq!(it.file_type, "folder");
    assert_eq!(it.score, 80);
    let e = EntryInfo {
        file_name: None,
        full_path: "/d/impots/x".to_string(),
        is_dir: false,
        extension: None,
        modified_secs: 0,
    };
    let it = score_entry(&kws(&["impots"]), &e).unwrap();
    assert_eq!(it.name, "unknown");
    assert_eq!(it.score, 60);
    assert_eq!(it.year_in_name, 0);
}

fn sample() -> Vec<EntryInfo> {
    vec![
        file("travis.txt", "C:\\Docs\\travis.txt", Some("txt"), 1),
        file("avis 2019.pdf", "C:\\Docs\\avis 2019.pdf", Some("pdf"), 500),
        folder("imposition", "C:\\Docs\\imposition", 900),
        file(
            "Avis d'imposition 2025.pdf",
            "C:\\Docs\\Avis d'imposition 2025.pdf",
            Some("pdf"),
            100,
        ),
    ]
}

#[test]
fn ranking_by_year_then_time() {
    let r = rank_entries(&kws(&["avis", "imposition"]), false, &sample());
    assert_eq!(names(&r), vec!["Avis d'imposition 2025.pdf", "avis 2019.pdf", "imposition"]);
    assert_eq!(r[0].score, 110);
    assert_eq!(r[1].score, 30);
    assert_eq!(r[2].score, 30);
}

#[test]
fn ranking_by_year_then_time_when_latest_wanted() {
    let r = rank_entries(&kws(&["avis", "imposition"]), true, &sample());
    assert_eq!(names(&r), vec!["Avis d'imposition 2025.pdf", "avis 2019.pdf", "imposition"]);
}

#[test]
fn year_in_name_outranks_modification_time() {
    let es = vec![
        file("edf 2000.pdf", "/d/edf 2000.pdf", Some("pdf"), 200),
        file("edf 2025.pdf", "/d/edf 2025.pdf", Some("pdf"), 100),
    ];
    for latest in [false, true] {
        let r = rank_entries(&kws(&["edf"]), latest, &es);
        assert_eq!(names(&r), vec!["edf 2025.pdf", "edf 2000.pdf"]);
    }
}

#[test]
fn results_are_limited() {
    let mut es = Vec::new();
    for i in 0..60u64 {
        let name = format!("edf {}.pdf", i);
        es.push(file(&name, &format!("/d/{}", name), Some("pdf"), i));
    }
    let r = rank_entries(&kws(&["edf"]), false, &es);
    assert_eq!(r.len(), 50);
    let r = rank_entries(&kws(&["edf"]), true, &es);
    assert_eq!(r.len(), 5);
    assert_eq!(names(&r), vec!["edf 59.pdf", "edf 58.pdf", "edf 57.pdf", "edf 56.pdf", "edf 55.pdf"]);
}

#[test]
fn equal_keys_keep_walk_order() {
    let es = vec![
        file("b edf.pdf", "/d/b edf.pdf", Some("pdf"), 5),
        file("a edf.pdf", "/d/a edf.pdf", Some("pdf"), 5),
        file("c edf.pdf", "/d/c edf.pdf", Some("pdf"), 5),
    ];
    let r = rank_entries(&kws(&["edf"]), false, &es);
    assert_eq!(names(&r), vec!["b edf.pdf", "a edf.pdf", "c edf.pdf"]);
}

fn item(name: &str, score: usize, modified: u64, year: u32) -> FileItem {
    FileItem {
        name: name.to_string(),
        path: name.to_string(),
        file_type: "file".to_string(),
        score,
        modified_secs: modified,
        year_in_name: year,
    }
}

#[test]
fn sort_orders_by_key_and_is_stable() {
    let v = vec![
        item("a", 10, 1, 2000),
        item("b", 30, 1, 2000),
        item("c", 10, 9, 1990),
        item("d", 10, 1, 2000),
        item("e", 30, 0, 2001),
        item("f", 10, 5, 2000),
    ];
    let r = sort_ranked(v);
    assert_eq!(names(&r), vec!["e", "b", "f", "a", "d", "c"]);
    assert!(sort_ranked(Vec::new()).is_empty());
}

#[test]
fn required_matches_by_number_of_keywords() {
    // 1 -> 1, 2 -> 1, 3 -> 2, 4 -> 2, 5 -> 3 keywords required
    let e = file("a b c.txt", "/d/a b c.txt", Some("txt"), 0);
    let table: [(&[&str], bool); 8] = [
        (&["a"], true),
        (&["a", "x"], true),
        (&["a", "x", "y"], false),
        (&["a", "b", "y"], true),
        (&["a", "x", "y", "z"], false),
        (&["a", "b", "y", "z"], true),
        (&["a", "b", "x", "y", "z"], false),
        (&["a", "b", "c", "y", "z"], true),
    ];
    for (words, kept) in table.iter() {
        assert_eq!(score_entry(&kws(words), &e).is_some(), *kept, "{:?}", words);
    }
}
