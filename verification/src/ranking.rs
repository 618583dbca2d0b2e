//! Scoring of file-system entries against keywords, and ranking of the
//! entries that match.

use vstd::prelude::*;
use crate::matching::{
    contains_whole_word, extract_year, has_whole_word, lemma_year_in, year_at, year_in,
};
use crate::query::string_views;
use crate::order::{is_ranked, lemma_rank_sort_is_ranked, lemma_rank_sort_permutes, ranks_before, rank_sort, sort_ranked};
use crate::text::{lowercase, to_lowercase};

verus! {

/// What a walk of the file system reports of one entry.
#[derive(Debug)]
pub struct EntryInfo {
    /// The last component of the entry's path, where it has one that is valid UTF-8.
    pub file_name: Option<String>,
    /// The entry's full path, as displayed.
    pub full_path: String,
    /// The entry is a directory.
    pub is_dir: bool,
    /// The extension of the entry's file name, where it has one that is valid UTF-8.
    pub extension: Option<String>,
    /// Last modification time, in seconds since the Unix epoch (0 where unknown).
    pub modified_secs: u64,
}

/// The plain values of an `EntryInfo`.
pub ghost struct EntryView {
    pub file_name: Option<Seq<char>>,
    pub full_path: Seq<char>,
    pub is_dir: bool,
    pub extension: Option<Seq<char>>,
    pub modified_secs: u64,
}

/// The characters of an optional string.
pub open spec fn opt_chars(s: Option<String>) -> Option<Seq<char>> {
    match s {
        Some(x) => Some(x@),
        None => None,
    }
}

impl View for EntryInfo {
    type V = EntryView;

    open spec fn view(&self) -> EntryView {
        EntryView {
            file_name: opt_chars(self.file_name),
            full_path: self.full_path@,
            is_dir: self.is_dir,
            extension: opt_chars(self.extension),
            modified_secs: self.modified_secs,
        }
    }
}

/// A file or folder found for a search.
#[derive(Debug)]
pub struct FileItem {
    /// The entry's file name (`unknown` where it has none that is valid UTF-8).
    pub name: String,
    /// The entry's full path.
    pub path: String,
    /// `folder` for a directory, else the file's extension, else `file`.
    pub file_type: String,
    /// Relevance of the entry to the keywords.
    pub score: usize,
    /// Last modification time, in seconds since the Unix epoch.
    pub modified_secs: u64,
    /// The year written in the file name, 0 where none is.
    pub year_in_name: u32,
}

/// The plain values of a `FileItem`.
pub ghost struct ItemView {
    pub name: Seq<char>,
    pub path: Seq<char>,
    pub file_type: Seq<char>,
    pub score: int,
    pub modified_secs: int,
    pub year_in_name: int,
}

impl View for FileItem {
    type V = ItemView;

    open spec fn view(&self) -> ItemView {
        ItemView {
            name: self.name@,
            path: self.path@,
            file_type: self.file_type@,
            score: self.score as int,
            modified_secs: self.modified_secs as int,
            year_in_name: self.year_in_name as int,
        }
    }
}

/// The views of a sequence of items.
pub open spec fn item_views(v: Seq<FileItem>) -> Seq<ItemView> {
    v.map_values(|f: FileItem| f@)
}

/// The view of an optional item.
pub open spec fn opt_item(r: Option<FileItem>) -> Option<ItemView> {
    match r {
        Some(f) => Some(f@),
        None => None,
    }
}

/// `kw` occurs as a whole word in `text`.
pub open spec fn found_in(kw: Seq<char>, text: Seq<char>) -> bool {
    has_whole_word(text, kw)
}

/// How many keywords occur as whole words in the name or in the path.
pub open spec fn match_count(kws: Seq<Seq<char>>, name: Seq<char>, path: Seq<char>) -> int
    decreases kws.len(),
{
    if kws.len() == 0 {
        0
    } else {
        match_count(kws.drop_last(), name, path) + if found_in(kws.last(), name) || found_in(
            kws.last(),
            path,
        ) {
            1int
        } else {
            0int
        }
    }
}

/// The points the keywords earn: 20 for each one found in the name and 10
/// for each one found in the path.
pub open spec fn match_points(kws: Seq<Seq<char>>, name: Seq<char>, path: Seq<char>) -> int
    decreases kws.len(),
{
    if kws.len() == 0 {
        0
    } else {
        match_points(kws.drop_last(), name, path) + (if found_in(kws.last(), name) {
            20int
        } else {
            0int
        }) + (if found_in(kws.last(), path) {
            10int
        } else {
            0int
        })
    }
}

/// The least number of keywords an entry must match: half of them, rounded up.
pub open spec fn min_required(n: int) -> int {
    (n + 1) / 2
}

/// The entry's file name, empty where it has none.
pub open spec fn file_name_or_empty(e: EntryView) -> Seq<char> {
    match e.file_name {
        Some(n) => n,
        None => Seq::empty(),
    }
}

/// The file name that is searched: lowercased, empty where the entry has none.
pub open spec fn searched_name(e: EntryView) -> Seq<char> {
    lowercase(
        match e.file_name {
            Some(n) => n,
            None => Seq::empty(),
        },
    )
}

/// The path that is searched: lowercased.
pub open spec fn searched_path(e: EntryView) -> Seq<char> {
    lowercase(e.full_path)
}

/// The entry matches enough keywords to be kept.
pub open spec fn accepted(e: EntryView, kws: Seq<Seq<char>>) -> bool {
    let count = match_count(kws, searched_name(e), searched_path(e));
    count >= 1 && count >= min_required(kws.len() as int)
}

/// The score of a kept entry: its points, and 50 more where it matches all keywords.
pub open spec fn entry_score(e: EntryView, kws: Seq<Seq<char>>) -> int {
    let count = match_count(kws, searched_name(e), searched_path(e));
    match_points(kws, searched_name(e), searched_path(e)) + if count == kws.len() {
        50int
    } else {
        0int
    }
}

/// The type shown for an entry.
pub open spec fn entry_type(e: EntryView) -> Seq<char> {
    if e.is_dir {
        "folder"@
    } else {
        match e.extension {
            Some(x) => x,
            None => "file"@,
        }
    }
}

/// The item that an entry gives, where it is kept.
pub open spec fn candidate(e: EntryView, kws: Seq<Seq<char>>) -> Option<ItemView> {
    if accepted(e, kws) {
        Some(
            ItemView {
                name: match e.file_name {
                    Some(n) => n,
                    None => "unknown"@,
                },
                path: e.full_path,
                file_type: entry_type(e),
                score: entry_score(e, kws),
                modified_secs: e.modified_secs as int,
                year_in_name: year_in(vstd::utf8::encode_utf8(searched_name(e))),
            },
        )
    } else {
        None
    }
}

/// Match counts and points are bounded by the number of keywords.
pub proof fn lemma_match_bounds(kws: Seq<Seq<char>>, name: Seq<char>, path: Seq<char>)
    ensures
        0 <= match_count(kws, name, path) <= kws.len(),
        10 * match_count(kws, name, path) <= match_points(kws, name, path) <= 30 * match_count(
            kws,
            name,
            path,
        ),
    decreases kws.len(),
{
    if kws.len() > 0 {
        lemma_match_bounds(kws.drop_last(), name, path);
    }
}

fn copy_opt(s: &Option<String>) -> (r: String)
    ensures
        r@ == match opt_chars(*s) {
            Some(n) => n,
            None => "unknown"@,
        },
{
    match s {
        Some(n) => n.clone(),
        None => "unknown".to_owned(),
    }
}

/// Scores one entry against the keywords: each keyword found as a whole word
/// in the lowercased file name earns 20 points, and 10 more where it is
/// found in the lowercased path; the entry is kept where at least one
/// keyword and at least half of them (rounded up) are found, and earns 50
/// more where all are.
pub fn score_entry(keywords: &Vec<String>, entry: &EntryInfo) -> (r: Option<FileItem>)
    requires
        30 * keywords@.len() + 50 <= usize::MAX,
    ensures
        opt_item(r) == candidate(entry@, string_views(keywords@)),
{
    let ghost kws = string_views(keywords@);
    let empty = String::new();
    let raw_name: &str = match &entry.file_name {
        Some(n) => n.as_str(),
        None => empty.as_str(),
    };
    let name_lc = to_lowercase(raw_name);
    let path_lc = to_lowercase(entry.full_path.as_str());
    assert(name_lc@ == searched_name(entry@));
    let mut score: usize = 0;
    let mut matched: usize = 0;
    let mut i: usize = 0;
    while i < keywords.len()
        invariant
            i <= keywords@.len(),
            30 * keywords@.len() + 50 <= usize::MAX,
            kws == string_views(keywords@),
            matched == match_count(kws.take(i as int), name_lc@, path_lc@),
            score == match_points(kws.take(i as int), name_lc@, path_lc@),
            matched <= i,
            score <= 30 * i,
        decreases keywords@.len() - i,
    {
        let kw = keywords[i].as_str();
        let in_name = contains_whole_word(name_lc.as_str(), kw);
        let in_path = contains_whole_word(path_lc.as_str(), kw);
        proof {
            assert(kws.take(i + 1).drop_last() =~= kws.take(i as int));
            assert(kws.take(i + 1).last() == keywords@[i as int]@);
        }
        if in_name || in_path {
            matched = matched + 1;
            if in_name {
                score = score + 20;
            }
            if in_path {
                score = score + 10;
            }
        }
        i = i + 1;
    }
    proof {
        assert(kws.take(kws.len() as int) =~= kws);
    }
    if matched == 0 {
        return None;
    }
    let n = keywords.len();
    let min_required: usize = (n + 1) / 2;
    if matched < min_required {
        return None;
    }
    if matched == n {
        score = score + 50;
    }
    let file_type = if entry.is_dir {
        "folder".to_owned()
    } else {
        match &entry.extension {
            Some(x) => x.clone(),
            None => "file".to_owned(),
        }
    };
    let year_in_name = extract_year(name_lc.as_str());
    Some(
        FileItem {
            name: copy_opt(&entry.file_name),
            path: entry.full_path.clone(),
            file_type,
            score,
            modified_secs: entry.modified_secs,
            year_in_name,
        },
    )
}

/// The views of a sequence of entries.
pub open spec fn entry_views(v: Seq<EntryInfo>) -> Seq<EntryView> {
    v.map_values(|e: EntryInfo| e@)
}

/// The items of the kept entries of `es`, in the order of the entries.
pub open spec fn candidates(es: Seq<EntryView>, kws: Seq<Seq<char>>) -> Seq<ItemView>
    decreases es.len(),
{
    if es.len() == 0 {
        Seq::empty()
    } else {
        let c = candidates(es.drop_last(), kws);
        match candidate(es.last(), kws) {
            Some(item) => c.push(item),
            None => c,
        }
    }
}

/// How many items a search gives at most: a few proposals where the most
/// recent file is wanted, more otherwise.
pub open spec fn result_limit(latest: bool) -> int {
    if latest {
        5
    } else {
        50
    }
}

/// `s` cut to its first `n` members where it is longer.
pub open spec fn first_n(s: Seq<ItemView>, n: int) -> Seq<ItemView> {
    if s.len() <= n {
        s
    } else {
        s.take(n)
    }
}

/// The items that a search lists for the entries `es`: the kept entries in
/// ranking order, cut to the limit.
pub open spec fn ranked_results(es: Seq<EntryView>, kws: Seq<Seq<char>>, latest: bool) -> Seq<
    ItemView,
> {
    first_n(rank_sort(candidates(es, kws)), result_limit(latest))
}

/// Scores the entries that a walk of the file system reported, keeps those
/// that match enough keywords, ranks them (by score, then by the year in the
/// name, then by the modification time) and returns the first 5 where the
/// most recent file is wanted, the first 50 otherwise.
pub fn rank_entries(keywords: &Vec<String>, want_latest: bool, entries: &Vec<EntryInfo>) -> (r: Vec<
    FileItem,
>)
    requires
        30 * keywords@.len() + 50 <= usize::MAX,
    ensures
        item_views(r@) == ranked_results(
            entry_views(entries@),
            string_views(keywords@),
            want_latest,
        ),
{
    let ghost kws = string_views(keywords@);
    let ghost es = entry_views(entries@);
    let mut found: Vec<FileItem> = Vec::new();
    let mut i: usize = 0;
    while i < entries.len()
        invariant
            i <= entries@.len(),
            30 * keywords@.len() + 50 <= usize::MAX,
            kws == string_views(keywords@),
            es == entry_views(entries@),
            item_views(found@) == candidates(es.take(i as int), kws),
        decreases entries@.len() - i,
    {
        let c = score_entry(keywords, &entries[i]);
        proof {
            assert(es.take(i + 1).drop_last() =~= es.take(i as int));
            assert(es.take(i + 1).last() == entries@[i as int]@);
        }
        match c {
            Some(item) => {
                let ghost old_found = found@;
                found.push(item);
                proof {
                    assert(item_views(found@) =~= item_views(old_found).push(item@));
                }
            },
            None => {},
        }
        i = i + 1;
    }
    proof {
        assert(es.take(es.len() as int) =~= es);
    }
    let mut sorted = sort_ranked(found);
    let limit: usize = if want_latest {
        5
    } else {
        50
    };
    let ghost before_cut = sorted@;
    sorted.truncate(limit);
    proof {
        if before_cut.len() > limit {
            assert(item_views(sorted@) =~= item_views(before_cut).take(limit as int));
        } else {
            assert(sorted@ =~= before_cut);
        }
    }
    sorted
}

proof fn lemma_count_filter(kws: Seq<Seq<char>>, name: Seq<char>, path: Seq<char>)
    ensures
        match_count(kws, name, path) == kws.filter(
            |k: Seq<char>| has_whole_word(name, k) || has_whole_word(path, k),
        ).len(),
        match_points(kws, name, path) == 20 * kws.filter(|k: Seq<char>| has_whole_word(name, k)).len()
            + 10 * kws.filter(|k: Seq<char>| has_whole_word(path, k)).len(),
    decreases kws.len(),
{
    reveal(Seq::filter);
    if kws.len() > 0 {
        lemma_count_filter(kws.drop_last(), name, path);
    }
}

/// The rule of scoring, over the whole-word matches of the keywords in the
/// lowercased file name (empty where the entry has none) and in the
/// lowercased path: the entry is kept exactly where at least one keyword
/// matches and at least half of them do; it then scores 20 for each keyword
/// found in the name, 10 for each one found in the path, and 50 more
/// exactly where every keyword matches.
pub proof fn lemma_scoring_rule(e: EntryView, kws: Seq<Seq<char>>)
    ensures
        ({
            let name = lowercase(file_name_or_empty(e));
            let path = lowercase(e.full_path);
            let matched = kws.filter(
                |k: Seq<char>| has_whole_word(name, k) || has_whole_word(path, k),
            ).len();
            let in_name = kws.filter(|k: Seq<char>| has_whole_word(name, k)).len();
            let in_path = kws.filter(|k: Seq<char>| has_whole_word(path, k)).len();
            &&& (candidate(e, kws) is Some <==> matched >= 1 && 2 * matched >= kws.len())
            &&& candidate(e, kws) matches Some(it) ==> it.score == 20 * in_name + 10 * in_path + (
            if matched == kws.len() {
                50int
            } else {
                0int
            })
        }),
{
    lemma_count_filter(kws, searched_name(e), searched_path(e));
}

/// The item of a kept entry carries the entry's path and modification time;
/// its name is the entry's file name, `unknown` where it has none; its type
/// is `folder` for a directory, else the extension, else `file`; and its
/// year is the one written in the lowercased file name alone, whatever the
/// path holds: 0 where the name holds none.
pub proof fn lemma_item_fields(e: EntryView, kws: Seq<Seq<char>>)
    ensures
        candidate(e, kws) matches Some(it) ==> it.path == e.full_path && it.modified_secs
            == e.modified_secs,
        candidate(e, kws) matches Some(it) ==> it.name == (match e.file_name {
            Some(n) => n,
            None => "unknown"@,
        }),
        candidate(e, kws) matches Some(it) ==> it.file_type == (if e.is_dir {
            "folder"@
        } else {
            match e.extension {
                Some(x) => x,
                None => "file"@,
            }
        }),
        candidate(e, kws) matches Some(it) ==> it.year_in_name == year_in(
            vstd::utf8::encode_utf8(
                lowercase(file_name_or_empty(e)),
            ),
        ),
        candidate(e, kws) is Some && (forall|j: int|
            !#[trigger] year_at(
                vstd::utf8::encode_utf8(
                    lowercase(file_name_or_empty(e)),
                ),
                j,
            )) ==> candidate(e, kws)->0.year_in_name == 0,
{
    assert(searched_name(e) == lowercase(file_name_or_empty(e)));
    lemma_year_in(vstd::utf8::encode_utf8(searched_name(e)));
}

/// Two entries with the same file name that are both kept carry the same
/// year, whatever their paths.
pub proof fn lemma_year_from_name_only(e1: EntryView, e2: EntryView, kws: Seq<Seq<char>>)
    requires
        e1.file_name == e2.file_name,
        candidate(e1, kws) is Some,
        candidate(e2, kws) is Some,
    ensures
        candidate(e1, kws)->0.year_in_name == candidate(e2, kws)->0.year_in_name,
{
}

/// The kept entries, in order, are exactly those that `score_entry` keeps:
/// the items of the entries whose item is given, in the order of the
/// entries. So each kept entry is listed, and only kept entries are.
pub proof fn lemma_candidates_all(es: Seq<EntryView>, kws: Seq<Seq<char>>)
    ensures
        candidates(es, kws) == es.filter(|e: EntryView| candidate(e, kws) is Some).map_values(
            |e: EntryView| candidate(e, kws)->0,
        ),
        forall|i: int|
            0 <= i < es.len() && #[trigger] candidate(es[i], kws) is Some ==> candidates(
                es,
                kws,
            ).contains(candidate(es[i], kws)->0),
    decreases es.len(),
{
    let pred = |e: EntryView| candidate(e, kws) is Some;
    let f = |e: EntryView| candidate(e, kws)->0;
    if es.len() > 0 {
        lemma_candidates_all(es.drop_last(), kws);
        assert(es.drop_last().push(es.last()) =~= es);
        es.drop_last().lemma_filter_push(es.last(), pred);
        let g = es.drop_last().filter(pred);
        if pred(es.last()) {
            assert(g.push(es.last()).map_values(f) =~= g.map_values(f).push(f(es.last())));
        }
    } else {
        assert(es.filter(pred) =~= es) by {
            reveal(Seq::filter);
        }
        assert(es.filter(pred).map_values(f) =~= Seq::<ItemView>::empty());
    }
    let c = candidates(es, kws);
    let fl = es.filter(pred);
    crate::text::lemma_filter_members(es, pred);
    assert forall|i: int| 0 <= i < es.len() && #[trigger] candidate(es[i], kws) is Some implies c.contains(
        candidate(es[i], kws)->0,
    ) by {
        es.lemma_filter_contains(pred, i);
        let m = choose|m: int| 0 <= m < fl.len() && fl[m] == es[i];
        assert(c[m] == f(fl[m]));
    }
}

/// A kept entry matches at least one keyword and at least half of them
/// (rounded up); it scores between 10 and 30 points for each keyword it
/// matches, and 50 more exactly where it matches them all.
pub proof fn lemma_candidate(e: EntryView, kws: Seq<Seq<char>>)
    ensures
        candidate(e, kws) matches Some(it) ==> {
            let count = match_count(kws, searched_name(e), searched_path(e));
            &&& count >= 1
            &&& 2 * count >= kws.len()
            &&& 10 * count <= it.score - (if count == kws.len() { 50int } else { 0int }) <= 30
                * count
        },
        candidate(e, kws) is None <==> !accepted(e, kws),
{
    lemma_match_bounds(kws, searched_name(e), searched_path(e));
}

/// What a search lists: at most the limit; in ranking order; only kept
/// entries; and the first ones of the ranked kept entries, so that no kept
/// entry that is left out ranks before a listed one.
pub proof fn lemma_ranked_results(es: Seq<EntryView>, kws: Seq<Seq<char>>, latest: bool)
    ensures
        ({
            let r = ranked_results(es, kws, latest);
            let c = candidates(es, kws);
            let sorted = rank_sort(c);
            &&& r.len() == if latest {
                if c.len() <= 5 {
                    c.len() as int
                } else {
                    5
                }
            } else {
                if c.len() <= 50 {
                    c.len() as int
                } else {
                    50
                }
            }
            &&& forall|i: int| 0 <= i < r.len() ==> #[trigger] r[i] == sorted[i]
            &&& is_ranked(r)
            &&& forall|i: int| 0 <= i < r.len() ==> c.contains(#[trigger] r[i])
            &&& forall|i: int, j: int|
                0 <= i < r.len() && r.len() <= j < sorted.len() ==> !ranks_before(
                    #[trigger] sorted[j],
                    #[trigger] r[i],
                )
        }),
{
    broadcast use vstd::seq_lib::group_to_multiset_ensures;

    let r = ranked_results(es, kws, latest);
    let c = candidates(es, kws);
    let sorted = rank_sort(c);
    lemma_rank_sort_is_ranked(c);
    lemma_rank_sort_permutes(c);
    assert forall|i: int| 0 <= i < r.len() implies c.contains(#[trigger] r[i]) by {
        assert(r[i] == sorted[i]);
        assert(sorted.contains(sorted[i]));
        assert(sorted.to_multiset().count(sorted[i]) > 0);
    }
    assert forall|i: int, j: int| 0 <= i < r.len() && r.len() <= j < sorted.len() implies !ranks_before(
        #[trigger] sorted[j],
        #[trigger] r[i],
    ) by {
        assert(r[i] == sorted[i]);
    }
}

} // verus!
