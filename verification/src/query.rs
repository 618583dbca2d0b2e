//! Local parsing of a search request: keywords and the wish for the most
//! recent file.

use vstd::prelude::*;
use crate::text::{
    Separator, chars_of, is_listed, is_separator, is_white_space, lemma_filter_members,
    lemma_occurs_in_trans, lemma_pieces_chars, lemma_pieces_single, lemma_pieces_join, lemma_pieces_occur,
    nonempty_pieces, occurs_in, pieces, split_pieces, string_of, to_lowercase, views, words,
    lowercase,
};

verus! {

/// What is extracted from a search request.
#[derive(Debug)]
pub struct ParsedQuery {
    /// Words to look for in file names and paths.
    pub keywords: Vec<String>,
    /// The request asks for the most recent file.
    pub want_latest: bool,
}

/// The character sequences held by a vector of strings.
pub open spec fn string_views(v: Seq<String>) -> Seq<Seq<char>> {
    v.map_values(|s: String| s@)
}

/// The words ignored in a request.
pub open spec fn stop_word_strs() -> Seq<&'static str> {
    seq![
        "cherche", "chercher", "trouve", "trouver", "montre", "affiche",
        "le", "la", "les", "l", "un", "une", "des", "du", "de", "d",
        "mon", "ma", "mes", "moi", "fichier", "fichiers", "dossier",
        "dossiers", "document", "documents",
    ]
}

/// The words that ask for the most recent file.
pub open spec fn recency_word_strs() -> Seq<&'static str> {
    seq![
        "dernier", "dernière", "récent", "récente",
        "nouveau", "nouvelle", "récents", "récentes",
    ]
}

/// The stop words, as character sequences.
pub open spec fn stop_words() -> Seq<Seq<char>> {
    stop_word_strs().map_values(|w: &'static str| w@)
}

/// The recency words, as character sequences.
pub open spec fn recency_words() -> Seq<Seq<char>> {
    recency_word_strs().map_values(|w: &'static str| w@)
}

/// A token of the request whose apostrophe-separated parts may become keywords.
pub open spec fn kept_token(t: Seq<char>) -> bool {
    !stop_words().contains(t) && !recency_words().contains(t)
}

/// A part of a kept token that becomes a keyword.
pub open spec fn kept_part(p: Seq<char>) -> bool {
    p.len() > 0 && !stop_words().contains(p)
}

/// The members of `s` that become keywords, in order.
pub open spec fn kept_parts(s: Seq<Seq<char>>) -> Seq<Seq<char>> {
    s.filter(|p: Seq<char>| kept_part(p))
}

/// The keywords that a token gives.
pub open spec fn token_keywords(t: Seq<char>) -> Seq<Seq<char>> {
    if kept_token(t) {
        kept_parts(pieces(t, Separator::Apostrophe))
    } else {
        Seq::empty()
    }
}

/// The keywords that a sequence of tokens gives, in order.
pub open spec fn keywords_of(tokens: Seq<Seq<char>>) -> Seq<Seq<char>>
    decreases tokens.len(),
{
    if tokens.len() == 0 {
        Seq::empty()
    } else {
        keywords_of(tokens.drop_last()) + token_keywords(tokens.last())
    }
}

/// Some token of the sequence is a recency word.
pub open spec fn wants_latest(tokens: Seq<Seq<char>>) -> bool {
    exists|i: int| 0 <= i < tokens.len() && recency_words().contains(#[trigger] tokens[i])
}

/// The tokens of an already lowercased request: its white-space separated words.
pub open spec fn tokens_of(lowered: Seq<char>) -> Seq<Seq<char>> {
    words(lowered, Separator::WhiteSpace)
}

/// A keyword as a parse gives it: non-empty, not a stop word, free of white
/// space and apostrophes, and a contiguous part of the lowercased request.
pub open spec fn clean_keyword(kw: Seq<char>, lowered: Seq<char>) -> bool {
    &&& kw.len() > 0
    &&& !stop_words().contains(kw)
    &&& forall|k: int|
        0 <= k < kw.len() ==> #[trigger] kw[k] != '\'' && !is_white_space(kw[k])
    &&& occurs_in(kw, lowered)
}

proof fn lemma_keywords_of_clean(tokens: Seq<Seq<char>>, lowered: Seq<char>)
    requires
        forall|i: int, k: int|
            0 <= i < tokens.len() && 0 <= k < tokens[i].len() ==> !is_white_space(
                #[trigger] tokens[i][k],
            ),
        forall|i: int| 0 <= i < tokens.len() ==> occurs_in(#[trigger] tokens[i], lowered),
    ensures
        forall|j: int|
            0 <= j < keywords_of(tokens).len() ==> clean_keyword(
                #[trigger] keywords_of(tokens)[j],
                lowered,
            ),
    decreases tokens.len(),
{
    if tokens.len() > 0 {
        let rest = tokens.drop_last();
        let t = tokens.last();
        assert forall|i: int, k: int| 0 <= i < rest.len() && 0 <= k < rest[i].len() implies !is_white_space(
            #[trigger] rest[i][k],
        ) by {
            assert(rest[i] == tokens[i]);
        }
        assert forall|i: int| 0 <= i < rest.len() implies occurs_in(#[trigger] rest[i], lowered) by {
            assert(rest[i] == tokens[i]);
        }
        lemma_keywords_of_clean(rest, lowered);
        let ps = pieces(t, Separator::Apostrophe);
        lemma_pieces_chars(t, Separator::Apostrophe);
        lemma_pieces_occur(t, Separator::Apostrophe);
        lemma_filter_members(ps, |p: Seq<char>| kept_part(p));
        assert(occurs_in(tokens[tokens.len() - 1], lowered));
        let a = keywords_of(rest);
        let b = token_keywords(t);
        assert forall|j: int| 0 <= j < keywords_of(tokens).len() implies clean_keyword(
            #[trigger] keywords_of(tokens)[j],
            lowered,
        ) by {
            if j < a.len() {
                assert(keywords_of(tokens)[j] == a[j]);
            } else {
                let kw = b[j - a.len()];
                assert(keywords_of(tokens)[j] == kw);
                let m = choose|m: int| 0 <= m < ps.len() && ps[m] == kw;
                assert(occurs_in(ps[m], t));
                lemma_occurs_in_trans(kw, t, lowered);
                assert forall|k: int| 0 <= k < kw.len() implies #[trigger] kw[k] != '\''
                    && !is_white_space(kw[k]) by {
                    assert(ps[m][k] == kw[k]);
                    let q = choose|q: int| 0 <= q < t.len() && t[q] == kw[k];
                    assert(tokens[tokens.len() - 1][q] == t[q]);
                }
            }
        }
    }
}

/// Every keyword that a parse gives is non-empty, is not a stop word, holds
/// neither white space nor an apostrophe, and is a contiguous part of the
/// lowercased request.
pub proof fn lemma_keywords_clean(lowered: Seq<char>)
    ensures
        forall|j: int|
            0 <= j < keywords_of(tokens_of(lowered)).len() ==> clean_keyword(
                #[trigger] keywords_of(tokens_of(lowered))[j],
                lowered,
            ),
{
    let ps = pieces(lowered, Separator::WhiteSpace);
    let toks = tokens_of(lowered);
    lemma_pieces_chars(lowered, Separator::WhiteSpace);
    lemma_pieces_occur(lowered, Separator::WhiteSpace);
    lemma_filter_members(ps, |p: Seq<char>| p.len() > 0);
    assert forall|i: int, k: int| 0 <= i < toks.len() && 0 <= k < toks[i].len() implies !is_white_space(
        #[trigger] toks[i][k],
    ) by {
        let m = choose|m: int| 0 <= m < ps.len() && ps[m] == toks[i];
        assert(ps[m][k] == toks[i][k]);
    }
    assert forall|i: int| 0 <= i < toks.len() implies occurs_in(#[trigger] toks[i], lowered) by {
        let m = choose|m: int| 0 <= m < ps.len() && ps[m] == toks[i];
        assert(occurs_in(ps[m], lowered));
    }
    lemma_keywords_of_clean(toks, lowered);
}

/// A token that holds no apostrophe and is neither a stop word nor a
/// recency word.
pub open spec fn plain_token(t: Seq<char>) -> bool {
    &&& t.len() > 0
    &&& forall|k: int| 0 <= k < t.len() ==> #[trigger] t[k] != '\''
    &&& !stop_words().contains(t)
    &&& !recency_words().contains(t)
}

proof fn lemma_keywords_of_one(t: Seq<Seq<char>>)
    requires
        t.len() == 1,
    ensures
        keywords_of(t) == token_keywords(t[0]),
{
    assert(t.drop_last() =~= Seq::<Seq<char>>::empty());
    assert(keywords_of(Seq::<Seq<char>>::empty()) =~= Seq::<Seq<char>>::empty());
    assert(keywords_of(t) =~= Seq::<Seq<char>>::empty() + token_keywords(t[0]));
}

/// A plain token, of any length, is kept whole as a keyword; a stop word or
/// a recency word gives no keyword.
pub proof fn lemma_token_keywords(t: Seq<char>)
    ensures
        plain_token(t) ==> keywords_of(seq![t]) == seq![t],
        stop_words().contains(t) || recency_words().contains(t) ==> keywords_of(seq![t]).len()
            == 0,
{
    lemma_keywords_of_one(seq![t]);
    if plain_token(t) {
        assert forall|k: int| 0 <= k < t.len() implies !is_separator(
            Separator::Apostrophe,
            #[trigger] t[k],
        ) by {}
        lemma_pieces_single(t, Separator::Apostrophe);
        assert(seq![t] =~= Seq::<Seq<char>>::empty().push(t));
        assert(Seq::<Seq<char>>::empty().filter(|p: Seq<char>| kept_part(p)) =~= Seq::<
            Seq<char>,
        >::empty()) by {
            reveal(Seq::filter);
        }
        Seq::<Seq<char>>::empty().lemma_filter_push(t, |p: Seq<char>| kept_part(p));
    }
}

/// A request that is a single word without white space has that word as
/// its only token; a plain word then parses into exactly that keyword and
/// does not ask for the latest file, and a recency word asks for it.
pub proof fn lemma_single_word(t: Seq<char>)
    requires
        t.len() > 0,
        forall|k: int| 0 <= k < t.len() ==> !is_white_space(#[trigger] t[k]),
    ensures
        tokens_of(t) == seq![t],
        plain_token(t) ==> keywords_of(tokens_of(t)) == seq![t] && !wants_latest(tokens_of(t)),
        recency_words().contains(t) ==> wants_latest(tokens_of(t)),
{
    assert forall|k: int| 0 <= k < t.len() implies !is_separator(
        Separator::WhiteSpace,
        #[trigger] t[k],
    ) by {}
    lemma_pieces_single(t, Separator::WhiteSpace);
    assert(seq![t] =~= Seq::<Seq<char>>::empty().push(t));
    assert(Seq::<Seq<char>>::empty().filter(|p: Seq<char>| p.len() > 0) =~= Seq::<
        Seq<char>,
    >::empty()) by {
        reveal(Seq::filter);
    }
    Seq::<Seq<char>>::empty().lemma_filter_push(t, |p: Seq<char>| p.len() > 0);
    assert(tokens_of(t) == seq![t]);
    lemma_token_keywords(t);
    if recency_words().contains(t) {
        assert(recency_words().contains(tokens_of(t)[0]));
    }
    if wants_latest(tokens_of(t)) {
        let i = choose|i: int|
            0 <= i < tokens_of(t).len() && recency_words().contains(#[trigger] tokens_of(t)[i]);
        assert(tokens_of(t)[i] == t);
    }
}

/// Every plain token of a request becomes a keyword: nothing that is not a
/// stop word, a recency word or split at an apostrophe is left out.
pub proof fn lemma_plain_tokens_kept(tokens: Seq<Seq<char>>)
    ensures
        forall|i: int|
            0 <= i < tokens.len() && plain_token(#[trigger] tokens[i]) ==> keywords_of(
                tokens,
            ).contains(tokens[i]),
    decreases tokens.len(),
{
    if tokens.len() > 0 {
        let d = tokens.drop_last();
        let t = tokens.last();
        lemma_plain_tokens_kept(d);
        lemma_token_keywords(t);
        lemma_keywords_of_one(seq![t]);
        let a = keywords_of(d);
        let b = token_keywords(t);
        assert forall|i: int| 0 <= i < tokens.len() && plain_token(#[trigger] tokens[i]) implies keywords_of(
            tokens,
        ).contains(tokens[i]) by {
            if i < d.len() {
                assert(tokens[i] == d[i]);
                let m = choose|m: int| 0 <= m < a.len() && a[m] == d[i];
                assert(keywords_of(tokens)[m] == a[m]);
            } else {
                assert(tokens[i] == t);
                assert(b == seq![t]);
                assert(keywords_of(tokens)[a.len() as int] == t);
            }
        }
    }
}

/// The keyword that a part of a token gives: itself where it is non-empty
/// and not a stop word, none otherwise.
pub open spec fn part_keywords(p: Seq<char>) -> Seq<Seq<char>> {
    if p.len() > 0 && !stop_words().contains(p) {
        seq![p]
    } else {
        Seq::empty()
    }
}

/// A token made of two apostrophe-free parts joined by an apostrophe (and
/// that is neither a stop word nor a recency word) gives the keywords of its
/// first part followed by those of its second: each part is kept where it is
/// non-empty and not a stop word.
pub proof fn lemma_contraction(x: Seq<char>, y: Seq<char>)
    requires
        forall|k: int| 0 <= k < x.len() ==> #[trigger] x[k] != '\'',
        forall|k: int| 0 <= k < y.len() ==> #[trigger] y[k] != '\'',
        !stop_words().contains(x.push('\'') + y),
        !recency_words().contains(x.push('\'') + y),
    ensures
        keywords_of(seq![x.push('\'') + y]) == part_keywords(x) + part_keywords(y),
{
    let t = x.push('\'') + y;
    lemma_keywords_of_one(seq![t]);
    assert(is_separator(Separator::Apostrophe, '\''));
    lemma_pieces_join(x, '\'', y, Separator::Apostrophe);
    assert forall|k: int| 0 <= k < x.len() implies !is_separator(
        Separator::Apostrophe,
        #[trigger] x[k],
    ) by {}
    assert forall|k: int| 0 <= k < y.len() implies !is_separator(
        Separator::Apostrophe,
        #[trigger] y[k],
    ) by {}
    lemma_pieces_single(x, Separator::Apostrophe);
    lemma_pieces_single(y, Separator::Apostrophe);
    assert(pieces(t, Separator::Apostrophe) =~= seq![x, y]);
    assert(seq![x, y] =~= Seq::<Seq<char>>::empty().push(x).push(y));
    assert(Seq::<Seq<char>>::empty().filter(|p: Seq<char>| kept_part(p)) =~= Seq::<
        Seq<char>,
    >::empty()) by {
        reveal(Seq::filter);
    }
    Seq::<Seq<char>>::empty().lemma_filter_push(x, |p: Seq<char>| kept_part(p));
    Seq::<Seq<char>>::empty().push(x).lemma_filter_push(y, |p: Seq<char>| kept_part(p));
    assert(kept_parts(seq![x, y]) =~= part_keywords(x) + part_keywords(y));
}

proof fn lemma_keywords_of_add(x: Seq<Seq<char>>, y: Seq<Seq<char>>)
    ensures
        keywords_of(x + y) == keywords_of(x) + keywords_of(y),
    decreases y.len(),
{
    if y.len() == 0 {
        assert(x + y =~= x);
        assert(keywords_of(x) + keywords_of(y) =~= keywords_of(x));
    } else {
        assert((x + y).drop_last() =~= x + y.drop_last());
        assert((x + y).last() == y.last());
        lemma_keywords_of_add(x, y.drop_last());
        assert(keywords_of(x) + keywords_of(y.drop_last()) + token_keywords(y.last()) =~= keywords_of(
            x,
        ) + (keywords_of(y.drop_last()) + token_keywords(y.last())));
    }
}

/// Parsing two requests joined by a space gives the tokens and keywords of
/// the first followed by those of the second, and wants the latest file
/// exactly where one of the two does.
pub proof fn lemma_parse_join(a: Seq<char>, b: Seq<char>)
    ensures
        tokens_of(a + seq![' '] + b) == tokens_of(a) + tokens_of(b),
        keywords_of(tokens_of(a + seq![' '] + b)) == keywords_of(tokens_of(a)) + keywords_of(
            tokens_of(b),
        ),
        wants_latest(tokens_of(a + seq![' '] + b)) == (wants_latest(tokens_of(a)) || wants_latest(
            tokens_of(b),
        )),
{
    assert(a + seq![' '] + b =~= a.push(' ') + b);
    assert(is_separator(Separator::WhiteSpace, ' '));
    lemma_pieces_join(a, ' ', b, Separator::WhiteSpace);
    Seq::filter_distributes_over_add(
        pieces(a, Separator::WhiteSpace),
        pieces(b, Separator::WhiteSpace),
        |p: Seq<char>| p.len() > 0,
    );
    let x = tokens_of(a);
    let y = tokens_of(b);
    let j = tokens_of(a + seq![' '] + b);
    assert(j == x + y);
    lemma_keywords_of_add(x, y);
    if wants_latest(j) {
        let i = choose|i: int| 0 <= i < j.len() && recency_words().contains(#[trigger] j[i]);
        if i < x.len() {
            assert(j[i] == x[i]);
        } else {
            assert(j[i] == y[i - x.len()]);
        }
    }
    if wants_latest(x) {
        let i = choose|i: int| 0 <= i < x.len() && recency_words().contains(#[trigger] x[i]);
        assert(j[i] == x[i]);
    }
    if wants_latest(y) {
        let i = choose|i: int| 0 <= i < y.len() && recency_words().contains(#[trigger] y[i]);
        assert(j[i + x.len()] == y[i]);
    }
}

fn word_list(strs: &Vec<&'static str>) -> (r: Vec<Vec<char>>)
    ensures
        views(r@) == strs@.map_values(|w: &'static str| w@),
{
    let mut r: Vec<Vec<char>> = Vec::new();
    let mut i: usize = 0;
    while i < strs.len()
        invariant
            i <= strs@.len(),
            views(r@) == strs@.take(i as int).map_values(|w: &'static str| w@),
        decreases strs@.len() - i,
    {
        let ghost old_r = r@;
        r.push(chars_of(strs[i]));
        proof {
            assert(strs@.take(i + 1) =~= strs@.take(i as int).push(strs@[i as int]));
            assert(views(r@) =~= views(old_r).push(strs@[i as int]@));
            assert(strs@.take(i + 1).map_values(|w: &'static str| w@) =~= strs@.take(
                i as int,
            ).map_values(|w: &'static str| w@).push(strs@[i as int]@));
        }
        i = i + 1;
    }
    proof {
        assert(strs@.take(strs@.len() as int) =~= strs@);
    }
    r
}

fn stop_word_list() -> (r: Vec<Vec<char>>)
    ensures
        views(r@) == stop_words(),
{
    let strs: Vec<&'static str> = vec![
        "cherche", "chercher", "trouve", "trouver", "montre", "affiche",
        "le", "la", "les", "l", "un", "une", "des", "du", "de", "d",
        "mon", "ma", "mes", "moi", "fichier", "fichiers", "dossier",
        "dossiers", "document", "documents",
    ];
    assert(strs@ =~= stop_word_strs());
    word_list(&strs)
}

fn recency_word_list() -> (r: Vec<Vec<char>>)
    ensures
        views(r@) == recency_words(),
{
    let strs: Vec<&'static str> = vec![
        "dernier", "dernière", "récent", "récente",
        "nouveau", "nouvelle", "récents", "récentes",
    ];
    assert(strs@ =~= recency_word_strs());
    word_list(&strs)
}

/// Parses an already lowercased request: its tokens are the white-space
/// separated words; the request wants the latest file when one token is a
/// recency word; every token that is neither a stop word nor a recency word
/// is split at apostrophes, and each non-empty part that is not a stop word
/// becomes a keyword, in order.
pub fn parse_lowered(lowered: &str) -> (p: ParsedQuery)
    ensures
        p.want_latest == wants_latest(tokens_of(lowered@)),
        string_views(p.keywords@) == keywords_of(tokens_of(lowered@)),
{
    let stop = stop_word_list();
    let recent = recency_word_list();
    let chars = chars_of(lowered);
    let all = split_pieces(&chars, Separator::WhiteSpace);
    let ghost all_v = views(all@);
    let mut want_latest = false;
    let mut keywords: Vec<String> = Vec::new();
    let mut i: usize = 0;
    while i < all.len()
        invariant
            i <= all@.len(),
            all_v == views(all@),
            all_v == pieces(lowered@, Separator::WhiteSpace),
            views(stop@) == stop_words(),
            views(recent@) == recency_words(),
            want_latest == wants_latest(nonempty_pieces(all_v.take(i as int))),
            string_views(keywords@) == keywords_of(nonempty_pieces(all_v.take(i as int))),
        decreases all@.len() - i,
    {
        let t = &all[i];
        let ghost toks = nonempty_pieces(all_v.take(i as int));
        proof {
            assert(all_v.take(i + 1) =~= all_v.take(i as int).push(t@));
            all_v.take(i as int).lemma_filter_push(t@, |p: Seq<char>| p.len() > 0);
        }
        if t.len() > 0 {
            let ghost new_toks = toks.push(t@);
            assert(new_toks.drop_last() =~= toks);
            let listed_recent = is_listed(t, &recent);
            if listed_recent {
                want_latest = true;
            }
            proof {
                if listed_recent {
                    assert(recency_words().contains(new_toks[toks.len() as int]));
                }
                if wants_latest(new_toks) {
                    let j = choose|j: int|
                        0 <= j < new_toks.len() && recency_words().contains(#[trigger] new_toks[j]);
                    if j < toks.len() {
                        assert(toks[j] == new_toks[j]);
                    }
                }
                if wants_latest(toks) {
                    let j = choose|j: int|
                        0 <= j < toks.len() && recency_words().contains(#[trigger] toks[j]);
                    assert(toks[j] == new_toks[j]);
                }
            }
            if !is_listed(t, &stop) && !listed_recent {
                let parts = split_pieces(t, Separator::Apostrophe);
                let ghost parts_v = views(parts@);
                let ghost base = string_views(keywords@);
                let mut j: usize = 0;
                while j < parts.len()
                    invariant
                        j <= parts@.len(),
                        parts_v == views(parts@),
                        views(stop@) == stop_words(),
                        string_views(keywords@) == base + kept_parts(parts_v.take(j as int)),
                    decreases parts@.len() - j,
                {
                    let part = &parts[j];
                    proof {
                        assert(parts_v.take(j + 1) =~= parts_v.take(j as int).push(part@));
                        parts_v.take(j as int).lemma_filter_push(
                            part@,
                            |p: Seq<char>| kept_part(p),
                        );
                    }
                    if part.len() > 0 && !is_listed(part, &stop) {
                        let ghost old_k = keywords@;
                        keywords.push(string_of(part.as_slice()));
                        proof {
                            assert(string_views(keywords@) =~= string_views(old_k).push(part@));
                        }
                    }
                    j = j + 1;
                }
                proof {
                    assert(parts_v.take(parts_v.len() as int) =~= parts_v);
                }
            }
        }
        i = i + 1;
    }
    proof {
        assert(all_v.take(all_v.len() as int) =~= all_v);
    }
    ParsedQuery { keywords, want_latest }
}

/// Parses a search request without the help of a language model: the
/// request is lowercased, then read as `parse_lowered` says.
pub fn local_parse(query: &str) -> (p: ParsedQuery)
    ensures
        p.want_latest == wants_latest(tokens_of(lowercase(query@))),
        string_views(p.keywords@) == keywords_of(tokens_of(lowercase(query@))),
{
    let lowered = to_lowercase(query);
    parse_lowered(lowered.as_str())
}

} // verus!
