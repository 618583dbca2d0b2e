//! The decisions around the local language-model service: its status, the
//! prompt that asks it to parse a request, the reading of its reply, and the
//! fall back to local parsing.

use vstd::prelude::*;
use crate::query::{ParsedQuery, local_parse, string_views};
use crate::ranking::opt_chars;
use crate::text::{append_chars, chars_of, string_of};

verus! {

/// Whether the language-model service is installed and running, and the
/// models it offers.
#[derive(Debug)]
pub struct OllamaStatus {
    pub installed: bool,
    pub running: bool,
    pub models: Vec<String>,
}

/// The names that are present, in order.
pub open spec fn present_names(s: Seq<Option<Seq<char>>>) -> Seq<Seq<char>>
    decreases s.len(),
{
    if s.len() == 0 {
        Seq::empty()
    } else {
        let rest = present_names(s.drop_last());
        match s.last() {
            Some(n) => rest.push(n),
            None => rest,
        }
    }
}

/// The models listed are the names that are present, in order.
pub proof fn lemma_present_names(s: Seq<Option<Seq<char>>>)
    ensures
        present_names(s) == s.filter(|o: Option<Seq<char>>| o is Some).map_values(
            |o: Option<Seq<char>>| o->0,
        ),
    decreases s.len(),
{
    let pred = |o: Option<Seq<char>>| o is Some;
    let f = |o: Option<Seq<char>>| o->0;
    if s.len() == 0 {
        assert(s.filter(pred) =~= s) by {
            reveal(Seq::filter);
        }
        assert(s.filter(pred).map_values(f) =~= Seq::<Seq<char>>::empty());
    } else {
        lemma_present_names(s.drop_last());
        assert(s.drop_last().push(s.last()) =~= s);
        s.drop_last().lemma_filter_push(s.last(), pred);
        let g = s.drop_last().filter(pred);
        if pred(s.last()) {
            assert(g.push(s.last()).map_values(f) =~= g.map_values(f).push(f(s.last())));
        }
    }
}

/// The characters of a sequence of optional strings.
pub open spec fn opt_views(v: Seq<Option<String>>) -> Seq<Option<Seq<char>>> {
    v.map_values(|o: Option<String>| opt_chars(o))
}

/// The status of the service. `installed` says whether its executable was
/// found; `tags` is `None` where the service did not answer the request for
/// its models, and otherwise holds, for each member of the `models` list of
/// its reply, the member's `name` where that is a string (the list is empty
/// where the reply has none). A service that is not installed is not asked.
pub fn ollama_status_from(installed: bool, tags: Option<Vec<Option<String>>>) -> (st: OllamaStatus)
    ensures
        st.installed == installed,
        st.running == (installed && tags is Some),
        !st.running ==> st.models@.len() == 0,
        st.running ==> string_views(st.models@) == present_names(opt_views(tags->0@)),
{
    if !installed {
        return OllamaStatus { installed: false, running: false, models: Vec::new() };
    }
    match tags {
        None => OllamaStatus { installed: true, running: false, models: Vec::new() },
        Some(entries) => {
            let ghost ev = opt_views(entries@);
            let mut models: Vec<String> = Vec::new();
            let mut i: usize = 0;
            while i < entries.len()
                invariant
                    i <= entries@.len(),
                    ev == opt_views(entries@),
                    string_views(models@) == present_names(ev.take(i as int)),
                decreases entries@.len() - i,
            {
                proof {
                    assert(ev.take(i + 1).drop_last() =~= ev.take(i as int));
                    assert(ev.take(i + 1).last() == opt_chars(entries@[i as int]));
                }
                match &entries[i] {
                    Some(name) => {
                        let ghost old_models = models@;
                        models.push(name.clone());
                        proof {
                            assert(string_views(models@) =~= string_views(old_models).push(
                                name@,
                            ));
                        }
                    },
                    None => {},
                }
                i = i + 1;
            }
            proof {
                assert(ev.take(ev.len() as int) =~= ev);
            }
            OllamaStatus { installed: true, running: true, models }
        },
    }
}

/// The prompt text that comes before the request.
pub const PROMPT_HEAD: &'static str = r#"You are a search query parser. Extract search keywords from the user query and detect intent.

User query: ""#;

/// The prompt text that comes after the request.
pub const PROMPT_TAIL: &'static str = r#""

Respond ONLY with a JSON object, no explanation, no text before or after:
{
  "keywords": ["word1", "word2"],
  "want_latest": true or false
}

Rules:
- keywords: meaningful words to search in file names (lowercase, no accents needed, no stop words like "le/la/les/un/de/du/mon/ma/cherche/trouve/fichier")
- want_latest: true only if the user asks for the most recent/latest file ("dernier", "dernière", "récent", "nouveau", "latest", "most recent")
- Split contractions: "d'imposition" → "imposition", "l'EDF" → "EDF"

Output ONLY the JSON object."#;

/// The prompt that asks the language model to parse `query` into keywords
/// and the wish for the most recent file, as a JSON object.
pub fn build_prompt(query: &str) -> (p: String)
    ensures
        p@ == PROMPT_HEAD@ + query@ + PROMPT_TAIL@,
{
    let mut all: Vec<char> = chars_of(PROMPT_HEAD);
    append_chars(&mut all, &chars_of(query));
    append_chars(&mut all, &chars_of(PROMPT_TAIL));
    string_of(all.as_slice())
}

/// The position of the first `c` in `s` at or after `i`; -1 where there is none.
pub open spec fn first_from(s: Seq<char>, c: char, i: int) -> int
    decreases s.len() - i,
{
    if i < 0 || i >= s.len() {
        -1
    } else if s[i] == c {
        i
    } else {
        first_from(s, c, i + 1)
    }
}

/// The position of the last `c` in `s` before `j`; -1 where there is none.
pub open spec fn last_before(s: Seq<char>, c: char, j: int) -> int
    decreases j,
{
    if j <= 0 || j > s.len() {
        -1
    } else if s[j - 1] == c {
        j - 1
    } else {
        last_before(s, c, j - 1)
    }
}

/// The text from the first `{` to the last `}` of `s`, where both occur and
/// the last `}` comes after the first `{`.
pub open spec fn object_span(s: Seq<char>) -> Option<Seq<char>> {
    let start = first_from(s, '{', 0);
    let end = last_before(s, '}', s.len() as int);
    if start >= 0 && end > start {
        Some(s.subrange(start, end + 1))
    } else {
        None
    }
}

/// A position found from `i` on holds `c`, and no earlier one from `i` on does.
pub proof fn lemma_first_from(s: Seq<char>, c: char, i: int)
    requires
        0 <= i,
    ensures
        first_from(s, c, i) == -1 || (i <= first_from(s, c, i) < s.len() && s[first_from(
            s,
            c,
            i,
        )] == c && forall|k: int| i <= k < first_from(s, c, i) ==> s[k] != c),
        first_from(s, c, i) == -1 ==> forall|k: int| i <= k < s.len() ==> s[k] != c,
    decreases s.len() - i,
{
    if i < s.len() && s[i] != c {
        lemma_first_from(s, c, i + 1);
    }
}

/// A position found before `j` holds `c`, and no later one before `j` does.
pub proof fn lemma_last_before(s: Seq<char>, c: char, j: int)
    requires
        j <= s.len(),
    ensures
        last_before(s, c, j) == -1 || (0 <= last_before(s, c, j) < j && s[last_before(s, c, j)]
            == c && forall|k: int| last_before(s, c, j) < k < j ==> s[k] != c),
        last_before(s, c, j) == -1 ==> forall|k: int| 0 <= k < j ==> s[k] != c,
    decreases j,
{
    if j > 0 && s[j - 1] != c {
        lemma_last_before(s, c, j - 1);
    }
}

/// The JSON object found in an answer starts with `{` and ends with `}`; no
/// `{` comes before it and no `}` after it; where the answer has no `{`, or
/// no `}` after its first `{`, none is found.
pub proof fn lemma_object_span(s: Seq<char>)
    ensures
        object_span(s) matches Some(x) ==> {
            let a = first_from(s, '{', 0);
            let b = last_before(s, '}', s.len() as int);
            &&& 0 <= a < b < s.len()
            &&& x == s.subrange(a, b + 1)
            &&& x[0] == '{'
            &&& x[x.len() - 1] == '}'
            &&& forall|k: int| 0 <= k < a ==> s[k] != '{'
            &&& forall|k: int| b < k < s.len() ==> s[k] != '}'
        },
        object_span(s) is None <==> (forall|k: int| 0 <= k < s.len() ==> s[k] != '{') || (forall|
            k: int,
        |
            first_from(s, '{', 0) < k < s.len() ==> s[k] != '}'),
{
    lemma_first_from(s, '{', 0);
    lemma_last_before(s, '}', s.len() as int);
    let a = first_from(s, '{', 0);
    let b = last_before(s, '}', s.len() as int);
    if a >= 0 && b > a {
        let x = s.subrange(a, b + 1);
        assert(x[0] == s[a]);
        assert(x[x.len() - 1] == s[b]);
        assert(!(forall|k: int| a < k < s.len() ==> s[k] != '}'));
    }
}

/// The JSON object that a model's answer holds, found as the text from its
/// first `{` to its last `}` (the model may add words around it).
pub fn json_candidate(raw: &str) -> (r: Option<String>)
    ensures
        opt_chars(r) == object_span(raw@),
{
    let s = chars_of(raw);
    let n = s.len();
    let mut start: usize = 0;
    while start < n && s[start] != '{'
        invariant
            n == s@.len(),
            start <= n,
            first_from(s@, '{', 0) == first_from(s@, '{', start as int),
        decreases n - start,
    {
        start = start + 1;
    }
    let mut end: usize = n;
    while end > 0 && s[end - 1] != '}'
        invariant
            n == s@.len(),
            end <= n,
            last_before(s@, '}', n as int) == last_before(s@, '}', end as int),
        decreases end,
    {
        end = end - 1;
    }
    if start < n && end > 0 && end - 1 > start {
        let mut out: Vec<char> = Vec::new();
        let mut k: usize = start;
        while k < end
            invariant
                start <= k <= end <= n,
                n == s@.len(),
                out@ == s@.subrange(start as int, k as int),
            decreases end - k,
        {
            out.push(s[k]);
            proof {
                assert(s@.subrange(start as int, k + 1) =~= s@.subrange(start as int, k as int).push(
                    s@[k as int],
                ));
            }
            k = k + 1;
        }
        Some(string_of(out.as_slice()))
    } else {
        None
    }
}

/// The parse of a request: the one the language model gave where its
/// answer could be read, else the local parse of the request.
pub fn resolve_query(query: &str, parsed: Option<ParsedQuery>) -> (p: ParsedQuery)
    ensures
        parsed matches Some(m) ==> p == m,
        parsed is None ==> {
            &&& p.want_latest == crate::query::wants_latest(
                crate::query::tokens_of(crate::text::lowercase(query@)),
            )
            &&& string_views(p.keywords@) == crate::query::keywords_of(
                crate::query::tokens_of(crate::text::lowercase(query@)),
            )
        },
{
    match parsed {
        Some(m) => m,
        None => local_parse(query),
    }
}

/// Where the service's executable is looked for under the local
/// application-data folder `local_app_data` (a Windows path).
pub fn ollama_exe_candidate(local_app_data: &str) -> (p: String)
    ensures
        p@ == local_app_data@ + r"\Programs\Ollama\ollama.exe"@,
{
    let mut all = chars_of(local_app_data);
    append_chars(&mut all, &chars_of(r"\Programs\Ollama\ollama.exe"));
    string_of(all.as_slice())
}

} // verus!
