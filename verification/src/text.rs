//! Character-level text utilities: conversions between strings and
//! character vectors, Unicode white space, splitting and lowercasing.

use vstd::prelude::*;

verus! {

/// The characters of `s`, in order.
pub fn chars_of(s: &str) -> (v: Vec<char>)
    ensures
        v@ == s@,
{
    let mut v: Vec<char> = Vec::new();
    for c in it: s.chars()
        invariant
            v@ == it.seq().take(it.index()),
    {
        v.push(c);
    }
    v
}

/// A string holding the characters of `v`, in order.
///
/// Trusted: collects the characters through std's `FromIterator<char>` impl
/// for `String`, which appends each character in turn, so the string's
/// characters are exactly `v`'s.
#[verifier::external_body]
pub(crate) fn string_of(v: &[char]) -> (s: String)
    ensures
        s@ == v@,
{
    v.iter().collect()
}

/// What std's `str::to_lowercase` makes of the characters `s`: the
/// concatenation of the Unicode lowercase mappings of its characters, with
/// the final-sigma rule applied.
pub uninterp spec fn lowercase(s: Seq<char>) -> Seq<char>;

/// The lowercase form of `s`.
///
/// Trusted: calls std's `str::to_lowercase`, whose result depends on the
/// characters of `s` alone (Unicode tables of the standard library); the
/// contract names that result and says nothing more of it.
#[verifier::external_body]
pub(crate) fn to_lowercase(s: &str) -> (r: String)
    ensures
        r@ == lowercase(s@),
{
    s.to_lowercase()
}

/// `c` has the Unicode `White_Space` property, which is what std's
/// `char::is_whitespace` tests.
pub open spec fn is_white_space(c: char) -> bool {
    let u = c as u32;
    ||| 0x09 <= u <= 0x0d
    ||| u == 0x20
    ||| u == 0x85
    ||| u == 0xa0
    ||| u == 0x1680
    ||| 0x2000 <= u <= 0x200a
    ||| u == 0x2028
    ||| u == 0x2029
    ||| u == 0x202f
    ||| u == 0x205f
    ||| u == 0x3000
}

/// Tells whether `c` is Unicode white space.
pub fn white_space(c: char) -> (r: bool)
    ensures
        r == is_white_space(c),
{
    let u = c as u32;
    (0x09 <= u && u <= 0x0d) || u == 0x20 || u == 0x85 || u == 0xa0 || u == 0x1680 || (0x2000 <= u
        && u <= 0x200a) || u == 0x2028 || u == 0x2029 || u == 0x202f || u == 0x205f || u == 0x3000
}

/// The separators on which text is split.
#[derive(Clone, Copy, Debug, PartialEq, Eq)]
pub enum Separator {
    /// Any Unicode white space character.
    WhiteSpace,
    /// The apostrophe `'`.
    Apostrophe,
}

/// `c` is a separator of kind `sep`.
pub open spec fn is_separator(sep: Separator, c: char) -> bool {
    match sep {
        Separator::WhiteSpace => is_white_space(c),
        Separator::Apostrophe => c == '\'',
    }
}

fn separates(sep: Separator, c: char) -> (r: bool)
    ensures
        r == is_separator(sep, c),
{
    match sep {
        Separator::WhiteSpace => white_space(c),
        Separator::Apostrophe => c == '\'',
    }
}

/// The pieces of `s` between separators of kind `sep`, in order, empty
/// pieces included, as std's `str::split` gives them: `n` separators make
/// `n + 1` pieces.
pub open spec fn pieces(s: Seq<char>, sep: Separator) -> Seq<Seq<char>>
    decreases s.len(),
{
    if s.len() == 0 {
        seq![Seq::empty()]
    } else {
        let p = pieces(s.drop_last(), sep);
        if is_separator(sep, s.last()) {
            p.push(Seq::empty())
        } else {
            p.update(p.len() - 1, p.last().push(s.last()))
        }
    }
}

/// The non-empty pieces of `s` between separators of kind `sep`; on white
/// space this is what std's `str::split_whitespace` gives.
pub open spec fn words(s: Seq<char>, sep: Separator) -> Seq<Seq<char>> {
    nonempty_pieces(pieces(s, sep))
}

/// The non-empty members of `s`, in order.
pub open spec fn nonempty_pieces(s: Seq<Seq<char>>) -> Seq<Seq<char>> {
    s.filter(|p: Seq<char>| p.len() > 0)
}

/// The character sequences held by a vector of character vectors.
pub open spec fn views(v: Seq<Vec<char>>) -> Seq<Seq<char>> {
    v.map_values(|w: Vec<char>| w@)
}

/// There is always at least one piece.
pub proof fn lemma_pieces_len(s: Seq<char>, sep: Separator)
    ensures
        pieces(s, sep).len() >= 1,
    decreases s.len(),
{
    if s.len() > 0 {
        lemma_pieces_len(s.drop_last(), sep);
    }
}

/// No piece holds a separator, and every character of a piece is a
/// character of `s`.
pub proof fn lemma_pieces_chars(s: Seq<char>, sep: Separator)
    ensures
        forall|i: int, k: int|
            0 <= i < pieces(s, sep).len() && 0 <= k < pieces(s, sep)[i].len() ==> {
                &&& !is_separator(sep, #[trigger] pieces(s, sep)[i][k])
                &&& s.contains(pieces(s, sep)[i][k])
            },
    decreases s.len(),
{
    lemma_pieces_len(s, sep);
    if s.len() > 0 {
        lemma_pieces_chars(s.drop_last(), sep);
        lemma_pieces_len(s.drop_last(), sep);
        let p = pieces(s.drop_last(), sep);
        assert forall|i: int, k: int|
            0 <= i < pieces(s, sep).len() && 0 <= k < pieces(s, sep)[i].len() implies {
            &&& !is_separator(sep, #[trigger] pieces(s, sep)[i][k])
            &&& s.contains(pieces(s, sep)[i][k])
        } by {
            if !is_separator(sep, s.last()) && i == p.len() - 1 && k == p.last().len() {
                assert(s[s.len() - 1] == pieces(s, sep)[i][k]);
            } else if !is_separator(sep, s.last()) && i == p.len() - 1 {
                assert(pieces(s, sep)[i][k] == p[i][k]);
                let m = choose|m: int| 0 <= m < s.drop_last().len() && s.drop_last()[m] == p[i][k];
                assert(s[m] == p[i][k]);
            } else if i < p.len() {
                assert(pieces(s, sep)[i] == p[i]);
                let m = choose|m: int| 0 <= m < s.drop_last().len() && s.drop_last()[m] == p[i][k];
                assert(s[m] == p[i][k]);
            }
        }
    }
}

/// `x` is a contiguous part of `s`.
pub open spec fn occurs_in(x: Seq<char>, s: Seq<char>) -> bool {
    exists|i: int| 0 <= i && i + x.len() <= s.len() && #[trigger] s.subrange(i, i + x.len()) == x
}

/// A part of a part of `s` is a part of `s`.
pub proof fn lemma_occurs_in_trans(x: Seq<char>, y: Seq<char>, z: Seq<char>)
    requires
        occurs_in(x, y),
        occurs_in(y, z),
    ensures
        occurs_in(x, z),
{
    let i = choose|i: int| 0 <= i && i + x.len() <= y.len() && #[trigger] y.subrange(i, i + x.len()) == x;
    let j = choose|j: int| 0 <= j && j + y.len() <= z.len() && #[trigger] z.subrange(j, j + y.len()) == y;
    assert(z.subrange(i + j, i + j + x.len()) =~= x) by {
        assert forall|k: int| 0 <= k < x.len() implies z.subrange(i + j, i + j + x.len())[k] == x[k] by {
            assert(x[k] == y.subrange(i, i + x.len())[k]);
            assert(y[i + k] == z.subrange(j, j + y.len())[i + k]);
        }
    }
}

/// Every piece of `s` is a contiguous part of `s`, and the last piece ends `s`.
pub proof fn lemma_pieces_occur(s: Seq<char>, sep: Separator)
    ensures
        forall|i: int| 0 <= i < pieces(s, sep).len() ==> occurs_in(#[trigger] pieces(s, sep)[i], s),
        ({
            let l = pieces(s, sep).last();
            l.len() <= s.len() && s.subrange(s.len() - l.len(), s.len() as int) == l
        }),
    decreases s.len(),
{
    lemma_pieces_len(s, sep);
    if s.len() == 0 {
        let q = pieces(s, sep);
        assert(s.subrange(0int, 0int + q[0].len()) =~= q[0]);
    } else {
        let d = s.drop_last();
        let p = pieces(d, sep);
        lemma_pieces_len(d, sep);
        lemma_pieces_occur(d, sep);
        let q = pieces(s, sep);
        assert forall|i: int| 0 <= i < q.len() implies occurs_in(#[trigger] q[i], s) by {
            if i < p.len() && (is_separator(sep, s.last()) || i < p.len() - 1) {
                assert(q[i] == p[i]);
                let k = choose|k: int| 0 <= k && k + p[i].len() <= d.len() && #[trigger] d.subrange(k, k + p[i].len()) == p[i];
                assert(s.subrange(k, k + q[i].len()) =~= d.subrange(k, k + p[i].len()));
            } else if is_separator(sep, s.last()) {
                assert(s.subrange(0int, 0int + q[i].len()) =~= q[i]);
            } else {
                let l = p.last();
                assert(q[i] == l.push(s.last()));
                let k = d.len() - l.len();
                assert(s.subrange(k, k + q[i].len()) =~= q[i]);
            }
        }
        if is_separator(sep, s.last()) {
            assert(s.subrange(s.len() as int, s.len() as int) =~= q.last());
        } else {
            let l = p.last();
            assert(s.subrange(d.len() - l.len(), s.len() as int) =~= l.push(s.last()));
        }
    }
}

/// Joining two texts with a separator joins their pieces.
pub proof fn lemma_pieces_join(a: Seq<char>, c: char, b: Seq<char>, sep: Separator)
    requires
        is_separator(sep, c),
    ensures
        pieces(a.push(c) + b, sep) == pieces(a, sep) + pieces(b, sep),
    decreases b.len(),
{
    lemma_pieces_len(b, sep);
    if b.len() == 0 {
        assert(a.push(c) + b =~= a.push(c));
        assert(a.push(c).drop_last() =~= a);
        assert(pieces(a, sep).push(Seq::empty()) =~= pieces(a, sep) + pieces(b, sep));
    } else {
        let s = a.push(c) + b;
        assert(s.drop_last() =~= a.push(c) + b.drop_last());
        assert(s.last() == b.last());
        lemma_pieces_join(a, c, b.drop_last(), sep);
        lemma_pieces_len(b.drop_last(), sep);
        let x = pieces(a, sep);
        let y = pieces(b.drop_last(), sep);
        if is_separator(sep, b.last()) {
            assert((x + y).push(Seq::empty()) =~= x + y.push(Seq::empty()));
        } else {
            let xy = x + y;
            assert(xy.update(xy.len() - 1, xy.last().push(b.last())) =~= x + y.update(
                y.len() - 1,
                y.last().push(b.last()),
            ));
        }
    }
}

/// A text without separators is a single piece.
pub proof fn lemma_pieces_single(s: Seq<char>, sep: Separator)
    requires
        forall|k: int| 0 <= k < s.len() ==> !is_separator(sep, #[trigger] s[k]),
    ensures
        pieces(s, sep) == seq![s],
    decreases s.len(),
{
    if s.len() > 0 {
        let d = s.drop_last();
        assert forall|k: int| 0 <= k < d.len() implies !is_separator(sep, #[trigger] d[k]) by {
            assert(d[k] == s[k]);
        }
        lemma_pieces_single(d, sep);
        assert(!is_separator(sep, s[s.len() - 1]));
        assert(d.push(s.last()) =~= s);
        assert(seq![d].update(0, d.push(s.last())) =~= seq![s]);
    } else {
        assert(s =~= Seq::<char>::empty());
    }
}

/// Every member of a filtered sequence is a member of the sequence.
pub proof fn lemma_filter_members<A>(s: Seq<A>, pred: spec_fn(A) -> bool)
    ensures
        forall|i: int|
            0 <= i < s.filter(pred).len() ==> s.contains(#[trigger] s.filter(pred)[i]) && pred(
                s.filter(pred)[i],
            ),
    decreases s.len(),
{
    reveal(Seq::filter);
    if s.len() > 0 {
        lemma_filter_members(s.drop_last(), pred);
        let f = s.filter(pred);
        let g = s.drop_last().filter(pred);
        assert forall|i: int| 0 <= i < f.len() implies s.contains(#[trigger] f[i]) && pred(f[i]) by {
            if i < g.len() {
                assert(f[i] == g[i]);
                let m = choose|m: int| 0 <= m < s.drop_last().len() && s.drop_last()[m] == g[i];
                assert(s[m] == f[i]);
            } else {
                assert(f[i] == s[s.len() - 1]);
            }
        }
    }
}

/// Splits `s` at every separator of kind `sep`, keeping empty pieces.
pub fn split_pieces(s: &Vec<char>, sep: Separator) -> (r: Vec<Vec<char>>)
    ensures
        views(r@) == pieces(s@, sep),
{
    let mut done: Vec<Vec<char>> = Vec::new();
    let mut cur: Vec<char> = Vec::new();
    let mut i: usize = 0;
    while i < s.len()
        invariant
            i <= s@.len(),
            views(done@).push(cur@) == pieces(s@.take(i as int), sep),
        decreases s@.len() - i,
    {
        let c = s[i];
        proof {
            assert(s@.take(i + 1).drop_last() =~= s@.take(i as int));
            assert(s@.take(i + 1).last() == c);
        }
        if separates(sep, c) {
            let piece = cur;
            let ghost old_done = done@;
            done.push(piece);
            cur = Vec::new();
            proof {
                assert(views(done@) =~= views(old_done).push(piece@));
                assert(views(done@).push(cur@) =~= views(old_done).push(piece@).push(Seq::empty()));
            }
        } else {
            let ghost old_cur = cur@;
            cur.push(c);
            proof {
                let p = views(done@).push(old_cur);
                assert(views(done@).push(cur@) =~= p.update(p.len() - 1, p.last().push(c)));
            }
        }
        i = i + 1;
    }
    let ghost old_done = done@;
    done.push(cur);
    proof {
        assert(s@.take(s@.len() as int) =~= s@);
        assert(views(done@) =~= views(old_done).push(cur@));
    }
    done
}

/// Tells whether two character vectors hold the same characters.
pub fn same_chars(a: &Vec<char>, b: &Vec<char>) -> (r: bool)
    ensures
        r == (a@ == b@),
{
    if a.len() != b.len() {
        return false;
    }
    let mut k: usize = 0;
    while k < a.len()
        invariant
            a@.len() == b@.len(),
            k <= a@.len(),
            forall|j: int| 0 <= j < k ==> a@[j] == b@[j],
        decreases a@.len() - k,
    {
        if a[k] != b[k] {
            return false;
        }
        k = k + 1;
    }
    assert(a@ =~= b@);
    true
}

/// Tells whether `t` is one of the members of `list`.
pub fn is_listed(t: &Vec<char>, list: &Vec<Vec<char>>) -> (r: bool)
    ensures
        r == views(list@).contains(t@),
{
    let mut k: usize = 0;
    while k < list.len()
        invariant
            k <= list@.len(),
            forall|j: int| 0 <= j < k ==> list@[j]@ != t@,
        decreases list@.len() - k,
    {
        if same_chars(t, &list[k]) {
            assert(views(list@)[k as int] == t@);
            return true;
        }
        k = k + 1;
    }
    assert forall|j: int| 0 <= j < views(list@).len() implies views(list@)[j] != t@ by {
        assert(views(list@)[j] == list@[j]@);
    }
    false
}

/// Appends the characters of `src` to `dst`.
pub fn append_chars(dst: &mut Vec<char>, src: &Vec<char>)
    ensures
        final(dst)@ == old(dst)@ + src@,
{
    let ghost start = dst@;
    let mut i: usize = 0;
    while i < src.len()
        invariant
            i <= src@.len(),
            dst@ == start + src@.take(i as int),
        decreases src@.len() - i,
    {
        dst.push(src[i]);
        proof {
            assert(src@.take(i + 1) =~= src@.take(i as int).push(src@[i as int]));
        }
        i = i + 1;
    }
    assert(src@.take(src@.len() as int) =~= src@);
}

} // verus!
