//! Matching on file names and paths: whole words and years.

use vstd::prelude::*;
use crate::text::chars_of;

verus! {

/// `b` is an ASCII decimal digit (`u8::is_ascii_digit`).
pub open spec fn is_digit(b: u8) -> bool {
    0x30 <= b <= 0x39
}

fn byte_is_digit(b: u8) -> (r: bool)
    ensures
        r == is_digit(b),
{
    0x30 <= b && b <= 0x39
}

/// What std's `char::is_alphanumeric` tells of `c`: whether it has the
/// Unicode `Alphabetic` property or a numeric general category.
pub uninterp spec fn alphanumeric(c: char) -> bool;

/// Tells whether `c` is alphanumeric.
///
/// Trusted: calls std's `char::is_alphanumeric`, whose result depends on
/// `c` alone (the Unicode tables of the standard library); the contract
/// names that result and says nothing more of it.
#[verifier::external_body]
fn unicode_alphanumeric(c: char) -> (r: bool)
    ensures
        r == alphanumeric(c),
{
    c.is_alphanumeric()
}

/// `c` is an ASCII letter or digit.
pub open spec fn is_ascii_alnum(c: char) -> bool {
    ||| '0' <= c <= '9'
    ||| 'A' <= c <= 'Z'
    ||| 'a' <= c <= 'z'
}

/// `c` is a letter or a digit, so that it cannot separate words: among
/// ASCII characters exactly `0`-`9`, `A`-`Z` and `a`-`z`; beyond ASCII, the
/// characters that Unicode counts as alphabetic or numeric.
pub open spec fn is_word_char(c: char) -> bool {
    if (c as u32) < 0x80 {
        is_ascii_alnum(c)
    } else {
        alphanumeric(c)
    }
}

/// Tells whether `c` is a letter or a digit.
pub fn word_char(c: char) -> (r: bool)
    ensures
        r == is_word_char(c),
{
    if (c as u32) < 0x80 {
        ('0' <= c && c <= '9') || ('A' <= c && c <= 'Z') || ('a' <= c && c <= 'z')
    } else {
        unicode_alphanumeric(c)
    }
}

/// `n` occurs in `h` at position `i`, and is neither preceded nor followed
/// by a letter or a digit.
pub open spec fn whole_word_at(h: Seq<char>, n: Seq<char>, i: int) -> bool {
    &&& 0 <= i
    &&& i + n.len() <= h.len()
    &&& h.subrange(i, i + n.len()) == n
    &&& (i == 0 || !is_word_char(h[i - 1]))
    &&& (i + n.len() == h.len() || !is_word_char(h[i + n.len()]))
}

/// `n` is non-empty and occurs in `h` as a whole word.
pub open spec fn has_whole_word(h: Seq<char>, n: Seq<char>) -> bool {
    n.len() > 0 && exists|i: int| whole_word_at(h, n, i)
}

/// A non-empty word is found as a whole word in itself, and between two
/// spaces whatever comes around them; a word is found only where it is a
/// part of the text, so never in a shorter text.
pub proof fn lemma_whole_word(n: Seq<char>, a: Seq<char>, b: Seq<char>, h: Seq<char>)
    ensures
        n.len() > 0 ==> has_whole_word(n, n),
        n.len() > 0 ==> has_whole_word(a + seq![' '] + n + seq![' '] + b, n),
        has_whole_word(h, n) ==> exists|i: int|
            0 <= i && i + n.len() <= h.len() && #[trigger] h.subrange(i, i + n.len()) == n,
        n.len() > h.len() ==> !has_whole_word(h, n),
        !has_whole_word(h, Seq::<char>::empty()),
{
    if n.len() > 0 {
        assert(n.subrange(0, n.len() as int) =~= n);
        assert(whole_word_at(n, n, 0));
        let t = a + seq![' '] + n + seq![' '] + b;
        let i: int = a.len() as int + 1;
        assert(t.subrange(i, i + n.len()) =~= n);
        assert(t[i - 1] == ' ');
        assert(t[i + n.len()] == ' ');
        assert(whole_word_at(t, n, i));
    }
    if has_whole_word(h, n) {
        let i = choose|i: int| whole_word_at(h, n, i);
        assert(h.subrange(i, i + n.len()) == n);
    }
}

/// Every character that is not a letter or a digit separates words: any
/// ASCII character other than `0`-`9`, `A`-`Z`, `a`-`z` (space, `_`, `-`,
/// `.`, `'`, ...) and any character beyond ASCII that Unicode does not count
/// as alphanumeric. A non-empty word between two such characters, or between
/// one and an end of the text, is found whatever the rest of the text holds.
pub proof fn lemma_separators(a: Seq<char>, c: char, n: Seq<char>, d: char, b: Seq<char>)
    requires
        n.len() > 0,
        (c as u32) < 0x80 ==> !('0' <= c <= '9' || 'A' <= c <= 'Z' || 'a' <= c <= 'z'),
        (c as u32) >= 0x80 ==> !alphanumeric(c),
        (d as u32) < 0x80 ==> !('0' <= d <= '9' || 'A' <= d <= 'Z' || 'a' <= d <= 'z'),
        (d as u32) >= 0x80 ==> !alphanumeric(d),
    ensures
        has_whole_word(a + seq![c] + n + seq![d] + b, n),
        has_whole_word(n + seq![d] + b, n),
        has_whole_word(a + seq![c] + n, n),
{
    let t = a + seq![c] + n + seq![d] + b;
    let i: int = a.len() as int + 1;
    assert(t.subrange(i, i + n.len()) =~= n);
    assert(t[i - 1] == c);
    assert(t[i + n.len()] == d);
    assert(whole_word_at(t, n, i));
    let u = n + seq![d] + b;
    assert(u.subrange(0, n.len() as int) =~= n);
    assert(u[n.len() as int] == d);
    assert(whole_word_at(u, n, 0));
    let v = a + seq![c] + n;
    assert(v.subrange(i, i + n.len()) =~= n);
    assert(v[i - 1] == c);
    assert(whole_word_at(v, n, i));
}

/// A letter or a digit right before or right after an occurrence keeps it
/// from counting as a whole word: ASCII letters and digits, and the
/// characters beyond ASCII that Unicode counts as alphanumeric.
pub proof fn lemma_word_chars_join(a: Seq<char>, c: char, n: Seq<char>, b: Seq<char>)
    requires
        ('0' <= c <= '9' || 'A' <= c <= 'Z' || 'a' <= c <= 'z') || ((c as u32) >= 0x80
            && alphanumeric(c)),
    ensures
        !whole_word_at(a.push(c) + n + b, n, a.len() as int + 1),
        !whole_word_at(a + n + seq![c] + b, n, a.len() as int),
{
    let t = a.push(c) + n + b;
    assert(t[a.len() as int] == c);
    let u = a + n + seq![c] + b;
    assert(u[a.len() as int + n.len()] == c);
}

fn equal_at(h: &Vec<char>, n: &Vec<char>, i: usize) -> (r: bool)
    requires
        i + n@.len() <= h@.len(),
    ensures
        r == (h@.subrange(i as int, i + n@.len()) == n@),
{
    let hlen: usize = h.len();
    let mut k: usize = 0;
    while k < n.len()
        invariant
            i + n@.len() <= h@.len(),
            hlen == h@.len(),
            k <= n@.len(),
            forall|j: int| 0 <= j < k ==> h@[i + j] == n@[j],
        decreases n@.len() - k,
    {
        if h[i + k] != n[k] {
            assert(h@.subrange(i as int, i + n@.len())[k as int] != n@[k as int]);
            return false;
        }
        k = k + 1;
    }
    assert(h@.subrange(i as int, i + n@.len()) =~= n@);
    true
}

/// Tells whether `needle` occurs in `haystack` as a whole word: an
/// occurrence counts only where the character before it and the character
/// after it (if any) are not letters or digits (any other character
/// separates words). An empty needle never matches.
pub fn contains_whole_word(haystack: &str, needle: &str) -> (r: bool)
    ensures
        r == has_whole_word(haystack@, needle@),
{
    let h = chars_of(haystack);
    let n = chars_of(needle);
    let nlen = n.len();
    if nlen == 0 || nlen > h.len() {
        return false;
    }
    let last = h.len() - nlen;
    let mut i: usize = 0;
    while i <= last
        invariant
            h@ == haystack@,
            n@ == needle@,
            nlen == n@.len(),
            0 < nlen <= h@.len(),
            last == h@.len() - nlen,
            h@.len() <= usize::MAX,
            i <= last + 1,
            forall|j: int| 0 <= j < i ==> !whole_word_at(h@, n@, j),
        decreases last + 1 - i,
    {
        if equal_at(&h, &n, i) {
            let before_ok = i == 0 || !word_char(h[i - 1]);
            let after_ok = i + nlen == h.len() || !word_char(h[i + nlen]);
            if before_ok && after_ok {
                assert(whole_word_at(h@, n@, i as int));
                return true;
            }
        }
        i = i + 1;
    }
    assert forall|j: int| !whole_word_at(h@, n@, j) by {
        if 0 <= j < i {
        }
    }
    false
}

/// The value of the ASCII digit `b`.
pub open spec fn digit_value(b: u8) -> int {
    b - 0x30
}

/// The four bytes of `b` at offset `i` are ASCII digits.
pub open spec fn four_digits_at(b: Seq<u8>, i: int) -> bool {
    &&& 0 <= i
    &&& i + 4 <= b.len()
    &&& forall|k: int| i <= k < i + 4 ==> is_digit(#[trigger] b[k])
}

/// The decimal number written by the four bytes of `b` at offset `i`.
pub open spec fn four_digit_value(b: Seq<u8>, i: int) -> int {
    1000 * digit_value(b[i]) + 100 * digit_value(b[i + 1]) + 10 * digit_value(b[i + 2])
        + digit_value(b[i + 3])
}

/// A year between 1900 and 2099 is written at offset `i` of `b`, as a run of
/// exactly four digits (no digit right before it nor right after it).
pub open spec fn year_at(b: Seq<u8>, i: int) -> bool {
    &&& four_digits_at(b, i)
    &&& 1900 <= four_digit_value(b, i) <= 2099
    &&& (i == 0 || !is_digit(b[i - 1]))
    &&& (i + 4 >= b.len() || !is_digit(b[i + 4]))
}

/// The year that `extract_year` finds in `b` from offset `i` on: the one
/// written at the first offset `j >= i` where one is written, or 0.
pub open spec fn year_from(b: Seq<u8>, i: int) -> int
    decreases b.len() - i,
{
    if i < 0 || i + 4 > b.len() {
        0
    } else if year_at(b, i) {
        four_digit_value(b, i)
    } else {
        year_from(b, i + 1)
    }
}

/// The year that `extract_year` finds in the bytes `b`.
pub open spec fn year_in(b: Seq<u8>) -> int {
    year_from(b, 0)
}

/// A year found from offset `i` on is written at the first offset `j >= i`
/// where a year is written; where none is written, the result is 0.
pub proof fn lemma_year_from(b: Seq<u8>, i: int)
    requires
        0 <= i,
    ensures
        year_from(b, i) == 0 || 1900 <= year_from(b, i) <= 2099,
        year_from(b, i) == 0 <==> forall|j: int| i <= j ==> !year_at(b, j),
        year_from(b, i) != 0 ==> exists|j: int|
            i <= j && year_at(b, j) && year_from(b, i) == four_digit_value(b, j) && forall|k: int|
                i <= k < j ==> !year_at(b, k),
    decreases b.len() - i,
{
    if i + 4 > b.len() {
        assert forall|j: int| i <= j implies !year_at(b, j) by {}
    } else if year_at(b, i) {
        assert(!(forall|j: int| i <= j ==> !year_at(b, j)));
    } else {
        lemma_year_from(b, i + 1);
        if year_from(b, i) == 0 {
            assert forall|j: int| i <= j implies !year_at(b, j) by {
                if j > i {
                }
            }
        } else {
            let j = choose|j: int|
                i + 1 <= j && year_at(b, j) && year_from(b, i + 1) == four_digit_value(b, j)
                    && forall|k: int| i + 1 <= k < j ==> !year_at(b, k);
            assert(forall|k: int| i <= k < j ==> !year_at(b, k));
            assert(!(forall|jj: int| i <= jj ==> !year_at(b, jj)));
        }
    }
}

/// The year found in a text is 0 exactly where no plausible year (1900 to
/// 2099, as a run of exactly four digits) is written in it; otherwise it is
/// the one written first.
pub proof fn lemma_year_in(b: Seq<u8>)
    ensures
        year_in(b) == 0 || 1900 <= year_in(b) <= 2099,
        year_in(b) == 0 <==> forall|j: int| !year_at(b, j),
        year_in(b) != 0 ==> exists|j: int|
            year_at(b, j) && year_in(b) == four_digit_value(b, j) && forall|k: int|
                0 <= k < j ==> !year_at(b, k),
{
    lemma_year_from(b, 0);
    if forall|j: int| 0 <= j ==> !year_at(b, j) {
        assert forall|j: int| !year_at(b, j) by {
            if j >= 0 {
            }
        }
    }
}

/// A text that starts with four digits writing a year from 1900 to 2099,
/// not followed by a fifth digit, gives that year; a text without any digit
/// gives 0.
pub proof fn lemma_year_examples(b: Seq<u8>)
    ensures
        (b.len() >= 4 && (forall|k: int| 0 <= k < 4 ==> 0x30 <= #[trigger] b[k] <= 0x39) && (
        b.len() == 4 || !(0x30 <= b[4] <= 0x39)) && 1900 <= 1000 * (b[0] - 0x30) + 100 * (b[1]
            - 0x30) + 10 * (b[2] - 0x30) + (b[3] - 0x30) <= 2099) ==> year_in(b) == 1000 * (b[0]
            - 0x30) + 100 * (b[1] - 0x30) + 10 * (b[2] - 0x30) + (b[3] - 0x30),
        (forall|k: int| 0 <= k < b.len() ==> !(0x30 <= #[trigger] b[k] <= 0x39)) ==> year_in(b)
            == 0,
{
    lemma_year_in(b);
    if forall|k: int| 0 <= k < b.len() ==> !(0x30 <= #[trigger] b[k] <= 0x39) {
        assert forall|j: int| !year_at(b, j) by {
            if year_at(b, j) {
                assert(is_digit(b[j]));
            }
        }
    }
    if b.len() >= 4 && (forall|k: int| 0 <= k < 4 ==> 0x30 <= #[trigger] b[k] <= 0x39) {
        assert(four_digits_at(b, 0));
    }
}

/// A run of more than four digits holds no year: a text made only of five
/// digits or more gives 0.
pub proof fn lemma_long_number(b: Seq<u8>)
    requires
        b.len() >= 5,
        forall|k: int| 0 <= k < b.len() ==> 0x30 <= #[trigger] b[k] <= 0x39,
    ensures
        year_in(b) == 0,
{
    lemma_year_in(b);
    assert forall|j: int| !year_at(b, j) by {
        if 0 < j < b.len() {
            assert(is_digit(b[j - 1]));
        }
        if j == 0 {
            assert(is_digit(b[4]));
        }
    }
}

/// Extracts the first plausible year (1900 to 2099) written in `s` as a run of
/// exactly four digits; 0 where there is none.
pub fn extract_year(s: &str) -> (y: u32)
    ensures
        y == year_in(vstd::utf8::encode_utf8(s@)),
        y == 0 || 1900 <= y <= 2099,
{
    extract_year_bytes(s.as_bytes())
}

/// `extract_year` on the UTF-8 bytes of a string.
pub fn extract_year_bytes(bytes: &[u8]) -> (y: u32)
    ensures
        y == year_in(bytes@),
        y == 0 || 1900 <= y <= 2099,
{
    proof {
        lemma_year_in(bytes@);
    }
    let len: usize = bytes.len();
    let mut i: usize = 0;
    while len >= 4 && i <= len - 4
        invariant
            len == bytes@.len(),
            year_in(bytes@) == year_from(bytes@, i as int),
        decreases len - i,
    {
        if byte_is_digit(bytes[i]) && byte_is_digit(bytes[i + 1]) && byte_is_digit(bytes[i + 2])
            && byte_is_digit(bytes[i + 3]) {
            let year: u32 = 1000 * (bytes[i] - 0x30) as u32 + 100 * (bytes[i + 1] - 0x30) as u32
                + 10 * (bytes[i + 2] - 0x30) as u32 + (bytes[i + 3] - 0x30) as u32;
            assert(four_digits_at(bytes@, i as int));
            if year >= 1900 && year <= 2099 {
                let before_ok = i == 0 || !byte_is_digit(bytes[i - 1]);
                let after_ok = i + 4 >= len || !byte_is_digit(bytes[i + 4]);
                if before_ok && after_ok {
                    assert(year_at(bytes@, i as int));
                    return year;
                }
            }
        }
        i = i + 1;
    }
    0
}

} // verus!
