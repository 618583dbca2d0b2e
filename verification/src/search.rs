//! The answer to a search: a short message and the items found.

use vstd::prelude::*;
use crate::ranking::FileItem;
use crate::text::{append_chars, chars_of, string_of};

verus! {

/// What a search answers.
#[derive(Debug)]
pub struct SearchResult {
    /// A message for the user.
    pub reply: String,
    /// The items found, best first.
    pub files: Vec<FileItem>,
}

/// The decimal digit for `d` (0 to 9).
pub open spec fn digit_char(d: int) -> char {
    if d == 0 {
        '0'
    } else if d == 1 {
        '1'
    } else if d == 2 {
        '2'
    } else if d == 3 {
        '3'
    } else if d == 4 {
        '4'
    } else if d == 5 {
        '5'
    } else if d == 6 {
        '6'
    } else if d == 7 {
        '7'
    } else if d == 8 {
        '8'
    } else {
        '9'
    }
}

/// The decimal writing of `n`, without leading zeros.
pub open spec fn decimal(n: nat) -> Seq<char>
    decreases n,
{
    if n < 10 {
        seq![digit_char(n as int)]
    } else {
        decimal(n / 10).push(digit_char((n % 10) as int))
    }
}

/// The number that the decimal digits `s` write.
pub open spec fn digits_value(s: Seq<char>) -> int
    decreases s.len(),
{
    if s.len() == 0 {
        0
    } else {
        10 * digits_value(s.drop_last()) + (s.last() as int - 0x30)
    }
}

proof fn lemma_digit_char(d: int)
    requires
        0 <= d < 10,
    ensures
        digit_char(d) as int == d + 0x30,
{
}

/// The decimal writing of a number is made of digits, starts with a digit
/// other than 0 unless the number is 0, and reads back as the number.
pub proof fn lemma_decimal(n: nat)
    ensures
        decimal(n).len() >= 1,
        forall|k: int| 0 <= k < decimal(n).len() ==> '0' <= #[trigger] decimal(n)[k] <= '9',
        n > 0 ==> decimal(n)[0] != '0',
        digits_value(decimal(n)) == n,
    decreases n,
{
    if n < 10 {
        lemma_digit_char(n as int);
        assert(decimal(n).drop_last() =~= Seq::<char>::empty());
        assert(digits_value(decimal(n)) == 10 * digits_value(Seq::<char>::empty()) + (decimal(
            n,
        ).last() as int - 0x30));
    } else {
        lemma_digit_char((n % 10) as int);
        lemma_decimal(n / 10);
        let d = decimal(n / 10);
        assert(decimal(n).drop_last() =~= d);
        assert forall|k: int| 0 <= k < decimal(n).len() implies '0' <= #[trigger] decimal(n)[k]
            <= '9' by {
            if k < d.len() {
                assert(decimal(n)[k] == d[k]);
            }
        }
        assert(decimal(n)[0] == d[0]);
        assert(decimal(n).last() == digit_char((n % 10) as int));
        assert(digits_value(decimal(n)) == 10 * digits_value(d) + (decimal(n).last() as int
            - 0x30));
    }
}

fn digit(d: usize) -> (c: char)
    requires
        d < 10,
    ensures
        c == digit_char(d as int),
{
    if d == 0 {
        '0'
    } else if d == 1 {
        '1'
    } else if d == 2 {
        '2'
    } else if d == 3 {
        '3'
    } else if d == 4 {
        '4'
    } else if d == 5 {
        '5'
    } else if d == 6 {
        '6'
    } else if d == 7 {
        '7'
    } else if d == 8 {
        '8'
    } else {
        '9'
    }
}

/// The decimal digits of `n`.
pub fn decimal_chars(n: usize) -> (r: Vec<char>)
    ensures
        r@ == decimal(n as nat),
    decreases n,
{
    if n < 10 {
        let mut r: Vec<char> = Vec::new();
        r.push(digit(n));
        r
    } else {
        let mut r = decimal_chars(n / 10);
        r.push(digit(n % 10));
        r
    }
}

/// The message when nothing was found.
pub const NOTHING_FOUND: &'static str = "Aucun résultat trouvé pour : ";

/// The message after the number of items found.
pub const FOUND_SUFFIX: &'static str = " résultat(s) trouvé(s)";

/// The message for a search on `query` that found `count` items.
pub open spec fn reply_text(query: Seq<char>, count: nat) -> Seq<char> {
    if count == 0 {
        NOTHING_FOUND@ + query
    } else {
        decimal(count) + FOUND_SUFFIX@
    }
}

/// The message for an empty search repeats the request after the notice;
/// for a search that found items it is a run of digits reading their
/// number, without leading zero, followed by the notice.
pub proof fn lemma_reply(query: Seq<char>, count: nat)
    ensures
        count == 0 ==> reply_text(query, count) == NOTHING_FOUND@ + query,
        count > 0 ==> ({
            let r = reply_text(query, count);
            let d = r.take(r.len() - FOUND_SUFFIX@.len());
            &&& r.len() > FOUND_SUFFIX@.len()
            &&& r.skip(r.len() - FOUND_SUFFIX@.len()) == FOUND_SUFFIX@
            &&& forall|k: int| 0 <= k < d.len() ==> '0' <= #[trigger] d[k] <= '9'
            &&& d[0] != '0'
            &&& digits_value(d) == count
        }),
{
    if count > 0 {
        lemma_decimal(count);
        let r = reply_text(query, count);
        assert(r.take(r.len() - FOUND_SUFFIX@.len()) =~= decimal(count));
        assert(r.skip(r.len() - FOUND_SUFFIX@.len()) =~= FOUND_SUFFIX@);
    }
}

/// The message for a search on `query` that found `count` items: where none
/// was found it says so and repeats the request, else it gives their number.
pub fn search_reply(query: &str, count: usize) -> (r: String)
    ensures
        r@ == reply_text(query@, count as nat),
{
    if count == 0 {
        let mut all = chars_of(NOTHING_FOUND);
        append_chars(&mut all, &chars_of(query));
        string_of(all.as_slice())
    } else {
        let mut all = decimal_chars(count);
        append_chars(&mut all, &chars_of(FOUND_SUFFIX));
        string_of(all.as_slice())
    }
}

/// The answer to a search on `query` that found `files`.
pub fn search_result(query: &str, files: Vec<FileItem>) -> (r: SearchResult)
    ensures
        r.reply@ == reply_text(query@, files@.len()),
        r.files == files,
{
    let reply = search_reply(query, files.len());
    SearchResult { reply, files }
}

} // verus!
