//! Text primitives used for answer matching: whitespace trimming and
//! caseless comparison.

use vstd::prelude::*;

verus! {

/// Whether a character counts as whitespace when trimming; names the result
/// of `char::is_whitespace`.
pub uninterp spec fn is_whitespace_char(c: char) -> bool;

/// Relies on `char::is_whitespace`: the result depends on the character alone.
#[verifier::external_body]
pub(crate) fn char_is_whitespace(c: char) -> (r: bool)
    ensures
        r == is_whitespace_char(c),
{
    c.is_whitespace()
}

/// The sequence of characters each input character folds to under caseless
/// comparison; names the folding that `unicase::eq` applies to a string.
pub uninterp spec fn case_folded(s: Seq<char>) -> Seq<char>;

/// Relies on `unicase::eq`: two strings compare equal exactly when their
/// case-folded character sequences are equal.
#[verifier::external_body]
pub(crate) fn eq_ignore_case(a: &str, b: &str) -> (r: bool)
    ensures
        r == (case_folded(a@) == case_folded(b@)),
{
    unicase::eq(a, b)
}

/// Relies on `str`'s `PartialEq`: string slices are equal exactly when their
/// character sequences are equal.
#[verifier::external_body]
pub(crate) fn str_eq(a: &str, b: &str) -> (r: bool)
    ensures
        r == (a@ == b@),
{
    a == b
}

/// The number of leading whitespace characters of `s`.
pub open spec fn ws_prefix_len(s: Seq<char>) -> nat
    decreases s.len(),
{
    if s.len() > 0 && is_whitespace_char(s[0]) {
        1 + ws_prefix_len(s.drop_first())
    } else {
        0
    }
}

/// The number of trailing whitespace characters of `s`.
pub open spec fn ws_suffix_len(s: Seq<char>) -> nat
    decreases s.len(),
{
    if s.len() > 0 && is_whitespace_char(s.last()) {
        1 + ws_suffix_len(s.drop_last())
    } else {
        0
    }
}

/// `s` with leading and trailing whitespace removed.
pub open spec fn trim_spec(s: Seq<char>) -> Seq<char> {
    let t = s.skip(ws_prefix_len(s) as int);
    t.take(t.len() - ws_suffix_len(t))
}

proof fn lemma_ws_prefix_len_le(s: Seq<char>)
    ensures
        ws_prefix_len(s) <= s.len(),
    decreases s.len(),
{
    if s.len() > 0 && is_whitespace_char(s[0]) {
        lemma_ws_prefix_len_le(s.drop_first());
    }
}

proof fn lemma_ws_suffix_len_le(s: Seq<char>)
    ensures
        ws_suffix_len(s) <= s.len(),
    decreases s.len(),
{
    if s.len() > 0 && is_whitespace_char(s.last()) {
        lemma_ws_suffix_len_le(s.drop_last());
    }
}

/// A position below which every character is whitespace and at which the
/// string ends or a non-whitespace character stands is exactly the length of
/// the whitespace prefix.
proof fn lemma_ws_prefix_len_at(s: Seq<char>, k: int)
    requires
        0 <= k <= s.len(),
        forall|i: int| 0 <= i < k ==> is_whitespace_char(s[i]),
        k == s.len() || !is_whitespace_char(s[k]),
    ensures
        ws_prefix_len(s) == k,
    decreases k,
{
    if k == 0 {
        if s.len() > 0 {
            assert(!is_whitespace_char(s[0]));
        }
    } else {
        assert(is_whitespace_char(s[0]));
        let t = s.drop_first();
        assert(forall|i: int| 0 <= i < k - 1 ==> is_whitespace_char(#[trigger] t[i]));
        assert(k - 1 == t.len() || !is_whitespace_char(t[k - 1]));
        lemma_ws_prefix_len_at(t, k - 1);
    }
}

/// The mirror statement for the whitespace suffix.
proof fn lemma_ws_suffix_len_at(s: Seq<char>, k: int)
    requires
        0 <= k <= s.len(),
        forall|i: int| s.len() - k <= i < s.len() ==> is_whitespace_char(s[i]),
        k == s.len() || !is_whitespace_char(s[s.len() - k - 1]),
    ensures
        ws_suffix_len(s) == k,
    decreases k,
{
    if k == 0 {
        if s.len() > 0 {
            assert(!is_whitespace_char(s.last()));
        }
    } else {
        assert(is_whitespace_char(s.last()));
        let t = s.drop_last();
        assert(forall|i: int| t.len() - (k - 1) <= i < t.len() ==> is_whitespace_char(
            #[trigger] t[i],
        ));
        lemma_ws_suffix_len_at(t, k - 1);
    }
}

/// Returns `s` with leading and trailing whitespace removed.
pub fn trimmed<'a>(s: &'a str) -> (r: &'a str)
    ensures
        r@ == trim_spec(s@),
{
    let n = s.unicode_len();
    let mut start: usize = 0;
    loop
        invariant
            0 <= start <= n,
            n == s@.len(),
            forall|i: int| 0 <= i < start ==> is_whitespace_char(s@[i]),
        ensures
            0 <= start <= n,
            forall|i: int| 0 <= i < start ==> is_whitespace_char(s@[i]),
            start == n || !is_whitespace_char(s@[start as int]),
        decreases n - start,
    {
        if start == n {
            break;
        }
        let c = s.get_char(start);
        if char_is_whitespace(c) {
            start = start + 1;
        } else {
            break;
        }
    }
    let mut end: usize = n;
    loop
        invariant
            start <= end <= n,
            n == s@.len(),
            start == n || !is_whitespace_char(s@[start as int]),
            forall|i: int| end <= i < n ==> is_whitespace_char(s@[i]),
        ensures
            start <= end <= n,
            forall|i: int| end <= i < n ==> is_whitespace_char(s@[i]),
            end == start || !is_whitespace_char(s@[end - 1]),
        decreases end,
    {
        if end == start {
            break;
        }
        let c = s.get_char(end - 1);
        if char_is_whitespace(c) {
            end = end - 1;
        } else {
            break;
        }
    }
    proof {
        lemma_ws_prefix_len_at(s@, start as int);
        let t = s@.skip(start as int);
        if end == start {
            lemma_ws_suffix_len_at(t, t.len() as int);
        } else {
            lemma_ws_suffix_len_at(t, n - end);
        }
        assert(s@.subrange(start as int, end as int) =~= trim_spec(s@));
    }
    s.substring_char(start, end)
}

/// `s` with leading whitespace removed.
pub open spec fn trim_start_spec(s: Seq<char>) -> Seq<char> {
    s.skip(ws_prefix_len(s) as int)
}

/// Returns `s` with leading whitespace removed.
pub fn trimmed_start<'a>(s: &'a str) -> (r: &'a str)
    ensures
        r@ == trim_start_spec(s@),
{
    let n = s.unicode_len();
    let mut start: usize = 0;
    loop
        invariant
            0 <= start <= n,
            n == s@.len(),
            forall|i: int| 0 <= i < start ==> is_whitespace_char(s@[i]),
        ensures
            0 <= start <= n,
            forall|i: int| 0 <= i < start ==> is_whitespace_char(s@[i]),
            start == n || !is_whitespace_char(s@[start as int]),
        decreases n - start,
    {
        if start == n {
            break ;
        }
        let c = s.get_char(start);
        if char_is_whitespace(c) {
            start = start + 1;
        } else {
            break ;
        }
    }
    proof {
        lemma_ws_prefix_len_at(s@, start as int);
        assert(s@.subrange(start as int, n as int) =~= trim_start_spec(s@));
    }
    s.substring_char(start, n)
}

/// Relies on `String`'s `FromIterator` over characters: the collected
/// string holds exactly the characters given, in order.
#[verifier::external_body]
pub(crate) fn chars_to_string(v: &Vec<char>) -> (r: String)
    ensures
        r@ == v@,
{
    v.iter().copied().collect()
}

/// Trimming is idempotent: a trimmed string neither starts nor ends with
/// whitespace, so trimming it again changes nothing.
pub proof fn lemma_trim_idempotent(s: Seq<char>)
    ensures
        trim_spec(trim_spec(s)) == trim_spec(s),
{
    lemma_ws_prefix_len_le(s);
    let t = s.skip(ws_prefix_len(s) as int);
    lemma_ws_suffix_len_le(t);
    let r = trim_spec(s);
    if r.len() == 0 {
        lemma_ws_prefix_len_at(r, 0);
        lemma_ws_suffix_len_at(r, 0);
        assert(trim_spec(r) =~= r);
    } else {
        assert(r[0] == t[0]);
        if ws_prefix_len(s) < s.len() {
            assert(!is_whitespace_char(s[ws_prefix_len(s) as int])) by {
                lemma_ws_prefix_nonws_at(s);
            }
        }
        assert(!is_whitespace_char(r[0]));
        assert(!is_whitespace_char(r.last())) by {
            lemma_ws_suffix_nonws_at(t);
            assert(r.last() == t[t.len() - ws_suffix_len(t) - 1]);
        }
        lemma_ws_prefix_len_at(r, 0);
        lemma_ws_suffix_len_at(r, 0);
        assert(trim_spec(r) =~= r);
    }
}

/// When the whitespace prefix does not cover the whole string, the character
/// just past it is not whitespace.
proof fn lemma_ws_prefix_nonws_at(s: Seq<char>)
    requires
        ws_prefix_len(s) < s.len(),
    ensures
        !is_whitespace_char(s[ws_prefix_len(s) as int]),
    decreases s.len(),
{
    if s.len() > 0 && is_whitespace_char(s[0]) {
        lemma_ws_prefix_nonws_at(s.drop_first());
    }
}

/// When the whitespace suffix does not cover the whole string, the character
/// just before it is not whitespace.
proof fn lemma_ws_suffix_nonws_at(s: Seq<char>)
    requires
        ws_suffix_len(s) < s.len(),
    ensures
        !is_whitespace_char(s[s.len() - ws_suffix_len(s) - 1]),
    decreases s.len(),
{
    if s.len() > 0 && is_whitespace_char(s.last()) {
        lemma_ws_suffix_nonws_at(s.drop_last());
    }
}

} // verus!
