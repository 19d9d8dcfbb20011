//! The line-oriented text format a card set is loaded from: a versioned
//! header, optional card-count hint, property blocks setting recall policy,
//! and card blocks with one property line per text variant.

use vstd::prelude::*;
use crate::card::{CardSet, Flashcard, McCard, RecallSettings, RecallType};
use crate::text::{
    chars_to_string, str_eq, trim_spec, trim_start_spec, trimmed, trimmed_start,
};

verus! {

/// What went wrong while parsing a card set.
#[derive(Debug)]
pub enum Error {
    /// Parser failed.
    ParseError { line: u32 },
    /// Attempt to assign an incorrect type to a property.
    InvalidType { line: u32, expected: &'static str },
}

/// A three-part format version.
#[derive(Debug, PartialEq, Eq)]
pub struct Version {
    major: u32,
    minor: u32,
    patch: u32,
}

impl Version {
    /// The major part.
    pub closed spec fn spec_major(self) -> u32 {
        self.major
    }

    /// The minor part.
    pub closed spec fn spec_minor(self) -> u32 {
        self.minor
    }

    /// The patch part.
    pub closed spec fn spec_patch(self) -> u32 {
        self.patch
    }

    /// A version from its three parts.
    pub fn new(major: u32, minor: u32, patch: u32) -> (r: Version)
        ensures
            r.spec_major() == major,
            r.spec_minor() == minor,
            r.spec_patch() == patch,
    {
        Version { major, minor, patch }
    }
}

/// The index of the first newline of `s`, or its length when none occurs.
pub open spec fn nl_idx(s: Seq<char>) -> int
    decreases s.len(),
{
    if s.len() == 0 {
        0
    } else if s[0] == '\n' {
        0
    } else {
        1 + nl_idx(s.drop_first())
    }
}

/// The index of the first colon or newline of `s`, or its length when
/// neither occurs.
pub open spec fn key_idx(s: Seq<char>) -> int
    decreases s.len(),
{
    if s.len() == 0 {
        0
    } else if s[0] == ':' || s[0] == '\n' {
        0
    } else {
        1 + key_idx(s.drop_first())
    }
}

/// The number of leading space or tab characters of `s`.
pub open spec fn space_run(s: Seq<char>) -> int
    decreases s.len(),
{
    if s.len() > 0 && (s[0] == ' ' || s[0] == '\t') {
        1 + space_run(s.drop_first())
    } else {
        0
    }
}

/// Whether `c` is a decimal digit.
pub open spec fn is_digit_char(c: char) -> bool {
    48 <= c as u32 && c as u32 <= 57
}

/// The number of leading decimal digits of `s`.
pub open spec fn digit_run(s: Seq<char>) -> int
    decreases s.len(),
{
    if s.len() > 0 && is_digit_char(s[0]) {
        1 + digit_run(s.drop_first())
    } else {
        0
    }
}

/// The value of a sequence of decimal digits.
pub open spec fn dec_val(s: Seq<char>) -> int
    decreases s.len(),
{
    if s.len() == 0 {
        0
    } else {
        dec_val(s.drop_last()) * 10 + (s.last() as u32 - 48)
    }
}

/// A position below which no newline stands, at which the string ends or a
/// newline stands, is exactly `nl_idx`.
proof fn lemma_nl_idx_at(s: Seq<char>, k: int)
    requires
        0 <= k <= s.len(),
        forall|i: int| 0 <= i < k ==> s[i] != '\n',
        k == s.len() || s[k] == '\n',
    ensures
        nl_idx(s) == k,
    decreases k,
{
    if k == 0 {
    } else {
        lemma_nl_idx_at(s.drop_first(), k - 1);
    }
}

/// The mirror statement for `key_idx`.
proof fn lemma_key_idx_at(s: Seq<char>, k: int)
    requires
        0 <= k <= s.len(),
        forall|i: int| 0 <= i < k ==> s[i] != ':' && s[i] != '\n',
        k == s.len() || s[k] == ':' || s[k] == '\n',
    ensures
        key_idx(s) == k,
    decreases k,
{
    if k == 0 {
    } else {
        lemma_key_idx_at(s.drop_first(), k - 1);
    }
}

/// The mirror statement for `space_run`.
proof fn lemma_space_run_at(s: Seq<char>, k: int)
    requires
        0 <= k <= s.len(),
        forall|i: int| 0 <= i < k ==> s[i] == ' ' || s[i] == '\t',
        k == s.len() || (s[k] != ' ' && s[k] != '\t'),
    ensures
        space_run(s) == k,
    decreases k,
{
    if k == 0 {
    } else {
        lemma_space_run_at(s.drop_first(), k - 1);
    }
}

/// The mirror statement for `digit_run`.
proof fn lemma_digit_run_at(s: Seq<char>, k: int)
    requires
        0 <= k <= s.len(),
        forall|i: int| 0 <= i < k ==> is_digit_char(s[i]),
        k == s.len() || !is_digit_char(s[k]),
    ensures
        digit_run(s) == k,
    decreases k,
{
    if k == 0 {
    } else {
        lemma_digit_run_at(s.drop_first(), k - 1);
    }
}

/// The index of the first newline of `s`, or its length when none occurs.
fn find_nl(s: &str) -> (r: usize)
    ensures
        r == nl_idx(s@),
        0 <= r <= s@.len(),
        forall|i: int| 0 <= i < r ==> s@[i] != '\n',
        r < s@.len() ==> s@[r as int] == '\n',
{
    let n = s.unicode_len();
    let mut i: usize = 0;
    loop
        invariant
            0 <= i <= n,
            n == s@.len(),
            forall|j: int| 0 <= j < i ==> s@[j] != '\n',
        ensures
            0 <= i <= n,
            forall|j: int| 0 <= j < i ==> s@[j] != '\n',
            i == n || s@[i as int] == '\n',
        decreases n - i,
    {
        if i == n {
            break ;
        }
        if s.get_char(i) == '\n' {
            break ;
        }
        i = i + 1;
    }
    proof {
        lemma_nl_idx_at(s@, i as int);
    }
    i
}

/// The index of the first colon or newline of `s`, or its length.
fn find_key_end(s: &str) -> (r: usize)
    ensures
        r == key_idx(s@),
        0 <= r <= s@.len(),
        forall|i: int| 0 <= i < r ==> s@[i] != ':' && s@[i] != '\n',
        r < s@.len() ==> s@[r as int] == ':' || s@[r as int] == '\n',
{
    let n = s.unicode_len();
    let mut i: usize = 0;
    loop
        invariant
            0 <= i <= n,
            n == s@.len(),
            forall|j: int| 0 <= j < i ==> s@[j] != ':' && s@[j] != '\n',
        ensures
            0 <= i <= n,
            forall|j: int| 0 <= j < i ==> s@[j] != ':' && s@[j] != '\n',
            i == n || s@[i as int] == ':' || s@[i as int] == '\n',
        decreases n - i,
    {
        if i == n {
            break ;
        }
        let c = s.get_char(i);
        if c == ':' || c == '\n' {
            break ;
        }
        i = i + 1;
    }
    proof {
        lemma_key_idx_at(s@, i as int);
    }
    i
}

/// The number of leading space or tab characters of `s`.
fn count_spaces(s: &str) -> (r: usize)
    ensures
        r == space_run(s@),
        0 <= r <= s@.len(),
{
    let n = s.unicode_len();
    let mut i: usize = 0;
    loop
        invariant
            0 <= i <= n,
            n == s@.len(),
            forall|j: int| 0 <= j < i ==> s@[j] == ' ' || s@[j] == '\t',
        ensures
            0 <= i <= n,
            forall|j: int| 0 <= j < i ==> s@[j] == ' ' || s@[j] == '\t',
            i == n || (s@[i as int] != ' ' && s@[i as int] != '\t'),
        decreases n - i,
    {
        if i == n {
            break ;
        }
        let c = s.get_char(i);
        if c == ' ' || c == '\t' {
            i = i + 1;
        } else {
            break ;
        }
    }
    proof {
        lemma_space_run_at(s@, i as int);
    }
    i
}

/// The number of leading decimal digits of `s`.
fn count_digits(s: &str) -> (r: usize)
    ensures
        r == digit_run(s@),
        0 <= r <= s@.len(),
        forall|i: int| 0 <= i < r ==> is_digit_char(s@[i]),
{
    let n = s.unicode_len();
    let mut i: usize = 0;
    loop
        invariant
            0 <= i <= n,
            n == s@.len(),
            forall|j: int| 0 <= j < i ==> is_digit_char(s@[j]),
        ensures
            0 <= i <= n,
            forall|j: int| 0 <= j < i ==> is_digit_char(s@[j]),
            i == n || !is_digit_char(s@[i as int]),
        decreases n - i,
    {
        if i == n {
            break ;
        }
        let u = s.get_char(i) as u32;
        if 48 <= u && u <= 57 {
            i = i + 1;
        } else {
            break ;
        }
    }
    proof {
        lemma_digit_run_at(s@, i as int);
    }
    i
}

/// What parsing an unsigned number from the head of `s` yields: the value
/// of the leading digit run and the rest, or nothing when no digit leads
/// or the value exceeds `u32`.
pub open spec fn spec_parse_u32(s: Seq<char>) -> Option<(u32, Seq<char>)> {
    let d = digit_run(s);
    if d == 0 {
        None
    } else if dec_val(s.take(d)) > u32::MAX {
        None
    } else {
        Some((dec_val(s.take(d)) as u32, s.skip(d)))
    }
}

/// The value of a digit sequence is not negative.
proof fn lemma_dec_val_nonneg(s: Seq<char>)
    requires
        forall|i: int| 0 <= i < s.len() ==> is_digit_char(s[i]),
    ensures
        dec_val(s) >= 0,
    decreases s.len(),
{
    if s.len() > 0 {
        lemma_dec_val_nonneg(s.drop_last());
    }
}

/// Parses an unsigned number from the head of `s`.
fn parse_u32<'a>(s: &'a str) -> (r: Option<(u32, &'a str)>)
    ensures
        match r {
            Some((v, rest)) => spec_parse_u32(s@) == Some((v, rest@)),
            None => spec_parse_u32(s@) is None,
        },
{
    let n = s.unicode_len();
    let d = count_digits(s);
    if d == 0 {
        return None;
    }
    let mut acc: u64 = 0;
    let mut i: usize = 0;
    while i < d
        invariant
            0 <= i <= d <= n,
            n == s@.len(),
            forall|j: int| 0 <= j < d ==> is_digit_char(s@[j]),
            if dec_val(s@.take(i as int)) <= u32::MAX {
                acc == dec_val(s@.take(i as int))
            } else {
                acc > u32::MAX
            },
            acc <= 0xffff_ffff_ffff_ffffu64 / 16,
        decreases d - i,
    {
        let u = s.get_char(i) as u32;
        let ghost prefix = s@.take(i as int);
        proof {
            assert(s@.take(i + 1) =~= prefix.push(s@[i as int]));
            assert(s@.take(i + 1).drop_last() =~= prefix);
            assert(s@.take(i + 1).last() == s@[i as int]);
            assert(dec_val(s@.take(i + 1)) == dec_val(prefix) * 10 + (s@[i as int] as u32 - 48));
            lemma_dec_val_nonneg(prefix);
        }
        if acc <= 0xffff_ffffu64 {
            acc = acc * 10 + ((u - 48) as u64);
        }
        i = i + 1;
    }
    if acc > 0xffff_ffffu64 {
        None
    } else {
        let rest = s.substring_char(d, n);
        proof {
            assert(rest@ =~= s@.skip(d as int));
        }
        Some((acc as u32, rest))
    }
}

/// What parsing a dotted three-part version from the head of `s` yields.
pub open spec fn spec_parse_version(s: Seq<char>) -> Option<((u32, u32, u32), Seq<char>)> {
    match spec_parse_u32(s) {
        None => None,
        Some((major, r1)) => if r1.len() > 0 && r1[0] == '.' {
            match spec_parse_u32(r1.skip(1)) {
                None => None,
                Some((minor, r2)) => if r2.len() > 0 && r2[0] == '.' {
                    match spec_parse_u32(r2.skip(1)) {
                        None => None,
                        Some((patch, r3)) => Some(((major, minor, patch), r3)),
                    }
                } else {
                    None
                },
            }
        } else {
            None
        },
    }
}

impl Version {
    /// Parses a version of the form `major.minor.patch` from the head of
    /// `s`.
    fn parse<'a>(s: &'a str) -> (r: Option<(Version, &'a str)>)
        ensures
            match r {
                Some((v, rest)) => spec_parse_version(s@) == Some(
                    ((v.spec_major(), v.spec_minor(), v.spec_patch()), rest@),
                ),
                None => spec_parse_version(s@) is None,
            },
    {
        let (major, r1) = match parse_u32(s) {
            Some(p) => p,
            None => {
                return None;
            },
        };
        if r1.unicode_len() == 0 || r1.get_char(0) != '.' {
            return None;
        }
        let r1b = r1.substring_char(1, r1.unicode_len());
        proof {
            assert(r1b@ =~= r1@.skip(1));
        }
        let (minor, r2) = match parse_u32(r1b) {
            Some(p) => p,
            None => {
                return None;
            },
        };
        if r2.unicode_len() == 0 || r2.get_char(0) != '.' {
            return None;
        }
        let r2b = r2.substring_char(1, r2.unicode_len());
        proof {
            assert(r2b@ =~= r2@.skip(1));
        }
        let (patch, r3) = match parse_u32(r2b) {
            Some(p) => p,
            None => {
                return None;
            },
        };
        Some((Version { major, minor, patch }, r3))
    }
}

/// What the header line `EFC3 format <version>` yields: the version and
/// the input past the line's newline, or nothing when the line is not such
/// a header.
pub open spec fn spec_first_line(s: Seq<char>) -> Option<((u32, u32, u32), Seq<char>)> {
    if s.len() >= 12 && s.take(12) == "EFC3 format "@ {
        match spec_parse_version(s.skip(12)) {
            None => None,
            Some((v, r1)) => if r1.len() > 0 && r1[0] == '\n' {
                Some((v, r1.skip(1)))
            } else {
                None
            },
        }
    } else {
        None
    }
}

/// Parses the header line `EFC3 format <version>`.
pub fn first_line<'a>(s: &'a str) -> (r: Option<(Version, &'a str)>)
    ensures
        match r {
            Some((v, rest)) => spec_first_line(s@) == Some(
                ((v.spec_major(), v.spec_minor(), v.spec_patch()), rest@),
            ),
            None => spec_first_line(s@) is None,
        },
{
    proof {
        reveal_strlit("EFC3 format ");
    }
    let n = s.unicode_len();
    if n < 12 {
        return None;
    }
    let head = s.substring_char(0, 12);
    if !str_eq(head, "EFC3 format ") {
        proof {
            assert(head@ =~= s@.take(12));
        }
        return None;
    }
    proof {
        assert(head@ =~= s@.take(12));
    }
    let tail = s.substring_char(12, n);
    proof {
        assert(tail@ =~= s@.skip(12));
    }
    let (v, r1) = match Version::parse(tail) {
        Some(p) => p,
        None => {
            return None;
        },
    };
    if r1.unicode_len() == 0 || r1.get_char(0) != '\n' {
        return None;
    }
    let rest = r1.substring_char(1, r1.unicode_len());
    proof {
        assert(rest@ =~= r1@.skip(1));
    }
    Some((v, rest))
}

/// What consuming the optional card-count line `<n> terms` leaves: the
/// input past that line when it leads, the input unchanged otherwise.
pub open spec fn spec_second_line(s: Seq<char>) -> Seq<char> {
    match spec_parse_u32(s) {
        None => s,
        Some((n, r1)) => if r1.len() >= 7 && r1.take(7) == " terms\n"@ {
            r1.skip(7)
        } else {
            s
        },
    }
}

/// What a property line `name : value` at the head of `s` yields: the raw
/// name, the raw value with the spacing right after the colon removed, and
/// the input past the line's newline. Nothing when the name or value would
/// be empty, the colon is missing, or the line lacks a newline.
pub open spec fn spec_property_value(s: Seq<char>) -> Option<(Seq<char>, Seq<char>, Seq<char>)> {
    let i1 = key_idx(s);
    if i1 == 0 || i1 >= s.len() || s[i1] != ':' {
        None
    } else {
        let after = s.skip(i1 + 1);
        let sp = space_run(after);
        let vpart = after.skip(sp);
        let v1 = nl_idx(vpart);
        if v1 == 0 || v1 >= vpart.len() {
            None
        } else {
            Some((s.take(i1), vpart.take(v1), vpart.skip(v1 + 1)))
        }
    }
}

/// `key_idx` stays within the string.
proof fn lemma_key_idx_le(s: Seq<char>)
    ensures
        0 <= key_idx(s) <= s.len(),
    decreases s.len(),
{
    if s.len() > 0 && !(s[0] == ':' || s[0] == '\n') {
        lemma_key_idx_le(s.drop_first());
    }
}

/// `nl_idx` stays within the string.
proof fn lemma_nl_idx_le(s: Seq<char>)
    ensures
        0 <= nl_idx(s) <= s.len(),
    decreases s.len(),
{
    if s.len() > 0 && s[0] != '\n' {
        lemma_nl_idx_le(s.drop_first());
    }
}

/// `space_run` stays within the string.
proof fn lemma_space_run_le(s: Seq<char>)
    ensures
        0 <= space_run(s) <= s.len(),
    decreases s.len(),
{
    if s.len() > 0 && (s[0] == ' ' || s[0] == '\t') {
        lemma_space_run_le(s.drop_first());
    }
}

/// A parsed property line leaves a strictly shorter rest.
proof fn lemma_property_value_len(s: Seq<char>)
    ensures
        match spec_property_value(s) {
            Some((p, v, rest)) => rest.len() < s.len(),
            None => true,
        },
{
    lemma_key_idx_le(s);
    let i1 = key_idx(s);
    if !(i1 == 0 || i1 >= s.len() || s[i1] != ':') {
        let after = s.skip(i1 + 1);
        lemma_space_run_le(after);
        let sp = space_run(after);
        let vpart = after.skip(sp);
        lemma_nl_idx_le(vpart);
    }
}

/// Parses a property line `name : value` from the head of `s`.
pub fn property_value<'a>(s: &'a str) -> (r: Option<(&'a str, &'a str, &'a str)>)
    ensures
        match r {
            Some((p, v, rest)) => spec_property_value(s@) == Some((p@, v@, rest@)),
            None => spec_property_value(s@) is None,
        },
{
    let n = s.unicode_len();
    let i1 = find_key_end(s);
    if i1 == 0 || i1 == n {
        return None;
    }
    if s.get_char(i1) != ':' {
        return None;
    }
    let prop = s.substring_char(0, i1);
    let after = s.substring_char(i1 + 1, n);
    proof {
        assert(prop@ =~= s@.take(i1 as int));
        assert(after@ =~= s@.skip(i1 + 1));
    }
    let an = after.unicode_len();
    let sp = count_spaces(after);
    let vpart = after.substring_char(sp, an);
    proof {
        assert(vpart@ =~= after@.skip(sp as int));
    }
    let vn = vpart.unicode_len();
    let v1 = find_nl(vpart);
    if v1 == 0 || v1 == vn {
        return None;
    }
    let value = vpart.substring_char(0, v1);
    let rest = vpart.substring_char(v1 + 1, vn);
    proof {
        assert(value@ =~= vpart@.take(v1 as int));
        assert(rest@ =~= vpart@.skip(v1 + 1));
    }
    Some((prop, value, rest))
}

/// What unescaping backslash sequences yields: `\\` for a literal
/// backslash, `\n` for a newline, `\ ` for a space; any other escaped
/// character is dropped, and a trailing lone backslash stays.
pub open spec fn spec_unescape(s: Seq<char>) -> Seq<char>
    decreases s.len(),
{
    if s.len() == 0 {
        Seq::empty()
    } else if s[0] == '\\' {
        if s.len() == 1 {
            seq!['\\']
        } else {
            let c = s[1];
            let rest = spec_unescape(s.skip(2));
            if c == '\\' {
                seq!['\\'] + rest
            } else if c == 'n' {
                seq!['\n'] + rest
            } else if c == ' ' {
                seq![' '] + rest
            } else {
                rest
            }
        }
    } else {
        seq![s[0]] + spec_unescape(s.drop_first())
    }
}

/// Builds the unescaped form of `s`.
pub fn string_from_escaped(s: &str) -> (r: String)
    ensures
        r@ == spec_unescape(s@),
{
    let n = s.unicode_len();
    let mut out: Vec<char> = Vec::new();
    let mut i: usize = 0;
    proof {
        assert(s@.skip(0) =~= s@);
        assert(out@ + spec_unescape(s@) =~= spec_unescape(s@));
    }
    while i < n
        invariant
            0 <= i <= n,
            n == s@.len(),
            out@ + spec_unescape(s@.skip(i as int)) == spec_unescape(s@),
        decreases n - i,
    {
        let ghost i0 = i as int;
        let ghost tail = s@.skip(i0);
        let c = s.get_char(i);
        proof {
            assert(tail[0] == s@[i0]);
        }
        if c == '\\' {
            if i + 1 == n {
                out.push('\\');
                i = i + 1;
                proof {
                    assert(tail.len() == 1);
                    assert(s@.skip(i as int) =~= Seq::<char>::empty());
                    assert(spec_unescape(tail) =~= seq!['\\']);
                    assert(out@ + spec_unescape(s@.skip(i as int)) =~= spec_unescape(s@));
                }
            } else {
                let c2 = s.get_char(i + 1);
                proof {
                    assert(tail[1] == s@[i0 + 1]);
                    assert(tail.skip(2) =~= s@.skip(i0 + 2));
                }
                if c2 == '\\' {
                    out.push('\\');
                } else if c2 == 'n' {
                    out.push('\n');
                } else if c2 == ' ' {
                    out.push(' ');
                }
                i = i + 2;
                proof {
                    assert(out@ + spec_unescape(s@.skip(i as int)) =~= spec_unescape(s@));
                }
            }
        } else {
            out.push(c);
            i = i + 1;
            proof {
                assert(tail.drop_first() =~= s@.skip(i as int));
                assert(out@ + spec_unescape(s@.skip(i as int)) =~= spec_unescape(s@));
            }
        }
    }
    proof {
        assert(s@.skip(n as int) =~= Seq::<char>::empty());
        assert(out@ =~= spec_unescape(s@));
    }
    chars_to_string(&out)
}

/// What applying the property lines at the head of `s` to settings `rs`
/// yields: `recall` sets the recall type, `check caps` the capitalization
/// rule, unknown properties are ignored, and the first non-property line
/// ends the run. Nothing when a recognized property carries a value of the
/// wrong type.
pub open spec fn spec_update(rs: RecallSettings, s: Seq<char>) -> Option<
    (RecallSettings, Seq<char>),
>
    decreases s.len(),
    via spec_update_dec
{
    match spec_property_value(s) {
        None => Some((rs, s)),
        Some((p, v, rest)) => {
            let key = trim_spec(p);
            let value = trim_spec(v);
            if key == "recall"@ {
                match RecallType::spec_from_str(value) {
                    Some(t) => spec_update(
                        RecallSettings { typ: t, check_caps: rs.check_caps },
                        rest,
                    ),
                    None => None,
                }
            } else if key == "check caps"@ {
                if value == "true"@ {
                    spec_update(RecallSettings { typ: rs.typ, check_caps: true }, rest)
                } else if value == "false"@ {
                    spec_update(RecallSettings { typ: rs.typ, check_caps: false }, rest)
                } else {
                    None
                }
            } else {
                spec_update(rs, rest)
            }
        },
    }
}

#[via_fn]
proof fn spec_update_dec(rs: RecallSettings, s: Seq<char>) {
    lemma_property_value_len(s);
}

impl RecallSettings {
    /// Applies the property lines at the head of `s` to these settings,
    /// numbering lines from `line` for error reporting; returns the input
    /// past the last property line and the next line number.
    pub(crate) fn update_at<'a>(&mut self, s: &'a str, line: u32) -> (r: Result<(&'a str, u32), Error>)
        ensures
            match r {
                Ok((rest, _)) => spec_update(*old(self), s@) == Some((*final(self), rest@)),
                Err(e) => spec_update(*old(self), s@) is None && e is InvalidType,
            },
    {
        proof {
            reveal_strlit("recall");
            reveal_strlit("check caps");
            reveal_strlit("true");
            reveal_strlit("false");
        }
        let mut cur = s;
        let mut ln = line;
        loop
            invariant
                spec_update(*old(self), s@) == spec_update(*self, cur@),
            ensures
                spec_update(*old(self), s@) == spec_update(*self, cur@),
                spec_property_value(cur@) is None,
            decreases cur@.len(),
        {
            let ghost pre_self = *self;
            let ghost pre_cur = cur@;
            match property_value(cur) {
                None => {
                    break ;
                },
                Some((p, v, rest)) => {
                    proof {
                        lemma_property_value_len(pre_cur);
                    }
                    let key = trimmed(p);
                    let value = trimmed(v);
                    if str_eq(key, "recall") {
                        match RecallType::from_str(value) {
                            Some(t) => {
                                self.typ = t;
                            },
                            None => {
                                return Err(
                                    Error::InvalidType {
                                        line: ln,
                                        expected: "{ never | multiple choice | text}",
                                    },
                                );
                            },
                        }
                    } else if str_eq(key, "check caps") {
                        if str_eq(value, "true") {
                            self.check_caps = true;
                        } else if str_eq(value, "false") {
                            self.check_caps = false;
                        } else {
                            return Err(
                                Error::InvalidType { line: ln, expected: "{ true | false }" },
                            );
                        }
                    }
                    cur = rest;
                    ln = if ln < 0xffff_ffffu32 {
                        ln + 1
                    } else {
                        ln
                    };
                    proof {
                        assert(spec_update(pre_self, pre_cur) == spec_update(*self, cur@));
                    }
                },
            }
        }
        Ok((cur, ln))
    }

    /// Applies the property lines at the head of `s` to these settings,
    /// numbering lines from one.
    pub fn update<'a>(&mut self, s: &'a str) -> (r: Result<&'a str, Error>)
        ensures
            match r {
                Ok(rest) => spec_update(*old(self), s@) == Some((*final(self), rest@)),
                Err(e) => spec_update(*old(self), s@) is None && e is InvalidType,
            },
    {
        match self.update_at(s, 1) {
            Ok((rest, _)) => Ok(rest),
            Err(e) => Err(e),
        }
    }
}

/// What parsing flashcard property lines at the head of `s` yields, with
/// `front` and `back` the variants gathered so far: each `F` line adds an
/// unescaped front variant, each `B` line a back variant, other properties
/// are ignored, and the first non-property line ends the card.
pub open spec fn spec_card_parse(
    front: Seq<Seq<char>>,
    back: Seq<Seq<char>>,
    s: Seq<char>,
) -> (Seq<Seq<char>>, Seq<Seq<char>>, Seq<char>)
    decreases s.len(),
    via spec_card_parse_dec
{
    match spec_property_value(s) {
        None => (front, back, s),
        Some((p, v, rest)) => {
            let key = trim_spec(p);
            let tv = spec_unescape(trim_start_spec(v));
            if key == "F"@ {
                spec_card_parse(front.push(tv), back, rest)
            } else if key == "B"@ {
                spec_card_parse(front, back.push(tv), rest)
            } else {
                spec_card_parse(front, back, rest)
            }
        },
    }
}

#[via_fn]
proof fn spec_card_parse_dec(front: Seq<Seq<char>>, back: Seq<Seq<char>>, s: Seq<char>) {
    lemma_property_value_len(s);
}

impl Flashcard {
    /// Parses the flashcard whose property lines lead `s`: `F` lines give
    /// front text, `B` lines back text.
    pub fn parse<'a>(s: &'a str) -> (r: (Flashcard, &'a str))
        ensures
            ({
                let (f, b, rest) = spec_card_parse(Seq::empty(), Seq::empty(), s@);
                r.0.front@ == f && r.0.back@ == b && r.1@ == rest
            }),
    {
        proof {
            reveal_strlit("F");
            reveal_strlit("B");
        }
        let mut card = Flashcard::blank();
        let mut cur = s;
        loop
            invariant
                spec_card_parse(Seq::empty(), Seq::empty(), s@) == spec_card_parse(
                    card.front@,
                    card.back@,
                    cur@,
                ),
            ensures
                spec_card_parse(Seq::empty(), Seq::empty(), s@) == spec_card_parse(
                    card.front@,
                    card.back@,
                    cur@,
                ),
                spec_property_value(cur@) is None,
            decreases cur@.len(),
        {
            let ghost pre_front = card.front@;
            let ghost pre_back = card.back@;
            let ghost pre_cur = cur@;
            match property_value(cur) {
                None => {
                    break ;
                },
                Some((p, v, rest)) => {
                    proof {
                        lemma_property_value_len(pre_cur);
                    }
                    let key = trimmed(p);
                    let tv = string_from_escaped(trimmed_start(v));
                    if str_eq(key, "F") {
                        card.front.push_text(tv.as_str());
                    } else if str_eq(key, "B") {
                        card.back.push_text(tv.as_str());
                    }
                    cur = rest;
                    proof {
                        assert(spec_card_parse(pre_front, pre_back, pre_cur) == spec_card_parse(
                            card.front@,
                            card.back@,
                            cur@,
                        ));
                    }
                },
            }
        }
        (card, cur)
    }
}

/// What parsing multiple-choice property lines at the head of `s` yields,
/// with `question`, `answer` and `decoys` the texts gathered so far: `Q`
/// lines add question variants, `A` lines answer variants, `D` lines
/// decoys, all unescaped; other properties are ignored, and the first
/// non-property line ends the card.
pub open spec fn spec_mc_parse(
    question: Seq<Seq<char>>,
    answer: Seq<Seq<char>>,
    decoys: Seq<Seq<char>>,
    s: Seq<char>,
) -> (Seq<Seq<char>>, Seq<Seq<char>>, Seq<Seq<char>>, Seq<char>)
    decreases s.len(),
    via spec_mc_parse_dec
{
    match spec_property_value(s) {
        None => (question, answer, decoys, s),
        Some((p, v, rest)) => {
            let key = trim_spec(p);
            let tv = spec_unescape(trim_start_spec(v));
            if key == "Q"@ {
                spec_mc_parse(question.push(tv), answer, decoys, rest)
            } else if key == "A"@ {
                spec_mc_parse(question, answer.push(tv), decoys, rest)
            } else if key == "D"@ {
                spec_mc_parse(question, answer, decoys.push(tv), rest)
            } else {
                spec_mc_parse(question, answer, decoys, rest)
            }
        },
    }
}

#[via_fn]
proof fn spec_mc_parse_dec(
    question: Seq<Seq<char>>,
    answer: Seq<Seq<char>>,
    decoys: Seq<Seq<char>>,
    s: Seq<char>,
) {
    lemma_property_value_len(s);
}

impl McCard {
    /// Parses the multiple-choice card whose property lines lead `s`: `Q`
    /// lines give question text, `A` lines answer text, `D` lines decoys.
    pub fn parse<'a>(s: &'a str) -> (r: (McCard, &'a str))
        ensures
            ({
                let (q, a, d, rest) = spec_mc_parse(
                    Seq::empty(),
                    Seq::empty(),
                    Seq::empty(),
                    s@,
                );
                r.0.question@ == q && r.0.answer@ == a && r.0.decoys@ == d && r.1@ == rest
            }),
    {
        proof {
            reveal_strlit("Q");
            reveal_strlit("A");
            reveal_strlit("D");
        }
        let mut card = McCard::blank();
        let mut cur = s;
        loop
            invariant
                spec_mc_parse(Seq::empty(), Seq::empty(), Seq::empty(), s@) == spec_mc_parse(
                    card.question@,
                    card.answer@,
                    card.decoys@,
                    cur@,
                ),
            ensures
                spec_mc_parse(Seq::empty(), Seq::empty(), Seq::empty(), s@) == spec_mc_parse(
                    card.question@,
                    card.answer@,
                    card.decoys@,
                    cur@,
                ),
                spec_property_value(cur@) is None,
            decreases cur@.len(),
        {
            let ghost pre_q = card.question@;
            let ghost pre_a = card.answer@;
            let ghost pre_d = card.decoys@;
            let ghost pre_cur = cur@;
            match property_value(cur) {
                None => {
                    break ;
                },
                Some((p, v, rest)) => {
                    proof {
                        lemma_property_value_len(pre_cur);
                    }
                    let key = trimmed(p);
                    let tv = string_from_escaped(trimmed_start(v));
                    if str_eq(key, "Q") {
                        card.question.push_text(tv.as_str());
                    } else if str_eq(key, "A") {
                        card.answer.push_text(tv.as_str());
                    } else if str_eq(key, "D") {
                        card.decoys.push_text(tv.as_str());
                    }
                    cur = rest;
                    proof {
                        assert(spec_mc_parse(pre_q, pre_a, pre_d, pre_cur) == spec_mc_parse(
                            card.question@,
                            card.answer@,
                            card.decoys@,
                            cur@,
                        ));
                    }
                },
            }
        }
        (card, cur)
    }
}

/// The gathered text of one parsed flashcard.
#[verifier::ext_equal]
pub struct FlashcardModel {
    pub front: Seq<Seq<char>>,
    pub back: Seq<Seq<char>>,
}

/// The gathered text of one parsed multiple-choice card.
#[verifier::ext_equal]
pub struct McModel {
    pub question: Seq<Seq<char>>,
    pub answer: Seq<Seq<char>>,
    pub decoys: Seq<Seq<char>>,
}

/// The abstract content of a parsed card set.
#[verifier::ext_equal]
pub struct SetModel {
    pub recall_front: RecallSettings,
    pub recall_back: RecallSettings,
    pub recall_mc: RecallSettings,
    pub flashcards: Seq<FlashcardModel>,
    pub mc_cards: Seq<McModel>,
}

/// The abstract content of a flashcard.
pub open spec fn flashcard_model(c: Flashcard) -> FlashcardModel {
    FlashcardModel { front: c.front@, back: c.back@ }
}

/// The abstract content of a multiple-choice card.
pub open spec fn mc_model(c: McCard) -> McModel {
    McModel { question: c.question@, answer: c.answer@, decoys: c.decoys@ }
}

/// The abstract content of a card set.
pub open spec fn set_model(s: CardSet) -> SetModel {
    SetModel {
        recall_front: s.recall_front,
        recall_back: s.recall_back,
        recall_mc: s.recall_mc,
        flashcards: s.flashcards@.map_values(|c: Flashcard| flashcard_model(c)),
        mc_cards: s.mc_cards@.map_values(|c: McCard| mc_model(c)),
    }
}

/// The content of an empty set with default recall settings.
pub open spec fn default_model() -> SetModel {
    SetModel {
        recall_front: RecallSettings { typ: RecallType::Mc, check_caps: false },
        recall_back: RecallSettings { typ: RecallType::Mc, check_caps: false },
        recall_mc: RecallSettings { typ: RecallType::Mc, check_caps: false },
        flashcards: Seq::empty(),
        mc_cards: Seq::empty(),
    }
}

/// The settings run leaves at most as much input behind as it was given.
proof fn lemma_spec_update_len(rs: RecallSettings, s: Seq<char>)
    ensures
        match spec_update(rs, s) {
            Some((r, rest)) => rest.len() <= s.len(),
            None => true,
        },
    decreases s.len(),
{
    lemma_property_value_len(s);
    match spec_property_value(s) {
        None => {},
        Some((p, v, rest)) => {
            let key = trim_spec(p);
            let value = trim_spec(v);
            if key == "recall"@ {
                match RecallType::spec_from_str(value) {
                    Some(t) => {
                        lemma_spec_update_len(
                            RecallSettings { typ: t, check_caps: rs.check_caps },
                            rest,
                        );
                    },
                    None => {},
                }
            } else if key == "check caps"@ {
                if value == "true"@ {
                    lemma_spec_update_len(RecallSettings { typ: rs.typ, check_caps: true }, rest);
                } else if value == "false"@ {
                    lemma_spec_update_len(RecallSettings { typ: rs.typ, check_caps: false }, rest);
                }
            } else {
                lemma_spec_update_len(rs, rest);
            }
        },
    }
}

/// A flashcard block leaves at most as much input behind as it was given.
proof fn lemma_spec_card_parse_len(front: Seq<Seq<char>>, back: Seq<Seq<char>>, s: Seq<char>)
    ensures
        spec_card_parse(front, back, s).2.len() <= s.len(),
    decreases s.len(),
{
    lemma_property_value_len(s);
    match spec_property_value(s) {
        None => {},
        Some((p, v, rest)) => {
            let key = trim_spec(p);
            let tv = spec_unescape(trim_start_spec(v));
            if key == "F"@ {
                lemma_spec_card_parse_len(front.push(tv), back, rest);
            } else if key == "B"@ {
                lemma_spec_card_parse_len(front, back.push(tv), rest);
            } else {
                lemma_spec_card_parse_len(front, back, rest);
            }
        },
    }
}

/// A multiple-choice block leaves at most as much input behind as it was
/// given.
proof fn lemma_spec_mc_parse_len(
    question: Seq<Seq<char>>,
    answer: Seq<Seq<char>>,
    decoys: Seq<Seq<char>>,
    s: Seq<char>,
)
    ensures
        spec_mc_parse(question, answer, decoys, s).3.len() <= s.len(),
    decreases s.len(),
{
    lemma_property_value_len(s);
    match spec_property_value(s) {
        None => {},
        Some((p, v, rest)) => {
            let key = trim_spec(p);
            let tv = spec_unescape(trim_start_spec(v));
            if key == "Q"@ {
                lemma_spec_mc_parse_len(question.push(tv), answer, decoys, rest);
            } else if key == "A"@ {
                lemma_spec_mc_parse_len(question, answer.push(tv), decoys, rest);
            } else if key == "D"@ {
                lemma_spec_mc_parse_len(question, answer, decoys.push(tv), rest);
            } else {
                lemma_spec_mc_parse_len(question, answer, decoys, rest);
            }
        },
    }
}

/// What the block body of the format yields, starting from content `m`:
/// each line is taken whole; a `@[card front]`, `@[card back]` or `@[mc]`
/// header applies the following property lines to the matching recall
/// settings, a `[card]` or `[mc]` header parses a card from them, and any
/// other line is ignored. Nothing when a settings block carries a property
/// value of the wrong type.
pub open spec fn spec_body(m: SetModel, s: Seq<char>) -> Option<(SetModel, Seq<char>)>
    decreases s.len(),
    via spec_body_dec
{
    if s.len() == 0 {
        Some((m, s))
    } else {
        let i1 = nl_idx(s);
        let line = s.take(i1);
        let rest = if i1 < s.len() {
            s.skip(i1 + 1)
        } else {
            s.skip(i1)
        };
        let key = trim_spec(line);
        if key == "@[card front]"@ {
            match spec_update(m.recall_front, rest) {
                Some((rs, r2)) => spec_body(
                    SetModel {
                        recall_front: rs,
                        recall_back: m.recall_back,
                        recall_mc: m.recall_mc,
                        flashcards: m.flashcards,
                        mc_cards: m.mc_cards,
                    },
                    r2,
                ),
                None => None,
            }
        } else if key == "@[card back]"@ {
            match spec_update(m.recall_back, rest) {
                Some((rs, r2)) => spec_body(
                    SetModel {
                        recall_front: m.recall_front,
                        recall_back: rs,
                        recall_mc: m.recall_mc,
                        flashcards: m.flashcards,
                        mc_cards: m.mc_cards,
                    },
                    r2,
                ),
                None => None,
            }
        } else if key == "@[mc]"@ {
            match spec_update(m.recall_mc, rest) {
                Some((rs, r2)) => spec_body(
                    SetModel {
                        recall_front: m.recall_front,
                        recall_back: m.recall_back,
                        recall_mc: rs,
                        flashcards: m.flashcards,
                        mc_cards: m.mc_cards,
                    },
                    r2,
                ),
                None => None,
            }
        } else if key == "[card]"@ {
            let fbr = spec_card_parse(Seq::empty(), Seq::empty(), rest);
            spec_body(
                SetModel {
                    recall_front: m.recall_front,
                    recall_back: m.recall_back,
                    recall_mc: m.recall_mc,
                    flashcards: m.flashcards.push(
                        FlashcardModel { front: fbr.0, back: fbr.1 },
                    ),
                    mc_cards: m.mc_cards,
                },
                fbr.2,
            )
        } else if key == "[mc]"@ {
            let qad = spec_mc_parse(Seq::empty(), Seq::empty(), Seq::empty(), rest);
            spec_body(
                SetModel {
                    recall_front: m.recall_front,
                    recall_back: m.recall_back,
                    recall_mc: m.recall_mc,
                    flashcards: m.flashcards,
                    mc_cards: m.mc_cards.push(
                        McModel { question: qad.0, answer: qad.1, decoys: qad.2 },
                    ),
                },
                qad.3,
            )
        } else {
            spec_body(m, rest)
        }
    }
}

#[via_fn]
proof fn spec_body_dec(m: SetModel, s: Seq<char>) {
    if s.len() > 0 {
        lemma_nl_idx_le(s);
        let i1 = nl_idx(s);
        let rest = if i1 < s.len() {
            s.skip(i1 + 1)
        } else {
            s.skip(i1)
        };
        lemma_spec_update_len(m.recall_front, rest);
        lemma_spec_update_len(m.recall_back, rest);
        lemma_spec_update_len(m.recall_mc, rest);
        lemma_spec_card_parse_len(Seq::empty(), Seq::empty(), rest);
        lemma_spec_mc_parse_len(Seq::empty(), Seq::empty(), Seq::empty(), rest);
    }
}

/// The number of newlines among the first `upto` characters of `s`.
fn count_nl_prefix(s: &str, upto: usize) -> (r: usize)
    requires
        upto <= s@.len(),
    ensures
        r <= upto,
{
    let mut i: usize = 0;
    let mut count: usize = 0;
    while i < upto
        invariant
            0 <= i <= upto <= s@.len(),
            count <= i,
        decreases upto - i,
    {
        if s.get_char(i) == '\n' {
            count = count + 1;
        }
        i = i + 1;
    }
    count
}

/// Adds a count of consumed lines to a line number, capping rather than
/// wrapping.
fn advance_line(ln: u32, lines: usize) -> (r: u32) {
    let add: u32 = if lines > 0xffff_ffffusize {
        0xffff_ffffu32
    } else {
        lines as u32
    };
    if ln <= 0xffff_ffffu32 - add {
        ln + add
    } else {
        0xffff_ffffu32
    }
}

/// Parses the block body of the format, numbering lines from `line` for
/// error reporting; returns the set described and what input remains.
fn body<'a>(s: &'a str, line: u32) -> (r: Result<(CardSet, &'a str), Error>)
    ensures
        match r {
            Ok((set, rest)) => spec_body(default_model(), s@) == Some((set_model(set), rest@)),
            Err(e) => spec_body(default_model(), s@) is None && e is InvalidType,
        },
{
    proof {
        reveal_strlit("@[card front]");
        reveal_strlit("@[card back]");
        reveal_strlit("@[mc]");
        reveal_strlit("[card]");
        reveal_strlit("[mc]");
    }
    let mut set = CardSet::default();
    let mut cur = s;
    let mut ln = line;
    proof {
        assert(set.flashcards@ =~= Seq::<Flashcard>::empty());
        assert(set.mc_cards@ =~= Seq::<McCard>::empty());
        assert(set_model(set).flashcards =~= default_model().flashcards);
        assert(set_model(set).mc_cards =~= default_model().mc_cards);
        assert(set_model(set) =~= default_model());
    }
    loop
        invariant
            spec_body(default_model(), s@) == spec_body(set_model(set), cur@),
        ensures
            spec_body(default_model(), s@) == spec_body(set_model(set), cur@),
            cur@.len() == 0,
        decreases cur@.len(),
    {
        let n = cur.unicode_len();
        if n == 0 {
            break ;
        }
        let ghost pre_model = set_model(set);
        let ghost pre_cur = cur@;
        let i1 = find_nl(cur);
        let line_s = cur.substring_char(0, i1);
        let rest = if i1 == n {
            cur.substring_char(n, n)
        } else {
            cur.substring_char(i1 + 1, n)
        };
        proof {
            assert(line_s@ =~= pre_cur.take(i1 as int));
            if i1 == n {
                assert(rest@ =~= pre_cur.skip(i1 as int));
            } else {
                assert(rest@ =~= pre_cur.skip(i1 + 1));
            }
        }
        let key = trimmed(line_s);
        ln = advance_line(ln, 1);
        if str_eq(key, "@[card front]") {
            match set.recall_front.update_at(rest, ln) {
                Ok((r2, ln2)) => {
                    cur = r2;
                    ln = ln2;
                    proof {
                        lemma_spec_update_len(pre_model.recall_front, rest@);
                        assert(set_model(set) =~= (SetModel {
                            recall_front: set.recall_front,
                            recall_back: pre_model.recall_back,
                            recall_mc: pre_model.recall_mc,
                            flashcards: pre_model.flashcards,
                            mc_cards: pre_model.mc_cards,
                        }));
                        assert(spec_body(pre_model, pre_cur) == spec_body(set_model(set), cur@));
                    }
                },
                Err(e) => {
                    return Err(e);
                },
            }
        } else if str_eq(key, "@[card back]") {
            match set.recall_back.update_at(rest, ln) {
                Ok((r2, ln2)) => {
                    cur = r2;
                    ln = ln2;
                    proof {
                        lemma_spec_update_len(pre_model.recall_back, rest@);
                        assert(set_model(set) =~= (SetModel {
                            recall_front: pre_model.recall_front,
                            recall_back: set.recall_back,
                            recall_mc: pre_model.recall_mc,
                            flashcards: pre_model.flashcards,
                            mc_cards: pre_model.mc_cards,
                        }));
                        assert(spec_body(pre_model, pre_cur) == spec_body(set_model(set), cur@));
                    }
                },
                Err(e) => {
                    return Err(e);
                },
            }
        } else if str_eq(key, "@[mc]") {
            match set.recall_mc.update_at(rest, ln) {
                Ok((r2, ln2)) => {
                    cur = r2;
                    ln = ln2;
                    proof {
                        lemma_spec_update_len(pre_model.recall_mc, rest@);
                        assert(set_model(set) =~= (SetModel {
                            recall_front: pre_model.recall_front,
                            recall_back: pre_model.recall_back,
                            recall_mc: set.recall_mc,
                            flashcards: pre_model.flashcards,
                            mc_cards: pre_model.mc_cards,
                        }));
                        assert(spec_body(pre_model, pre_cur) == spec_body(set_model(set), cur@));
                    }
                },
                Err(e) => {
                    return Err(e);
                },
            }
        } else if str_eq(key, "[card]") {
            let (c, r2) = Flashcard::parse(rest);
            proof {
                lemma_spec_card_parse_len(Seq::empty(), Seq::empty(), rest@);
            }
            let used = rest.unicode_len() - r2.unicode_len();
            let nl_used = count_nl_prefix(rest, used);
            ln = advance_line(ln, nl_used);
            let ghost prev_cards = set.flashcards@;
            set.flashcards.push(c);
            cur = r2;
            proof {
                let f = |c2: Flashcard| flashcard_model(c2);
                assert(set.flashcards@ =~= prev_cards.push(c));
                assert(set.flashcards@.map_values(f) =~= prev_cards.map_values(f).push(
                    flashcard_model(c),
                ));
                let fbr = spec_card_parse(Seq::empty(), Seq::empty(), rest@);
                assert(flashcard_model(c) =~= (FlashcardModel { front: fbr.0, back: fbr.1 }));
                assert(set_model(set) =~= (SetModel {
                    recall_front: pre_model.recall_front,
                    recall_back: pre_model.recall_back,
                    recall_mc: pre_model.recall_mc,
                    flashcards: pre_model.flashcards.push(
                        FlashcardModel { front: fbr.0, back: fbr.1 },
                    ),
                    mc_cards: pre_model.mc_cards,
                }));
                assert(spec_body(pre_model, pre_cur) == spec_body(set_model(set), cur@));
            }
        } else if str_eq(key, "[mc]") {
            let (c, r2) = McCard::parse(rest);
            proof {
                lemma_spec_mc_parse_len(Seq::empty(), Seq::empty(), Seq::empty(), rest@);
            }
            let used = rest.unicode_len() - r2.unicode_len();
            let nl_used = count_nl_prefix(rest, used);
            ln = advance_line(ln, nl_used);
            let ghost prev_cards = set.mc_cards@;
            set.mc_cards.push(c);
            cur = r2;
            proof {
                let f = |c2: McCard| mc_model(c2);
                assert(set.mc_cards@ =~= prev_cards.push(c));
                assert(set.mc_cards@.map_values(f) =~= prev_cards.map_values(f).push(mc_model(c)));
                let qad = spec_mc_parse(Seq::empty(), Seq::empty(), Seq::empty(), rest@);
                assert(mc_model(c) =~= (McModel { question: qad.0, answer: qad.1, decoys: qad.2 }));
                assert(set_model(set) =~= (SetModel {
                    recall_front: pre_model.recall_front,
                    recall_back: pre_model.recall_back,
                    recall_mc: pre_model.recall_mc,
                    flashcards: pre_model.flashcards,
                    mc_cards: pre_model.mc_cards.push(
                        McModel { question: qad.0, answer: qad.1, decoys: qad.2 },
                    ),
                }));
                assert(spec_body(pre_model, pre_cur) == spec_body(set_model(set), cur@));
            }
        } else {
            cur = rest;
            proof {
                assert(spec_body(pre_model, pre_cur) == spec_body(set_model(set), cur@));
            }
        }
    }
    Ok((set, cur))
}

/// What parsing a whole document yields: a newline is appended, the
/// optional `EFC3 format <version>` header and the optional `<n> terms`
/// line are consumed, and the block body gives the set's content.
pub open spec fn spec_parse(s: Seq<char>) -> Option<(SetModel, Option<(u32, u32, u32)>)> {
    let t = s.push('\n');
    let vr: (Option<(u32, u32, u32)>, Seq<char>) = match spec_first_line(t) {
        Some((ver, r)) => (Some(ver), r),
        None => (None, t),
    };
    let s2 = spec_second_line(vr.1);
    match spec_body(default_model(), s2) {
        Some((m, _)) => Some((m, vr.0)),
        None => None,
    }
}

impl CardSet {
    /// Constructs a card set from the text of a document in the format,
    /// together with the format version its header declares, if any.
    pub fn parse_str(s: &str) -> (r: Result<(CardSet, Option<Version>), Error>)
        ensures
            match r {
                Ok((set, v)) => spec_parse(s@) == Some(
                    (
                        set_model(set),
                        match v {
                            Some(ver) => Some(
                                (ver.spec_major(), ver.spec_minor(), ver.spec_patch()),
                            ),
                            None => None,
                        },
                    ),
                ),
                Err(e) => spec_parse(s@) is None && e is InvalidType,
            },
    {
        proof {
            reveal_strlit("\n");
        }
        let mut buf = s.to_owned();
        buf.append("\n");
        proof {
            assert(buf@ =~= s@.push('\n'));
        }
        let bs = buf.as_str();
        let (v, s1) = match first_line(bs) {
            Some((ver, r)) => (Some(ver), r),
            None => (None, bs),
        };
        let s2 = second_line(s1);
        let ln0: u32 = if v.is_some() {
            if s2.unicode_len() < s1.unicode_len() {
                3
            } else {
                2
            }
        } else {
            if s2.unicode_len() < s1.unicode_len() {
                2
            } else {
                1
            }
        };
        match body(s2, ln0) {
            Ok((set, _rest)) => Ok((set, v)),
            Err(e) => Err(e),
        }
    }
}

/// Consumes the optional card-count line `<n> terms`.
fn second_line<'a>(s: &'a str) -> (r: &'a str)
    ensures
        r@ == spec_second_line(s@),
{
    proof {
        reveal_strlit(" terms\n");
    }
    let (_n, r1) = match parse_u32(s) {
        Some(p) => p,
        None => {
            return s;
        },
    };
    let m = r1.unicode_len();
    if m < 7 {
        return s;
    }
    let head = r1.substring_char(0, 7);
    proof {
        assert(head@ =~= r1@.take(7));
    }
    if !str_eq(head, " terms\n") {
        return s;
    }
    let rest = r1.substring_char(7, m);
    proof {
        assert(rest@ =~= r1@.skip(7));
    }
    rest
}

} // verus!
