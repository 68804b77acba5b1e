//! What the database stores of a crate's version: the fields of its
//! version number.

use vstd::prelude::*;
use vstd::string::StrSliceExecFns;
use vstd::string::StringExecFns;

verus! {

/// Why a database operation gave no result.
#[derive(Debug, Clone, PartialEq, Eq)]
pub enum Error {
    /// A node lacks a field: the node's id and the field's name
    FieldNotFound(i64, String),
    /// The text is no version number
    InvalidSemver(String),
    /// The database holds no crate of the name
    CrateNotFound(String),
}

/// A version number as a lenient reading of a text gives it.
pub struct ParsedVersion {
    pub major: u64,
    pub minor: u64,
    pub patch: u64,
    pub build: String,
    pub pre: String,
}

/// The fields of a version number as the database stores them.
#[derive(Debug, Clone, PartialEq, Eq)]
pub struct SemverFields {
    pub major: u32,
    pub minor: u32,
    pub patch: u32,
    pub build: String,
    pub pre: String,
}

/// What a `SemverFields` is, mathematically.
pub struct SemverView {
    pub major: u32,
    pub minor: u32,
    pub patch: u32,
    pub build: Seq<char>,
    pub pre: Seq<char>,
}

impl View for SemverFields {
    type V = SemverView;

    open spec fn view(&self) -> SemverView {
        SemverView {
            major: self.major,
            minor: self.minor,
            patch: self.patch,
            build: self.build@,
            pre: self.pre@,
        }
    }
}

/// The version number that a lenient reading of the text gives, as (major,
/// minor, patch, build, pre-release), or `None` where the text cannot be
/// read as a version number even leniently.
pub uninterp spec fn lenient_version(text: Seq<char>) -> Option<
    (u64, u64, u64, Seq<char>, Seq<char>),
>;

/// `lenient_semver::parse`: the version number that a lenient reading of the
/// text gives.
#[verifier::external_body]
fn lenient_parse(text: &str) -> (r: Option<ParsedVersion>)
    ensures
        match r {
            Some(v) => lenient_version(text@) == Some((v.major, v.minor, v.patch, v.build@, v.pre@)),
            None => lenient_version(text@).is_none(),
        },
{
    match lenient_semver::parse(text) {
        Ok(v) => Some(
            ParsedVersion {
                major: v.major,
                minor: v.minor,
                patch: v.patch,
                build: v.build.as_str().to_string(),
                pre: v.pre.as_str().to_string(),
            },
        ),
        Err(_) => None,
    }
}

/// The number that the text is the decimal form of, as `str::parse` reads
/// it, or `None` where the text is no such form or the number is too large.
pub uninterp spec fn parsed_u64(text: Seq<char>) -> Option<u64>;

/// `str::parse::<u64>`: the number that the text is the decimal form of.
#[verifier::external_body]
fn parse_u64(text: &str) -> (r: Option<u64>)
    ensures
        r == parsed_u64(text@),
{
    text.parse::<u64>().ok()
}

/// The position of the first `.` in the text.
pub open spec fn first_dot(s: Seq<char>) -> int {
    choose|i: int| 0 <= i < s.len() && s[i] == '.' && forall|j: int| 0 <= j < i ==> s[j] != '.'
}

/// The parts of the text between its dots, in order.
#[verifier::opaque]
pub open spec fn dot_parts(s: Seq<char>) -> Seq<Seq<char>>
    decreases s.len(),
{
    if !s.contains('.') {
        seq![s]
    } else {
        let i = first_dot(s);
        if 0 <= i < s.len() {
            seq![s.subrange(0, i)] + dot_parts(s.subrange(i + 1, s.len() as int))
        } else {
            seq![s]
        }
    }
}

/// Whether the character is one of the digits `0` to `9`.
pub open spec fn is_digit(c: char) -> bool {
    '0' <= c <= '9'
}

/// The digits of the text, in order, without its other characters.
pub open spec fn digits_of(s: Seq<char>) -> Seq<char>
    decreases s.len(),
{
    if s.len() == 0 {
        Seq::empty()
    } else if is_digit(s.last()) {
        digits_of(s.drop_last()).push(s.last())
    } else {
        digits_of(s.drop_last())
    }
}

/// A text whose first dot is at `i` splits into what stands before `i` and
/// the parts of what stands after it.
proof fn lemma_dot_parts_at(s: Seq<char>, i: int)
    requires
        0 <= i < s.len(),
        s[i] == '.',
        forall|j: int| 0 <= j < i ==> s[j] != '.',
    ensures
        dot_parts(s) == seq![s.subrange(0, i)] + dot_parts(s.subrange(i + 1, s.len() as int)),
{
    reveal(dot_parts);
    assert(s.contains('.'));
    let k = first_dot(s);
    assert(0 <= k < s.len() && s[k] == '.' && forall|j: int| 0 <= j < k ==> s[j] != '.');
    assert(k == i);
}

/// When the text from `start` on has its first dot at `i`, what was split
/// off before `start`, then the text from `start` to `i`, then the parts of
/// the text after `i` are the parts of the whole text.
proof fn lemma_split_step(text: Seq<char>, start: int, i: int, before: Seq<Seq<char>>)
    requires
        0 <= start <= i < text.len(),
        text[i] == '.',
        forall|j: int| start <= j < i ==> text[j] != '.',
        before + dot_parts(text.subrange(start, text.len() as int)) == dot_parts(text),
    ensures
        before.push(text.subrange(start, i)) + dot_parts(
            text.subrange(i + 1, text.len() as int),
        ) == dot_parts(text),
{
    let n = text.len() as int;
    let rest = text.subrange(start, n);
    assert(rest[i - start] == '.');
    assert forall|j: int| 0 <= j < i - start implies rest[j] != '.' by {
        assert(rest[j] == text[start + j]);
    }
    lemma_dot_parts_at(rest, i - start);
    assert(rest.subrange(0, i - start) =~= text.subrange(start, i));
    assert(rest.subrange(i - start + 1, rest.len() as int) =~= text.subrange(i + 1, n));
    let part = text.subrange(start, i);
    let tail = dot_parts(text.subrange(i + 1, n));
    assert(before.push(part) + tail =~= before + (seq![part] + tail));
}

/// When the text from `start` on holds no dot, what was split off before
/// `start` and the text from `start` on are the parts of the whole text.
proof fn lemma_split_end(text: Seq<char>, start: int, before: Seq<Seq<char>>)
    requires
        0 <= start <= text.len(),
        forall|j: int| start <= j < text.len() ==> text[j] != '.',
        before + dot_parts(text.subrange(start, text.len() as int)) == dot_parts(text),
    ensures
        before.push(text.subrange(start, text.len() as int)) == dot_parts(text),
{
    reveal(dot_parts);
    let rest = text.subrange(start, text.len() as int);
    if rest.contains('.') {
        let j = choose|j: int| 0 <= j < rest.len() && rest[j] == '.';
        assert(text[start + j] == '.');
    }
    assert(dot_parts(rest) == seq![rest]);
    assert(before.push(rest) =~= before + seq![rest]);
}

/// Splits the text at its dots.
fn split_dots(text: &str) -> (parts: Vec<&str>)
    ensures
        parts@.len() == dot_parts(text@).len(),
        forall|k: int| 0 <= k < parts@.len() ==> (#[trigger] parts@[k])@ == dot_parts(text@)[k],
{
    let n = text.unicode_len();
    let mut parts: Vec<&str> = Vec::new();
    let ghost mut views: Seq<Seq<char>> = Seq::empty();
    let mut start: usize = 0;
    let mut i: usize = 0;
    proof {
        assert(text@.subrange(0, n as int) =~= text@);
        assert(views + dot_parts(text@) =~= dot_parts(text@));
    }
    while i < n
        invariant
            n == text@.len(),
            start <= i <= n,
            forall|j: int| start <= j < i ==> text@[j] != '.',
            views.len() == parts@.len(),
            forall|k: int| 0 <= k < parts@.len() ==> (#[trigger] parts@[k])@ == views[k],
            views + dot_parts(text@.subrange(start as int, n as int)) == dot_parts(text@),
        decreases n - i,
    {
        if text.get_char(i) == '.' {
            let part = text.substring_char(start, i);
            proof {
                lemma_split_step(text@, start as int, i as int, views);
                views = views.push(part@);
            }
            parts.push(part);
            start = i + 1;
        }
        i += 1;
    }
    let part = text.substring_char(start, n);
    proof {
        lemma_split_end(text@, start as int, views);
        views = views.push(part@);
    }
    parts.push(part);
    parts
}

/// The digits of the text, without its other characters.
fn digits(text: &str) -> (r: String)
    ensures
        r@ == digits_of(text@),
{
    let n = text.unicode_len();
    let mut out = String::new();
    let mut i: usize = 0;
    assert(text@.take(0) =~= Seq::<char>::empty());
    while i < n
        invariant
            n == text@.len(),
            i <= n,
            out@ == digits_of(text@.take(i as int)),
        decreases n - i,
    {
        let c = text.get_char(i);
        proof {
            assert(text@.take(i + 1).drop_last() =~= text@.take(i as int));
            assert(text@.take(i + 1).last() == c);
        }
        if '0' <= c && c <= '9' {
            let one = text.substring_char(i, i + 1);
            assert(one@ =~= seq![c]);
            out.append(one);
            assert(out@ =~= digits_of(text@.take(i as int)).push(c));
        }
        i += 1;
    }
    assert(text@.take(n as int) =~= text@);
    out
}

/// The three numbers as the database stores them, where each fits.
pub open spec fn narrowed(
    major: u64,
    minor: u64,
    patch: u64,
    build: Seq<char>,
    pre: Seq<char>,
) -> Option<SemverView> {
    if major <= u32::MAX && minor <= u32::MAX && patch <= u32::MAX {
        Some(SemverView { major: major as u32, minor: minor as u32, patch: patch as u32, build, pre })
    } else {
        None
    }
}

/// The version number that a text without a lenient reading stands for: its
/// first three parts between dots as major, minor and patch, of the third
/// part only the digits.
pub open spec fn plain_version(text: Seq<char>) -> Option<SemverView> {
    let parts = dot_parts(text);
    if parts.len() < 3 {
        None
    } else {
        match (parsed_u64(digits_of(parts[2])), parsed_u64(parts[0]), parsed_u64(parts[1])) {
            (Some(patch), Some(major), Some(minor)) => narrowed(
                major,
                minor,
                patch,
                Seq::empty(),
                Seq::empty(),
            ),
            _ => None,
        }
    }
}

/// The fields that the database stores for the version number that the text
/// stands for: those of its lenient reading where it has one, else those of
/// its first three parts between dots.
pub open spec fn semver_of(text: Seq<char>) -> Option<SemverView> {
    match lenient_version(text) {
        Some((major, minor, patch, build, pre)) => narrowed(major, minor, patch, build, pre),
        None => plain_version(text),
    }
}

/// The three numbers as the database stores them, where each fits.
fn narrow(major: u64, minor: u64, patch: u64, build: String, pre: String) -> (r: Option<
    SemverFields,
>)
    ensures
        match r {
            Some(fields) => narrowed(major, minor, patch, build@, pre@) == Some(fields@),
            None => narrowed(major, minor, patch, build@, pre@).is_none(),
        },
{
    if major <= u32::MAX as u64 && minor <= u32::MAX as u64 && patch <= u32::MAX as u64 {
        Some(SemverFields { major: major as u32, minor: minor as u32, patch: patch as u32, build, pre })
    } else {
        None
    }
}

/// The fields that the database stores for the version number that the text
/// stands for. Fails with `InvalidSemver`, which holds the text, exactly
/// when the text stands for no version number whose numbers fit.
pub fn semver_fields(version: &str) -> (r: Result<SemverFields, Error>)
    ensures
        match r {
            Ok(fields) => semver_of(version@) == Some(fields@),
            Err(e) => {
                &&& semver_of(version@).is_none()
                &&& e matches Error::InvalidSemver(text) && text@ == version@
            },
        },
{
    let fields = match lenient_parse(version) {
        Some(v) => narrow(v.major, v.minor, v.patch, v.build, v.pre),
        None => {
            let split = split_dots(version);
            if split.len() < 3 {
                None
            } else {
                assert(dot_parts(version@)[0] == split@[0]@);
                assert(dot_parts(version@)[1] == split@[1]@);
                assert(dot_parts(version@)[2] == split@[2]@);
                let patch = parse_u64(digits(split[2]).as_str());
                let major = parse_u64(split[0]);
                let minor = parse_u64(split[1]);
                match (patch, major, minor) {
                    (Some(patch), Some(major), Some(minor)) => narrow(
                        major,
                        minor,
                        patch,
                        String::new(),
                        String::new(),
                    ),
                    _ => None,
                }
            }
        },
    };
    match fields {
        Some(fields) => Ok(fields),
        None => Err(Error::InvalidSemver(version.to_owned())),
    }
}

} // verus!
