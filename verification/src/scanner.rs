//! Recognising TeslaCam clip files and their recording times, and the
//! folder an event comes from.
use vstd::prelude::*;
use crate::text::{chars_of, replace_all, replace_all_chars, replace_first, replace_first_chars, string_from_chars, lemma_replace_first_skip, lemma_replace_first_none, lemma_replace_first_front};
use vstd::string::StrSliceExecFns;

verus! {

/// The kind of a recorded event, by the top-level TeslaCam folder it lies in.
#[derive(Clone, Copy, Debug, PartialEq, Eq, Structural)]
pub enum EventKind {
    Sentry,
    Saved,
    Recent,
}

pub open spec fn kind_label(k: EventKind) -> Seq<char> {
    match k {
        EventKind::Sentry => seq!['s', 'e', 'n', 't', 'r', 'y'],
        EventKind::Saved => seq!['s', 'a', 'v', 'e', 'd'],
        EventKind::Recent => seq!['r', 'e', 'c', 'e', 'n', 't'],
    }
}

impl EventKind {
    /// The name stored for the kind: "sentry", "saved" or "recent".
    pub fn as_str(self) -> (r: &'static str)
        ensures
            r@ == kind_label(self),
    {
        proof {
            reveal_strlit("sentry");
            reveal_strlit("saved");
            reveal_strlit("recent");
        }
        match self {
            EventKind::Sentry => "sentry",
            EventKind::Saved => "saved",
            EventKind::Recent => "recent",
        }
    }
}

/// "YYYY-MM-DD_HH-MM-SS" written as "YYYY-MM-DDTHH:MM:SS": the first `_`
/// becomes `T`, every `-` becomes `:`, then the first two `:` become `-` again.
pub open spec fn iso_timestamp(ts: Seq<char>) -> Seq<char> {
    replace_first(replace_all(replace_first(ts, '_', 'T', 1), '-', ':'), ':', '-', 2)
}

/// Converts a clip timestamp such as "2026-03-22_20-34-32" to "2026-03-22T20:34:32".
pub fn timestamp_to_iso(ts: &str) -> (r: String)
    ensures
        r@ == iso_timestamp(ts@),
{
    let cs = chars_of(ts);
    let a = replace_first_chars(cs.as_slice(), '_', 'T', 1);
    let b = replace_all_chars(a.as_slice(), '-', ':');
    let c = replace_first_chars(b.as_slice(), ':', '-', 2);
    string_from_chars(c.as_slice())
}


/// The pattern of a clip file name: a "YYYY-MM-DD_HH-MM-SS" timestamp, a
/// dash, one of the six camera names, and ".mp4".
pub const CLIP_FILENAME_PATTERN: &'static str =
    "^(\\d{4}-\\d{2}-\\d{2}_\\d{2}-\\d{2}-\\d{2})-(front|back|left_repeater|right_repeater|left_pillar|right_pillar)\\.mp4$";

/// What `regex::Regex::new(pattern)` followed by `Regex::captures(haystack)`
/// gives: `None` when the pattern does not compile or does not match,
/// otherwise the text of every capture group, group 0 first, with `None`
/// for a group that took no part in the match.
pub uninterp spec fn regex_captures(pattern: Seq<char>, haystack: Seq<char>) -> Option<
    Seq<Option<Seq<char>>>,
>;

/// Whether `c` is an ASCII decimal digit.
pub open spec fn is_ascii_digit(c: char) -> bool {
    '0' <= c <= '9'
}

/// Whether every character of `s` is ASCII.
pub open spec fn is_ascii_text(s: Seq<char>) -> bool {
    forall|i: int| 0 <= i < s.len() ==> (s[i] as u32) < 128
}

/// "YYYY-MM-DD_HH-MM-SS" with ASCII digits.
pub open spec fn is_clip_timestamp(t: Seq<char>) -> bool {
    &&& t.len() == 19
    &&& forall|i: int|
        0 <= i < 19 && i != 4 && i != 7 && i != 10 && i != 13 && i != 16 ==> is_ascii_digit(#[trigger] t[i])
    &&& t[4] == '-' && t[7] == '-' && t[10] == '_' && t[13] == '-' && t[16] == '-'
}

/// One of the six camera names.
pub open spec fn is_camera_name(c: Seq<char>) -> bool {
    ||| c == seq!['f', 'r', 'o', 'n', 't']
    ||| c == seq!['b', 'a', 'c', 'k']
    ||| c == seq!['l', 'e', 'f', 't', '_', 'r', 'e', 'p', 'e', 'a', 't', 'e', 'r']
    ||| c == seq!['r', 'i', 'g', 'h', 't', '_', 'r', 'e', 'p', 'e', 'a', 't', 'e', 'r']
    ||| c == seq!['l', 'e', 'f', 't', '_', 'p', 'i', 'l', 'l', 'a', 'r']
    ||| c == seq!['r', 'i', 'g', 'h', 't', '_', 'p', 'i', 'l', 'l', 'a', 'r']
}

/// A clip file name spelled with ASCII digits: a timestamp, `-`, a camera
/// name and ".mp4", exactly as `CLIP_FILENAME_PATTERN` reads it.
pub open spec fn is_ascii_clip_name(s: Seq<char>) -> bool {
    &&& s.len() >= 24
    &&& is_clip_timestamp(s.take(19))
    &&& s[19] == '-'
    &&& is_camera_name(s.subrange(20, s.len() - 4))
    &&& s.skip(s.len() - 4) == seq!['.', 'm', 'p', '4']
}

/// The capture groups of `CLIP_FILENAME_PATTERN` on an ASCII clip name:
/// the whole name, its timestamp and its camera.
pub open spec fn clip_name_groups(s: Seq<char>) -> Seq<Option<Seq<char>>> {
    seq![Some(s), Some(s.take(19)), Some(s.subrange(20, s.len() - 4))]
}

/// Compiles `pattern` with `regex::Regex::new` and matches it against
/// `haystack` with `Regex::captures`.  The contract claims that the result
/// is a function of the pattern and the haystack, named `regex_captures`;
/// and, for `CLIP_FILENAME_PATTERN` on an ASCII haystack (where `\d` can
/// only match `0` to `9`), what the pattern's syntax plainly gives: a match,
/// with the name, timestamp and camera as its groups, exactly for clip names.
#[verifier::external_body]
fn regex_capture_groups(pattern: &str, haystack: &str) -> (r: Option<Vec<Option<String>>>)
    ensures
        r.deep_view() == regex_captures(pattern@, haystack@),
        pattern@ == CLIP_FILENAME_PATTERN@ && is_ascii_text(haystack@) ==> r.deep_view() == (if is_ascii_clip_name(
            haystack@,
        ) {
            Some(clip_name_groups(haystack@))
        } else {
            None
        }),
{
    let re = regex::Regex::new(pattern).ok()?;
    let caps = re.captures(haystack)?;
    Some(caps.iter().map(|m| m.map(|m| m.as_str().to_string())).collect())
}

/// The timestamp and camera that capture groups 1 and 2 give, when both took part.
pub open spec fn clip_parts_of(caps: Option<Seq<Option<Seq<char>>>>) -> Option<(Seq<char>, Seq<char>)> {
    match caps {
        Some(c) => if c.len() >= 3 && c[1] is Some && c[2] is Some {
            Some((c[1]->0, c[2]->0))
        } else {
            None
        },
        None => None,
    }
}

/// The (timestamp, camera) of a clip file name such as
/// "2026-03-22_20-34-32-front.mp4", matched by `CLIP_FILENAME_PATTERN`.
pub open spec fn clip_name_parts(filename: Seq<char>) -> Option<(Seq<char>, Seq<char>)> {
    clip_parts_of(regex_captures(CLIP_FILENAME_PATTERN@, filename))
}

/// Splits a clip file name into its timestamp and camera name.  For an
/// ASCII name the result is stated outright: the timestamp and camera of a
/// clip name, `None` for anything else.
pub fn parse_clip_filename(filename: &str) -> (r: Option<(String, String)>)
    ensures
        r matches Some((ts, cam)) ==> clip_name_parts(filename@) == Some((ts@, cam@)),
        r is None ==> clip_name_parts(filename@) is None,
        is_ascii_text(filename@) ==> (if is_ascii_clip_name(filename@) {
            r matches Some((ts, cam)) && ts@ == filename@.take(19) && cam@ == filename@.subrange(
                20,
                filename@.len() - 4,
            )
        } else {
            r is None
        }),
{
    let caps = regex_capture_groups(CLIP_FILENAME_PATTERN, filename);
    clip_parts_from_captures(caps)
}

/// Groups 1 and 2 of a capture result, when both took part in the match.
pub fn clip_parts_from_captures(caps: Option<Vec<Option<String>>>) -> (r: Option<(String, String)>)
    ensures
        r matches Some((ts, cam)) ==> clip_parts_of(caps.deep_view()) == Some((ts@, cam@)),
        r is None ==> clip_parts_of(caps.deep_view()) is None,
{
    match caps {
        Some(c) => {
            if c.len() < 3 {
                return None;
            }
            let ghost cv = c.deep_view();
            assert(cv[1] == c@[1].deep_view());
            assert(cv[2] == c@[2].deep_view());
            match (&c[1], &c[2]) {
                (Some(ts), Some(cam)) => Some((ts.clone(), cam.clone())),
                _ => None,
            }
        },
        None => None,
    }
}

/// A plain file or folder name: not empty, not `.` or `..`, and without
/// `/`, `\` or `:` (so no separator and no drive prefix on any platform).
pub open spec fn is_plain_name(c: Seq<char>) -> bool {
    &&& c.len() > 0
    &&& c != seq!['.']
    &&& c != seq!['.', '.']
    &&& forall|i: int| 0 <= i < c.len() ==> c[i] != '/' && c[i] != '\\' && c[i] != ':'
}

/// `s` starts with the plain name `c`, followed by `/` or by nothing.
pub open spec fn leads_with_name(s: Seq<char>, c: Seq<char>) -> bool {
    &&& is_plain_name(c)
    &&& c.len() <= s.len()
    &&& s.subrange(0, c.len() as int) == c
    &&& (s.len() == c.len() || s[c.len() as int] == '/')
}

/// A folder path written plainly: not empty, not ending in `/`, without
/// doubled `/`, and without `\` or `:`.
pub open spec fn is_clean_base(b: Seq<char>) -> bool {
    &&& b.len() > 0
    &&& b.last() != '/'
    &&& forall|i: int| 0 <= i < b.len() ==> b[i] != '\\' && b[i] != ':'
    &&& forall|i: int| 0 <= i < b.len() - 1 ==> !(#[trigger] b[i] == '/' && b[i + 1] == '/')
}

/// `path` is the clean folder `base`, a `/`, then the plain name `c`
/// (followed by `/` or nothing): `c` is the first name below `base`.
pub open spec fn path_under(path: Seq<char>, base: Seq<char>, c: Seq<char>) -> bool {
    &&& is_clean_base(base)
    &&& base.len() < path.len()
    &&& path.subrange(0, base.len() as int) == base
    &&& path[base.len() as int] == '/'
    &&& leads_with_name(path.skip(base.len() + 1 as int), c)
}

/// `Path::strip_prefix`: `path` relative to `base`, if `base` is a prefix
/// of it.  The contract claims only what the documentation's examples show
/// (`/test/haha/foo.txt` less `/test` is `haha/foo.txt`): a path made of a
/// clean folder, `/` and a plain name strips to a path that starts with that
/// name.  It also claims what the documentation states of the failure: a
/// path that starts with a plain name does not start, component by
/// component, with a base that starts at the root (`/`), so stripping such
/// a base fails.  Of other paths it claims nothing; they follow the
/// platform's rules.
#[verifier::external_body]
fn path_strip_prefix(path: &str, base: &str) -> (r: Option<String>)
    ensures
        forall|c: Seq<char>|
            #[trigger] path_under(path@, base@, c) ==> r is Some && leads_with_name(r->0@, c),
        forall|c: Seq<char>|
            #[trigger] leads_with_name(path@, c) && base@.len() > 0 && base@[0] == '/' ==> r is None,
{
    std::path::Path::new(path).strip_prefix(base).ok().map(|p| p.to_string_lossy().to_string())
}

/// `Path::components`: the first component of `path`, if any.  The
/// contract claims only what the documentation states of a path that
/// starts with a plain name followed by a separator or nothing: its first
/// component is that name.  Of other paths it claims nothing; they follow
/// the platform's rules.
#[verifier::external_body]
fn path_first_component(path: &str) -> (r: Option<String>)
    ensures
        forall|c: Seq<char>| #[trigger] leads_with_name(path@, c) ==> r is Some && r->0@ == c,
{
    std::path::Path::new(path).components().next().map(|c| c.as_os_str().to_string_lossy().to_string())
}

pub open spec fn sentry_dir() -> Seq<char> {
    seq!['S', 'e', 'n', 't', 'r', 'y', 'C', 'l', 'i', 'p', 's']
}

pub open spec fn saved_dir() -> Seq<char> {
    seq!['S', 'a', 'v', 'e', 'd', 'C', 'l', 'i', 'p', 's']
}

/// The event kind of a file whose first folder below the TeslaCam root is `top`.
pub open spec fn kind_of_top_dir(top: Seq<char>) -> EventKind {
    if top == sentry_dir() {
        EventKind::Sentry
    } else if top == saved_dir() {
        EventKind::Saved
    } else {
        EventKind::Recent
    }
}

/// Whether two strings hold the same characters.
pub fn same_chars(a: &str, b: &str) -> (r: bool)
    ensures
        r == (a@ == b@),
{
    let n = a.unicode_len();
    let m = b.unicode_len();
    if n != m {
        return false;
    }
    let mut i: usize = 0;
    while i < n
        invariant
            n == a@.len(),
            m == b@.len(),
            n == m,
            i <= n,
            forall|j: int| 0 <= j < i ==> a@[j] == b@[j],
        decreases n - i,
    {
        if a.get_char(i) != b.get_char(i) {
            return false;
        }
        i = i + 1;
    }
    assert(a@ =~= b@);
    true
}

/// The event kind that the first folder below the TeslaCam root gives:
/// "SentryClips" and "SavedClips" are their own kinds, anything else is recent driving.
pub fn event_kind_of_top_dir(top: &str) -> (r: EventKind)
    ensures
        r == kind_of_top_dir(top@),
{
    proof {
        reveal_strlit("SentryClips");
        reveal_strlit("SavedClips");
        assert("SentryClips"@ =~= sentry_dir());
        assert("SavedClips"@ =~= saved_dir());
    }
    if same_chars(top, "SentryClips") {
        EventKind::Sentry
    } else if same_chars(top, "SavedClips") {
        EventKind::Saved
    } else {
        EventKind::Recent
    }
}

/// The event kind of the file at `path` under the TeslaCam folder `root`,
/// from the first component of its path relative to `root` (of the whole
/// path when it does not lie under `root`).  Stated: a path that is the
/// root, `/` and a plain name is classified by that name; a relative path
/// that starts with a plain name, under a root that starts at `/`, is not
/// under the root and is classified by its own first name.
pub fn detect_event_type(path: &str, root: &str) -> (r: EventKind)
    ensures
        forall|c: Seq<char>| #[trigger] path_under(path@, root@, c) ==> r == kind_of_top_dir(c),
        forall|c: Seq<char>|
            #[trigger] leads_with_name(path@, c) && root@.len() > 0 && root@[0] == '/' ==> r == kind_of_top_dir(c),
{
    let rel = match path_strip_prefix(path, root) {
        Some(rel) => rel,
        None => path.to_owned(),
    };
    let first = match path_first_component(rel.as_str()) {
        Some(c) => c,
        None => String::new(),
    };
    event_kind_of_top_dir(first.as_str())
}

/// Holds none of the separators `-`, `_` and `:` (as a run of digits does).
pub open spec fn no_separators(s: Seq<char>) -> bool {
    forall|i: int| 0 <= i < s.len() ==> s[i] != '-' && s[i] != '_' && s[i] != ':'
}

/// A clip timestamp "Y-M-D_h-m-s" is written "Y-M-DTh:m:s" for any fields
/// without separators, such as "2026-03-22_20-34-32" and "2026-03-22T20:34:32".
pub proof fn lemma_iso_timestamp_fields(
    y: Seq<char>,
    mo: Seq<char>,
    d: Seq<char>,
    h: Seq<char>,
    mi: Seq<char>,
    s: Seq<char>,
)
    requires
        no_separators(y),
        no_separators(mo),
        no_separators(d),
        no_separators(h),
        no_separators(mi),
        no_separators(s),
    ensures
        iso_timestamp(y + seq!['-'] + mo + seq!['-'] + d + seq!['_'] + h + seq!['-'] + mi + seq!['-'] + s)
            == y + seq!['-'] + mo + seq!['-'] + d + seq!['T'] + h + seq![':'] + mi + seq![':'] + s,
{
    let date_dash = y + seq!['-'] + mo + seq!['-'] + d;
    let time_dash = h + seq!['-'] + mi + seq!['-'] + s;
    let ts = y + seq!['-'] + mo + seq!['-'] + d + seq!['_'] + h + seq!['-'] + mi + seq!['-'] + s;
    assert(ts =~= date_dash + (seq!['_'] + time_dash));
    // The first `_` becomes `T`.
    assert forall|i: int| 0 <= i < date_dash.len() implies date_dash[i] != '_' by {}
    lemma_replace_first_skip(date_dash, seq!['_'] + time_dash, '_', 'T', 1);
    lemma_replace_first_front(time_dash, '_', 'T', 1);
    lemma_replace_first_none(time_dash, '_', 'T');
    let s1 = date_dash + (seq!['T'] + time_dash);
    assert(replace_first(ts, '_', 'T', 1) == s1);
    // Every `-` becomes `:`.
    let date_colon = y + seq![':'] + mo + seq![':'] + d;
    let time_colon = h + seq![':'] + mi + seq![':'] + s;
    let s2 = date_colon + (seq!['T'] + time_colon);
    assert(replace_all(s1, '-', ':') =~= s2);
    // The first two `:` become `-` again.
    let rest1 = mo + seq![':'] + d + (seq!['T'] + time_colon);
    let rest2 = d + (seq!['T'] + time_colon);
    assert(s2 =~= y + (seq![':'] + rest1));
    assert(rest1 =~= mo + (seq![':'] + rest2));
    lemma_replace_first_skip(y, seq![':'] + rest1, ':', '-', 2);
    lemma_replace_first_front(rest1, ':', '-', 2);
    lemma_replace_first_skip(mo, seq![':'] + rest2, ':', '-', 1);
    lemma_replace_first_front(rest2, ':', '-', 1);
    lemma_replace_first_none(rest2, ':', '-');
    assert(iso_timestamp(ts) =~= y + seq!['-'] + mo + seq!['-'] + d + seq!['T'] + h + seq![':'] + mi + seq![
        ':',
    ] + s);
}

} // verus!
