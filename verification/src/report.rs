//! The text pieces of an event report that come from paths and event
//! kinds: the start time of a segment read from its file name, the trigger
//! time of a sentry event read from its folder name, and the label and
//! colour of an event kind; and the cameras that a surround-view export
//! stacks, in their places.
use vstd::prelude::*;
use crate::text::{chars_of, replace_all, replace_all_chars, string_from_chars};
use crate::scanner::{is_ascii_clip_name, is_clip_timestamp, is_ascii_digit};
use vstd::slice::slice_subrange;

verus! {

/// What follows the last `c` in `s` (all of `s` when there is none).
pub open spec fn after_last(s: Seq<char>, c: char) -> Seq<char>
    decreases s.len(),
{
    if s.len() == 0 {
        s
    } else if s.last() == c {
        Seq::empty()
    } else {
        after_last(s.drop_last(), c).push(s.last())
    }
}

/// What comes before the `n`-th `c` in `s` (all of `s` when there are fewer).
pub open spec fn before_nth(s: Seq<char>, c: char, n: nat) -> Seq<char>
    decreases s.len(),
{
    if s.len() == 0 {
        s
    } else if s[0] == c && n <= 1 {
        Seq::empty()
    } else {
        seq![s[0]] + before_nth(s.drop_first(), c, if s[0] == c { (n - 1) as nat } else { n })
    }
}

/// `s` with every occurrence of `pat` taken out, matched from the left
/// without overlap.
pub open spec fn remove_all(s: Seq<char>, pat: Seq<char>) -> Seq<char>
    decreases s.len(),
{
    if s.len() == 0 || pat.len() == 0 {
        s
    } else if pat.len() <= s.len() && s.subrange(0, pat.len() as int) == pat {
        remove_all(s.skip(pat.len() as int), pat)
    } else {
        seq![s[0]] + remove_all(s.drop_first(), pat)
    }
}

pub open spec fn mp4_ext() -> Seq<char> {
    seq!['.', 'm', 'p', '4']
}

/// `h` with its first `_` made a space and every `-` after it made `:`:
/// the date before the `_` keeps its `-`, the time after it is written
/// with `:`.  `h` itself when it has no `_`.
pub open spec fn time_part_colons(h: Seq<char>) -> Seq<char>
    decreases h.len(),
{
    if h.len() == 0 {
        h
    } else if h[0] == '_' {
        seq![' '] + replace_all(h.drop_first(), '-', ':')
    } else {
        seq![h[0]] + time_part_colons(h.drop_first())
    }
}

/// The start time of a segment as the report shows it, read from the name
/// of one of its files ("…/2026-03-22_20-34-32-front.mp4"): the part of the
/// name before its fifth `-` (the timestamp, without the camera), without
/// ".mp4", with the date kept and the time written with `:`
/// ("2026-03-22 20:34:32").
pub open spec fn segment_start_label_spec(path: Seq<char>) -> Seq<char> {
    time_part_colons(remove_all(before_nth(after_last(path, '/'), '-', 5), mp4_ext()))
}

/// The trigger time of a sentry event as the report shows it, read from
/// the name of its folder ("…/2026-03-22_20-34-32"): the date kept and the
/// time written with `:` ("2026-03-22 20:34:32").
pub open spec fn trigger_label_spec(source_dir: Seq<char>) -> Seq<char> {
    time_part_colons(after_last(source_dir, '/'))
}

/// A clip timestamp "YYYY-MM-DD_HH-MM-SS" written "YYYY-MM-DD HH:MM:SS".
pub open spec fn clip_time_label(t: Seq<char>) -> Seq<char> {
    t.update(10, ' ').update(13, ':').update(16, ':')
}

/// What follows the last `c` in `s`.
pub fn after_last_chars(s: &[char], c: char) -> (r: Vec<char>)
    ensures
        r@ == after_last(s@, c),
{
    let n = s.len();
    let mut k: usize = n;
    proof {
        assert(s@.take(n as int) =~= s@);
        assert(after_last(s@, c) + s@.skip(n as int) =~= after_last(s@, c));
    }
    while k > 0 && s[k - 1] != c
        invariant
            k <= n,
            n == s@.len(),
            after_last(s@, c) == after_last(s@.take(k as int), c) + s@.skip(k as int),
        decreases k,
    {
        proof {
            let t = s@.take(k as int);
            assert(t.drop_last() =~= s@.take(k - 1));
            assert(t.last() == s@[k - 1]);
            assert(after_last(t, c) == after_last(s@.take(k - 1), c).push(s@[k - 1]));
            assert(after_last(s@.take(k - 1), c).push(s@[k - 1]) + s@.skip(k as int) =~= after_last(
                s@.take(k - 1),
                c,
            ) + s@.skip(k - 1));
        }
        k = k - 1;
    }
    proof {
        if k == 0 {
            assert(after_last(s@.take(0), c) =~= Seq::<char>::empty());
        } else {
            let t = s@.take(k as int);
            assert(t.last() == s@[k - 1]);
            assert(after_last(t, c) =~= Seq::<char>::empty());
        }
        assert(Seq::<char>::empty() + s@.skip(k as int) =~= s@.skip(k as int));
        assert(after_last(s@, c) == s@.skip(k as int));
    }
    let mut r: Vec<char> = Vec::new();
    let mut i = k;
    while i < n
        invariant
            k <= i <= n,
            n == s@.len(),
            r@ == s@.subrange(k as int, i as int),
        decreases n - i,
    {
        r.push(s[i]);
        proof {
            assert(s@.subrange(k as int, i + 1) =~= s@.subrange(k as int, i as int).push(s@[i as int]));
        }
        i = i + 1;
    }
    proof {
        assert(s@.subrange(k as int, n as int) =~= s@.skip(k as int));
    }
    r
}

/// What comes before the `n`-th `c` in `s`.
pub fn before_nth_chars(s: &[char], c: char, n: usize) -> (r: Vec<char>)
    ensures
        r@ == before_nth(s@, c, n as nat),
{
    let len = s.len();
    let mut r: Vec<char> = Vec::new();
    let mut left: usize = n;
    let mut i: usize = 0;
    proof {
        assert(s@.skip(0) =~= s@);
    }
    while i < len
        invariant
            i <= len,
            len == s@.len(),
            before_nth(s@, c, n as nat) == r@ + before_nth(s@.skip(i as int), c, left as nat),
        decreases len - i,
    {
        let ghost rest = s@.skip(i as int);
        proof {
            assert(rest[0] == s@[i as int]);
            assert(rest.drop_first() =~= s@.skip(i + 1));
        }
        if s[i] == c && left <= 1 {
            proof {
                assert(r@ + Seq::<char>::empty() =~= r@);
            }
            return r;
        }
        let ghost r0 = r@;
        r.push(s[i]);
        if s[i] == c {
            left = left - 1;
        }
        proof {
            assert(r0 + (seq![s@[i as int]] + before_nth(s@.skip(i + 1), c, left as nat)) =~= r@
                + before_nth(s@.skip(i + 1), c, left as nat));
        }
        i = i + 1;
    }
    proof {
        assert(s@.skip(len as int) =~= Seq::<char>::empty());
        assert(r@ + Seq::<char>::empty() =~= r@);
    }
    r
}

/// Whether `pat` occurs in `s` at `i`.
fn occurs_at_chars(s: &[char], pat: &[char], i: usize) -> (r: bool)
    requires
        i <= s@.len(),
    ensures
        r == (pat@.len() <= s@.skip(i as int).len() && s@.skip(i as int).subrange(0, pat@.len() as int)
            == pat@),
{
    let n = s.len();
    let m = pat.len();
    if m > n - i {
        return false;
    }
    let mut j: usize = 0;
    while j < m
        invariant
            j <= m,
            m == pat@.len(),
            n == s@.len(),
            i + m <= n,
            forall|k: int| 0 <= k < j ==> s@[i + k] == pat@[k],
        decreases m - j,
    {
        if s[i + j] != pat[j] {
            proof {
                assert(s@.skip(i as int).subrange(0, m as int)[j as int] == s@[i + j]);
            }
            return false;
        }
        j = j + 1;
    }
    assert(s@.skip(i as int).subrange(0, m as int) =~= pat@);
    true
}

/// `s` with every occurrence of `pat` taken out.
pub fn remove_all_chars(s: &[char], pat: &[char]) -> (r: Vec<char>)
    ensures
        r@ == remove_all(s@, pat@),
{
    let n = s.len();
    let m = pat.len();
    let mut r: Vec<char> = Vec::new();
    if m == 0 {
        let mut i: usize = 0;
        while i < n
            invariant
                i <= n,
                n == s@.len(),
                r@ == s@.take(i as int),
            decreases n - i,
        {
            r.push(s[i]);
            proof {
                assert(s@.take(i + 1) =~= s@.take(i as int).push(s@[i as int]));
            }
            i = i + 1;
        }
        proof {
            assert(s@.take(n as int) =~= s@);
        }
        return r;
    }
    let mut i: usize = 0;
    proof {
        assert(s@.skip(0) =~= s@);
    }
    while i < n
        invariant
            i <= n,
            n == s@.len(),
            m == pat@.len(),
            m > 0,
            remove_all(s@, pat@) == r@ + remove_all(s@.skip(i as int), pat@),
        decreases n - i,
    {
        let ghost rest = s@.skip(i as int);
        let ghost r0 = r@;
        if occurs_at_chars(s, pat, i) {
            proof {
                assert(rest.skip(m as int) =~= s@.skip(i + m));
            }
            i = i + m;
        } else {
            r.push(s[i]);
            proof {
                assert(rest[0] == s@[i as int]);
                assert(rest.drop_first() =~= s@.skip(i + 1));
                assert(r0 + (seq![s@[i as int]] + remove_all(s@.skip(i + 1), pat@)) =~= r@ + remove_all(
                    s@.skip(i + 1),
                    pat@,
                ));
            }
            i = i + 1;
        }
    }
    proof {
        assert(s@.skip(i as int) =~= Seq::<char>::empty());
        assert(r@ + Seq::<char>::empty() =~= r@);
    }
    r
}

/// The start time of a segment, read from the path of one of its files
/// (see `segment_start_label_spec`): for a clip file such as
/// "…/2026-03-22_20-34-32-front.mp4" it is the clip's timestamp with its
/// time written with `:`, "2026-03-22 20:34:32".
pub fn segment_start_label(path: &str) -> (r: String)
    ensures
        r@ == segment_start_label_spec(path@),
        is_ascii_clip_name(after_last(path@, '/')) ==> r@ == clip_time_label(after_last(path@, '/').take(19)),
{
    proof {
        reveal_strlit(".mp4");
        assert(".mp4"@ =~= mp4_ext());
    }
    let cs = chars_of(path);
    let name = after_last_chars(cs.as_slice(), '/');
    let head = before_nth_chars(name.as_slice(), '-', 5);
    let ext = chars_of(".mp4");
    let bare = remove_all_chars(head.as_slice(), ext.as_slice());
    let timed = time_part_colons_chars(bare.as_slice());
    proof {
        if is_ascii_clip_name(name@) {
            lemma_clip_label(name@);
        }
    }
    string_from_chars(timed.as_slice())
}

/// The trigger time of a sentry event, read from its folder (see
/// `trigger_label_spec`): "…/2026-03-22_20-34-32" gives "2026-03-22 20:34:32".
pub fn sentry_trigger_label(source_dir: &str) -> (r: String)
    ensures
        r@ == trigger_label_spec(source_dir@),
        is_clip_timestamp(after_last(source_dir@, '/')) ==> r@ == clip_time_label(after_last(source_dir@, '/')),
{
    let cs = chars_of(source_dir);
    let name = after_last_chars(cs.as_slice(), '/');
    let timed = time_part_colons_chars(name.as_slice());
    proof {
        if is_clip_timestamp(name@) {
            lemma_timestamp_label(name@);
        }
    }
    string_from_chars(timed.as_slice())
}

/// `h` with its first `_` made a space and every `-` after it made `:`.
pub fn time_part_colons_chars(h: &[char]) -> (r: Vec<char>)
    ensures
        r@ == time_part_colons(h@),
{
    let n = h.len();
    let mut out: Vec<char> = Vec::new();
    let mut i: usize = 0;
    proof {
        assert(h@.skip(0) =~= h@);
        assert(out@ + time_part_colons(h@) =~= time_part_colons(h@));
    }
    while i < n
        invariant
            i <= n,
            n == h@.len(),
            time_part_colons(h@) == out@ + time_part_colons(h@.skip(i as int)),
        decreases n - i,
    {
        let ghost rest = h@.skip(i as int);
        proof {
            assert(rest[0] == h@[i as int]);
            assert(rest.drop_first() =~= h@.skip(i + 1));
        }
        if h[i] == '_' {
            out.push(' ');
            let tail = slice_subrange(h, i + 1, n);
            let done = replace_all_chars(tail, '-', ':');
            let ghost before = out@;
            let mut j: usize = 0;
            while j < done.len()
                invariant
                    j <= done@.len(),
                    out@ == before + done@.take(j as int),
                decreases done@.len() - j,
            {
                out.push(done[j]);
                proof {
                    assert(done@.take(j + 1) =~= done@.take(j as int).push(done@[j as int]));
                }
                j = j + 1;
            }
            proof {
                assert(tail@ =~= h@.skip(i + 1));
                assert(done@.take(done@.len() as int) =~= done@);
                assert(out@ =~= (before.drop_last()) + (seq![' '] + replace_all(rest.drop_first(), '-', ':')));
            }
            return out;
        }
        let ghost before = out@;
        out.push(h[i]);
        proof {
            assert(before + (seq![h@[i as int]] + time_part_colons(h@.skip(i + 1))) =~= out@
                + time_part_colons(h@.skip(i + 1)));
        }
        i = i + 1;
    }
    proof {
        assert(h@.skip(n as int) =~= Seq::<char>::empty());
        assert(out@ + Seq::<char>::empty() =~= out@);
    }
    out
}

/// Characters that are not `c` pass through `before_nth` unchanged.
proof fn lemma_before_nth_skip(t: Seq<char>, rest: Seq<char>, c: char, n: nat)
    requires
        forall|i: int| 0 <= i < t.len() ==> t[i] != c,
    ensures
        before_nth(t + rest, c, n) == t + before_nth(rest, c, n),
    decreases t.len(),
{
    if t.len() > 0 {
        assert((t + rest).drop_first() =~= t.drop_first() + rest);
        lemma_before_nth_skip(t.drop_first(), rest, c, n);
        assert(seq![t[0]] + (t.drop_first() + before_nth(rest, c, n)) =~= t + before_nth(rest, c, n));
    }
}

/// A `c` before the last wanted one is kept; at the `n`-th one the text stops.
proof fn lemma_before_nth_sep(rest: Seq<char>, c: char, n: nat)
    requires
        n >= 1,
    ensures
        before_nth(seq![c] + rest, c, n) == (if n <= 1 {
            Seq::empty()
        } else {
            seq![c] + before_nth(rest, c, (n - 1) as nat)
        }),
{
    assert((seq![c] + rest).drop_first() =~= rest);
}

/// Text without the first character of a non-empty pattern holds no occurrence of it.
proof fn lemma_remove_all_none(s: Seq<char>, pat: Seq<char>)
    requires
        pat.len() > 0,
        forall|i: int| 0 <= i < s.len() ==> s[i] != pat[0],
    ensures
        remove_all(s, pat) == s,
    decreases s.len(),
{
    if s.len() > 0 {
        if pat.len() <= s.len() {
            assert(s.subrange(0, pat.len() as int)[0] == s[0]);
        }
        lemma_remove_all_none(s.drop_first(), pat);
        assert(seq![s[0]] + s.drop_first() =~= s);
    }
}

/// The first `_` of text whose start has none turns the rest into the time part.
proof fn lemma_time_part_at(a: Seq<char>, b: Seq<char>)
    requires
        forall|i: int| 0 <= i < a.len() ==> a[i] != '_',
    ensures
        time_part_colons(a + seq!['_'] + b) == a + seq![' '] + replace_all(b, '-', ':'),
    decreases a.len(),
{
    if a.len() == 0 {
        assert(a + seq!['_'] + b =~= seq!['_'] + b);
        assert((seq!['_'] + b).drop_first() =~= b);
        assert(a + seq![' '] + replace_all(b, '-', ':') =~= seq![' '] + replace_all(b, '-', ':'));
    } else {
        assert((a + seq!['_'] + b).drop_first() =~= a.drop_first() + seq!['_'] + b);
        lemma_time_part_at(a.drop_first(), b);
        assert(seq![a[0]] + (a.drop_first() + seq![' '] + replace_all(b, '-', ':')) =~= a + seq![' ']
            + replace_all(b, '-', ':'));
    }
}

/// A clip timestamp reads as its date, a space and its time with `:`.
proof fn lemma_timestamp_label(t: Seq<char>)
    requires
        is_clip_timestamp(t),
    ensures
        time_part_colons(t) == clip_time_label(t),
{
    let a = t.take(10);
    let b = t.skip(11);
    assert forall|i: int| 0 <= i < a.len() implies a[i] != '_' by {
        if i != 4 && i != 7 {
            assert(is_ascii_digit(t[i]));
        }
    }
    assert(t =~= a + seq!['_'] + b);
    lemma_time_part_at(a, b);
    assert forall|i: int| 0 <= i < 8 && i != 2 && i != 5 implies is_ascii_digit(#[trigger] b[i]) by {
        assert(b[i] == t[i + 11]);
        assert(is_ascii_digit(t[i + 11]));
    }
    assert(a + seq![' '] + replace_all(b, '-', ':') =~= clip_time_label(t));
}

/// For a clip file name, the segment label is its timestamp with the time
/// written with `:`.
proof fn lemma_clip_label(name: Seq<char>)
    requires
        is_ascii_clip_name(name),
    ensures
        time_part_colons(remove_all(before_nth(name, '-', 5), mp4_ext())) == clip_time_label(name.take(19)),
{
    let t = name.take(19);
    assert forall|i: int| 0 <= i < 19 && i != 4 && i != 7 && i != 10 && i != 13 && i != 16 implies is_ascii_digit(
        #[trigger] name[i],
    ) by {
        assert(t[i] == name[i]);
        assert(is_ascii_digit(t[i]));
    }
    let p0 = name.subrange(0, 4);
    let p1 = name.subrange(5, 7);
    let p2 = name.subrange(8, 13);
    let p3 = name.subrange(14, 16);
    let p4 = name.subrange(17, 19);
    let rest = name.skip(20);
    assert forall|i: int| 0 <= i < p0.len() implies p0[i] != '-' by { assert(is_ascii_digit(name[i])); }
    assert forall|i: int| 0 <= i < p1.len() implies p1[i] != '-' by { assert(is_ascii_digit(name[i + 5])); }
    assert forall|i: int| 0 <= i < p2.len() implies p2[i] != '-' by {
        if i != 2 {
            assert(is_ascii_digit(name[i + 8]));
        }
    }
    assert forall|i: int| 0 <= i < p3.len() implies p3[i] != '-' by { assert(is_ascii_digit(name[i + 14])); }
    assert forall|i: int| 0 <= i < p4.len() implies p4[i] != '-' by { assert(is_ascii_digit(name[i + 17])); }
    let s4 = seq!['-'] + rest;
    let s3 = seq!['-'] + (p4 + s4);
    let s2 = seq!['-'] + (p3 + s3);
    let s1 = seq!['-'] + (p2 + s2);
    let s0 = seq!['-'] + (p1 + s1);
    assert(name =~= p0 + s0);
    lemma_before_nth_skip(p0, s0, '-', 5);
    lemma_before_nth_sep(p1 + s1, '-', 5);
    lemma_before_nth_skip(p1, s1, '-', 4);
    lemma_before_nth_sep(p2 + s2, '-', 4);
    lemma_before_nth_skip(p2, s2, '-', 3);
    lemma_before_nth_sep(p3 + s3, '-', 3);
    lemma_before_nth_skip(p3, s3, '-', 2);
    lemma_before_nth_sep(p4 + s4, '-', 2);
    lemma_before_nth_skip(p4, s4, '-', 1);
    lemma_before_nth_sep(rest, '-', 1);
    assert(before_nth(name, '-', 5) =~= t);
    assert forall|i: int| 0 <= i < t.len() implies t[i] != mp4_ext()[0] by {
        if i != 4 && i != 7 && i != 10 && i != 13 && i != 16 {
            assert(is_ascii_digit(name[i]));
        }
    }
    lemma_remove_all_none(t, mp4_ext());
    assert(is_clip_timestamp(t));
    lemma_timestamp_label(t);
}

pub open spec fn sentry_name() -> Seq<char> {
    seq!['s', 'e', 'n', 't', 'r', 'y']
}

pub open spec fn saved_name() -> Seq<char> {
    seq!['s', 'a', 'v', 'e', 'd']
}

/// The heading of an event type in the report: "哨兵模式" (sentry mode) for
/// "sentry", "手動保存" (saved by hand) for "saved", "行車紀錄" (driving
/// record) for anything else.
pub open spec fn type_label_spec(etype: Seq<char>) -> Seq<char> {
    if etype == sentry_name() {
        seq!['哨', '兵', '模', '式']
    } else if etype == saved_name() {
        seq!['手', '動', '保', '存']
    } else {
        seq!['行', '車', '紀', '錄']
    }
}

/// The colour of an event type in the report.
pub open spec fn type_color_spec(etype: Seq<char>) -> Seq<char> {
    if etype == sentry_name() {
        seq!['#', 'e', '9', '4', '5', '6', '0']
    } else if etype == saved_name() {
        seq!['#', '4', 'e', 'c', 'd', 'c', '4']
    } else {
        seq!['#', '8', '8', '8']
    }
}

/// The heading of an event type in the report.
pub fn event_type_label(etype: &str) -> (r: &'static str)
    ensures
        r@ == type_label_spec(etype@),
{
    proof {
        reveal_strlit("sentry");
        reveal_strlit("saved");
        reveal_strlit("哨兵模式");
        reveal_strlit("手動保存");
        reveal_strlit("行車紀錄");
        assert("sentry"@ =~= sentry_name());
        assert("saved"@ =~= saved_name());
    }
    if crate::scanner::same_chars(etype, "sentry") {
        "哨兵模式"
    } else if crate::scanner::same_chars(etype, "saved") {
        "手動保存"
    } else {
        "行車紀錄"
    }
}

/// The colour of an event type in the report.
pub fn event_type_color(etype: &str) -> (r: &'static str)
    ensures
        r@ == type_color_spec(etype@),
{
    proof {
        reveal_strlit("sentry");
        reveal_strlit("saved");
        reveal_strlit("#e94560");
        reveal_strlit("#4ecdc4");
        reveal_strlit("#888");
        assert("sentry"@ =~= sentry_name());
        assert("saved"@ =~= saved_name());
    }
    if crate::scanner::same_chars(etype, "sentry") {
        "#e94560"
    } else if crate::scanner::same_chars(etype, "saved") {
        "#4ecdc4"
    } else {
        "#888"
    }
}

/// The cameras of a surround-view export in the order they are stacked:
/// the top row left pillar, front, right pillar; the bottom row left
/// repeater, back, right repeater.
pub open spec fn camera_layout() -> Seq<Seq<char>> {
    seq![
        seq!['l', 'e', 'f', 't', '_', 'p', 'i', 'l', 'l', 'a', 'r'],
        seq!['f', 'r', 'o', 'n', 't'],
        seq!['r', 'i', 'g', 'h', 't', '_', 'p', 'i', 'l', 'l', 'a', 'r'],
        seq!['l', 'e', 'f', 't', '_', 'r', 'e', 'p', 'e', 'a', 't', 'e', 'r'],
        seq!['b', 'a', 'c', 'k'],
        seq!['r', 'i', 'g', 'h', 't', '_', 'r', 'e', 'p', 'e', 'a', 't', 'e', 'r'],
    ]
}

/// The path of camera `cam` among the (camera, path) pairs `files`: the
/// last one given for it, as in a map filled in order.
pub open spec fn camera_path(files: Seq<(Seq<char>, Seq<char>)>, cam: Seq<char>) -> Option<Seq<char>>
    decreases files.len(),
{
    if files.len() == 0 {
        None
    } else if files.last().0 == cam {
        Some(files.last().1)
    } else {
        camera_path(files.drop_last(), cam)
    }
}

/// The (camera, path) pairs of the layout cameras that `files` has, in layout order.
pub open spec fn layout_inputs(files: Seq<(Seq<char>, Seq<char>)>, k: nat) -> Seq<(Seq<char>, Seq<char>)>
    decreases k,
{
    if k == 0 {
        Seq::empty()
    } else {
        let before = layout_inputs(files, (k - 1) as nat);
        let cam = camera_layout()[k - 1];
        match camera_path(files, cam) {
            Some(path) => before.push((cam, path)),
            None => before,
        }
    }
}

pub open spec fn pair_views(v: Seq<(String, String)>) -> Seq<(Seq<char>, Seq<char>)> {
    v.map_values(|p: (String, String)| (p.0@, p.1@))
}

/// The last path given for camera `cam` in `files`.
fn find_camera(files: &Vec<(String, String)>, cam: &str) -> (r: Option<String>)
    ensures
        r matches Some(p) ==> camera_path(pair_views(files@), cam@) == Some(p@),
        r is None ==> camera_path(pair_views(files@), cam@) is None,
{
    let ghost fv = pair_views(files@);
    let mut i = files.len();
    proof {
        assert(fv.take(i as int) =~= fv);
    }
    while i > 0
        invariant
            i <= files@.len(),
            fv == pair_views(files@),
            camera_path(fv, cam@) == camera_path(fv.take(i as int), cam@),
        decreases i,
    {
        proof {
            assert(fv.take(i as int).drop_last() =~= fv.take(i - 1));
            assert(fv.take(i as int).last() == fv[i - 1]);
        }
        if crate::scanner::same_chars(files[i - 1].0.as_str(), cam) {
            return Some(files[i - 1].1.clone());
        }
        i = i - 1;
    }
    None
}

/// The inputs of a surround-view export: for each camera of the layout
/// that `files` (pairs of camera name and path) has, in layout order, the
/// camera and its last path; `None` when fewer than four cameras are there.
pub fn export_inputs(files: &Vec<(String, String)>) -> (r: Option<Vec<(String, String)>>)
    ensures
        r matches Some(v) ==> pair_views(v@) == layout_inputs(pair_views(files@), 6) && v@.len() >= 4,
        r is None ==> layout_inputs(pair_views(files@), 6).len() < 4,
{
    proof {
        reveal_strlit("left_pillar");
        reveal_strlit("front");
        reveal_strlit("right_pillar");
        reveal_strlit("left_repeater");
        reveal_strlit("back");
        reveal_strlit("right_repeater");
        assert("left_pillar"@ =~= camera_layout()[0]);
        assert("front"@ =~= camera_layout()[1]);
        assert("right_pillar"@ =~= camera_layout()[2]);
        assert("left_repeater"@ =~= camera_layout()[3]);
        assert("back"@ =~= camera_layout()[4]);
        assert("right_repeater"@ =~= camera_layout()[5]);
    }
    let names: [&str; 6] = ["left_pillar", "front", "right_pillar", "left_repeater", "back", "right_repeater"];
    let ghost fv = pair_views(files@);
    let mut out: Vec<(String, String)> = Vec::new();
    let mut k: usize = 0;
    proof {
        assert(pair_views(out@) =~= Seq::<(Seq<char>, Seq<char>)>::empty());
    }
    while k < 6
        invariant
            k <= 6,
            fv == pair_views(files@),
            forall|j: int| 0 <= j < 6 ==> (#[trigger] names@[j])@ == camera_layout()[j],
            pair_views(out@) == layout_inputs(fv, k as nat),
        decreases 6 - k,
    {
        let name = names[k];
        let ghost before = pair_views(out@);
        assert(name@ == camera_layout()[k as int]);
        match find_camera(files, name) {
            Some(path) => {
                let cam = name.to_owned();
                out.push((cam, path));
                proof {
                    assert(pair_views(out@) =~= before.push((camera_layout()[k as int], path@)));
                }
            },
            None => {},
        }
        k = k + 1;
    }
    if out.len() < 4 {
        None
    } else {
        Some(out)
    }
}

/// The place of camera `cam` in a surround-view export, counted along the
/// top row (left pillar, front, right pillar) and then along the bottom row
/// (left repeater, back, right repeater); 6 for a camera that has no place.
pub open spec fn camera_rank(cam: Seq<char>) -> nat {
    if cam == seq!['l', 'e', 'f', 't', '_', 'p', 'i', 'l', 'l', 'a', 'r'] {
        0
    } else if cam == seq!['f', 'r', 'o', 'n', 't'] {
        1
    } else if cam == seq!['r', 'i', 'g', 'h', 't', '_', 'p', 'i', 'l', 'l', 'a', 'r'] {
        2
    } else if cam == seq!['l', 'e', 'f', 't', '_', 'r', 'e', 'p', 'e', 'a', 't', 'e', 'r'] {
        3
    } else if cam == seq!['b', 'a', 'c', 'k'] {
        4
    } else if cam == seq!['r', 'i', 'g', 'h', 't', '_', 'r', 'e', 'p', 'e', 'a', 't', 'e', 'r'] {
        5
    } else {
        6
    }
}

proof fn lemma_rank_of_layout(k: int)
    requires
        0 <= k < 6,
    ensures
        camera_rank(camera_layout()[k]) == k,
{
    let l = camera_layout();
    assert(l[0].len() == 11 && l[1].len() == 5 && l[2].len() == 12);
    assert(l[3].len() == 13 && l[4].len() == 4 && l[5].len() == 14);
}

proof fn lemma_layout_of_rank(cam: Seq<char>)
    requires
        camera_rank(cam) < 6,
    ensures
        camera_layout()[camera_rank(cam) as int] == cam,
{
}

proof fn lemma_layout_inputs_upto(files: Seq<(Seq<char>, Seq<char>)>, k: nat)
    requires
        k <= 6,
    ensures
        forall|i: int| 0 <= i < layout_inputs(files, k).len() ==> {
            let e = #[trigger] layout_inputs(files, k)[i];
            camera_rank(e.0) < k && camera_path(files, e.0) == Some(e.1)
        },
        forall|i: int, j: int| 0 <= i < j < layout_inputs(files, k).len() ==>
            camera_rank((#[trigger] layout_inputs(files, k)[i]).0) < camera_rank((#[trigger] layout_inputs(files, k)[j]).0),
        forall|cam: Seq<char>| camera_rank(cam) < k && (#[trigger] camera_path(files, cam)) is Some ==>
            exists|i: int| 0 <= i < layout_inputs(files, k).len() && (#[trigger] layout_inputs(files, k)[i]).0 == cam,
    decreases k,
{
    if k > 0 {
        let km: nat = (k - 1) as nat;
        lemma_layout_inputs_upto(files, km);
        lemma_rank_of_layout(km as int);
        let before = layout_inputs(files, km);
        let cam_k = camera_layout()[km as int];
        let r = layout_inputs(files, k);
        assert forall|cam: Seq<char>| camera_rank(cam) < k && (#[trigger] camera_path(files, cam)) is Some implies
            exists|i: int| 0 <= i < r.len() && (#[trigger] r[i]).0 == cam by {
            if camera_rank(cam) < km {
                let i = choose|i: int| 0 <= i < before.len() && (#[trigger] before[i]).0 == cam;
                assert(r[i] == before[i]);
            } else {
                lemma_layout_of_rank(cam);
                assert(cam == cam_k);
                assert(r[before.len() as int].0 == cam);
            }
        }
    }
}

/// Law of the export order: the inputs of a surround-view export are the
/// cameras `files` has, each with its last path, in the fixed order left
/// pillar, front, right pillar, left repeater, back, right repeater; no
/// other camera is among them and none of those six that `files` has is
/// left out. So with both pillars present the left one comes before the
/// front camera and the right one after it.
pub proof fn lemma_export_order(files: Seq<(Seq<char>, Seq<char>)>)
    ensures
        forall|i: int| 0 <= i < layout_inputs(files, 6).len() ==> {
            let e = #[trigger] layout_inputs(files, 6)[i];
            camera_rank(e.0) < 6 && camera_path(files, e.0) == Some(e.1)
        },
        forall|i: int, j: int| 0 <= i < j < layout_inputs(files, 6).len() ==>
            camera_rank((#[trigger] layout_inputs(files, 6)[i]).0) < camera_rank((#[trigger] layout_inputs(files, 6)[j]).0),
        forall|cam: Seq<char>| camera_rank(cam) < 6 && (#[trigger] camera_path(files, cam)) is Some ==>
            exists|i: int| 0 <= i < layout_inputs(files, 6).len() && (#[trigger] layout_inputs(files, 6)[i]).0 == cam,
{
    lemma_layout_inputs_upto(files, 6);
}

/// How a surround-view export arranges its inputs.
pub struct ExportLayout {
    /// Inputs per row of the grid.
    pub columns: u32,
    /// For each input, whether it is mirrored.
    pub mirrored: Vec<bool>,
    /// The filter lines that stack the scaled inputs `[v0]`, `[v1]`, … into
    /// a top and a bottom row and those into `[out]`.
    pub stack: Vec<String>,
}

/// Three inputs per row with six cameras, two otherwise.
pub open spec fn layout_columns(n: nat) -> u32 {
    if n >= 6 {
        3
    } else {
        2
    }
}

/// The back camera looks backwards, so it is mirrored.
pub open spec fn is_mirrored_camera(cam: Seq<char>) -> bool {
    cam == seq!['b', 'a', 'c', 'k']
}

/// The stacking lines of the grid: with six inputs two rows of three,
/// otherwise the first four inputs in two rows of two.
pub open spec fn stack_lines(n: nat) -> Seq<Seq<char>> {
    if n >= 6 {
        seq![
            "[v0][v1][v2]hstack=inputs=3[top]"@,
            "[v3][v4][v5]hstack=inputs=3[bottom]"@,
            "[top][bottom]vstack=inputs=2[out]"@,
        ]
    } else {
        seq![
            "[v0][v1]hstack=inputs=2[top]"@,
            "[v2][v3]hstack=inputs=2[bottom]"@,
            "[top][bottom]vstack=inputs=2[out]"@,
        ]
    }
}

/// The grid of a surround-view export of `inputs` (camera and path, in
/// layout order, as `export_inputs` gives them): the number of columns,
/// which inputs are mirrored, and the lines that stack them.
pub fn export_layout(inputs: &Vec<(String, String)>) -> (r: ExportLayout)
    ensures
        r.columns == layout_columns(inputs@.len()),
        r.mirrored@ == pair_views(inputs@).map_values(|p: (Seq<char>, Seq<char>)| is_mirrored_camera(p.0)),
        r.stack@.map_values(|s: String| s@) == stack_lines(inputs@.len()),
{
    proof {
        reveal_strlit("back");
        assert("back"@ =~= seq!['b', 'a', 'c', 'k']);
    }
    let n = inputs.len();
    let ghost pv = pair_views(inputs@);
    let mut mirrored: Vec<bool> = Vec::new();
    let mut i: usize = 0;
    while i < n
        invariant
            i <= n,
            n == inputs@.len(),
            pv == pair_views(inputs@),
            "back"@ == seq!['b', 'a', 'c', 'k'],
            mirrored@ == pv.take(i as int).map_values(|p: (Seq<char>, Seq<char>)| is_mirrored_camera(p.0)),
        decreases n - i,
    {
        let m = crate::scanner::same_chars(inputs[i].0.as_str(), "back");
        mirrored.push(m);
        proof {
            assert(pv[i as int] == (inputs@[i as int].0@, inputs@[i as int].1@));
            assert(pv.take(i + 1).map_values(|p: (Seq<char>, Seq<char>)| is_mirrored_camera(p.0))
                =~= pv.take(i as int).map_values(|p: (Seq<char>, Seq<char>)| is_mirrored_camera(p.0)).push(m));
        }
        i = i + 1;
    }
    proof {
        assert(pv.take(n as int) =~= pv);
    }
    let mut stack: Vec<String> = Vec::new();
    let columns: u32 = if n >= 6 {
        stack.push("[v0][v1][v2]hstack=inputs=3[top]".to_owned());
        stack.push("[v3][v4][v5]hstack=inputs=3[bottom]".to_owned());
        3
    } else {
        stack.push("[v0][v1]hstack=inputs=2[top]".to_owned());
        stack.push("[v2][v3]hstack=inputs=2[bottom]".to_owned());
        2
    };
    stack.push("[top][bottom]vstack=inputs=2[out]".to_owned());
    proof {
        assert(stack@.map_values(|s: String| s@) =~= stack_lines(n as nat));
    }
    ExportLayout { columns, mirrored, stack }
}

} // verus!
