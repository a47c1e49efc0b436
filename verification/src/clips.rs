//! Organising the clip files found under a TeslaCam folder into events:
//! clips are grouped by event folder and by timestamp, and recent driving
//! clips are split into sessions at gaps of more than 65 seconds.
use vstd::prelude::*;
use crate::text::{lex_lt, chars_lt, chars_of, concat_str, contains_seq, contains_chars, ends_with_seq, ends_with_chars, lemma_lex_irreflexive, lemma_lex_total, lemma_lex_transitive};
use crate::scanner::{EventKind, clip_name_parts, parse_clip_filename};

verus! {

/// One clip file: its camera, its path and its size in bytes.
pub struct ClipFile {
    pub camera: String,
    pub path: String,
    pub size: u64,
}

/// The clips recorded at one timestamp (one per camera).
pub struct Segment {
    pub timestamp: String,
    pub clips: Vec<ClipFile>,
}

/// The segments of one event folder (or of all recent clips), by timestamp.
pub struct ClipGroup {
    pub key: String,
    pub segments: Vec<Segment>,
}

/// The camera, path and size of a clip, as plain values.
pub type ClipView = (Seq<char>, Seq<char>, u64);

/// The camera, path and size of a clip.
pub open spec fn clip_view(c: ClipFile) -> ClipView {
    (c.camera@, c.path@, c.size)
}

pub open spec fn clip_views(s: Seq<ClipFile>) -> Seq<ClipView> {
    s.map_values(|c: ClipFile| clip_view(c))
}

/// An accepted clip: its group key, its timestamp and its camera, path and size.
pub type ClipEntry = (Seq<char>, Seq<char>, (Seq<char>, Seq<char>, u64));

pub open spec fn has_key_ts(k: Seq<char>, t: Seq<char>) -> spec_fn(ClipEntry) -> bool {
    |e: ClipEntry| e.0 == k && e.1 == t
}

pub open spec fn entry_clip() -> spec_fn(ClipEntry) -> (Seq<char>, Seq<char>, u64) {
    |e: ClipEntry| e.2
}

/// The clips of `a` with group key `k` and timestamp `t`, in the order of `a`.
pub open spec fn entries_for(a: Seq<ClipEntry>, k: Seq<char>, t: Seq<char>) -> Seq<(Seq<char>, Seq<char>, u64)> {
    a.filter(has_key_ts(k, t)).map_values(entry_clip())
}

/// The timestamp of segment `s`.
pub open spec fn seg_tsv(segs: Seq<Segment>, s: int) -> Seq<char> {
    segs[s].timestamp@
}

/// The clips of segment `s`.
pub open spec fn seg_cv(segs: Seq<Segment>, s: int) -> Seq<ClipView> {
    clip_views(segs[s].clips@)
}

/// The segments are in strictly increasing timestamp order.
pub open spec fn segs_sorted(segs: Seq<Segment>) -> bool {
    forall|s: int, t: int|
        0 <= s < t < segs.len() ==> lex_lt(#[trigger] seg_tsv(segs, s), #[trigger] seg_tsv(segs, t))
}

/// `grp` holds, for its key, one segment per timestamp in increasing order,
/// each with the accepted clips of that key and timestamp, in order.
pub open spec fn group_ok(a: Seq<ClipEntry>, grp: ClipGroup) -> bool {
    let segs = grp.segments@;
    &&& segs.len() > 0
    &&& segs_sorted(segs)
    &&& forall|s: int|
        0 <= s < segs.len() ==> #[trigger] seg_cv(segs, s) == entries_for(a, grp.key@, seg_tsv(segs, s))
            && seg_cv(segs, s).len() > 0
}

/// `gs` holds exactly the accepted clips `a`: one group per key, with
/// distinct keys, each as `group_ok` says, and every accepted clip has the
/// segment of its key and timestamp.
pub open spec fn groups_match(a: Seq<ClipEntry>, gs: Seq<ClipGroup>) -> bool {
    &&& forall|g: int, h: int| 0 <= g < h < gs.len() ==> gs[g].key@ != gs[h].key@
    &&& forall|g: int| 0 <= g < gs.len() ==> group_ok(a, #[trigger] gs[g])
    &&& forall|i: int|
        0 <= i < a.len() ==> exists|g: int, s: int|
            0 <= g < gs.len() && 0 <= s < gs[g].segments@.len() && gs[g].key@ == (#[trigger] a[i]).0
                && seg_tsv(gs[g].segments@, s) == a[i].1
}

proof fn lemma_entries_for_push(a: Seq<ClipEntry>, e: ClipEntry, k: Seq<char>, t: Seq<char>)
    ensures
        entries_for(a.push(e), k, t) == (if e.0 == k && e.1 == t {
            entries_for(a, k, t).push(e.2)
        } else {
            entries_for(a, k, t)
        }),
{
    let p = has_key_ts(k, t);
    a.lemma_filter_push(e, p);
    let f = entry_clip();
    if p(e) {
        assert(a.filter(p).push(e).map_values(f) =~= a.filter(p).map_values(f).push(e.2));
    }
}

proof fn lemma_filter_none<A>(a: Seq<A>, p: spec_fn(A) -> bool)
    requires
        forall|i: int| 0 <= i < a.len() ==> !p(#[trigger] a[i]),
    ensures
        a.filter(p).len() == 0,
    decreases a.len(),
{
    reveal(Seq::filter);
    if a.len() > 0 {
        assert forall|i: int| 0 <= i < a.drop_last().len() implies !p(#[trigger] a.drop_last()[i]) by {
            assert(a.drop_last()[i] == a[i]);
        }
        lemma_filter_none(a.drop_last(), p);
        assert(!p(a[a.len() - 1]));
    }
}

/// No accepted clip has key `k` and timestamp `t`, so no clip is listed for them.
proof fn lemma_entries_for_empty(a: Seq<ClipEntry>, k: Seq<char>, t: Seq<char>)
    requires
        forall|i: int| 0 <= i < a.len() ==> !((#[trigger] a[i]).0 == k && a[i].1 == t),
    ensures
        entries_for(a, k, t).len() == 0,
{
    let p = has_key_ts(k, t);
    assert forall|i: int| 0 <= i < a.len() implies !p(#[trigger] a[i]) by {}
    lemma_filter_none(a, p);
}


/// The index of the group with key `key`, if any.
fn find_group(groups: &Vec<ClipGroup>, key: &String) -> (r: Option<usize>)
    ensures
        r matches Some(g) ==> g < groups@.len() && groups@[g as int].key@ == key@,
        r is None ==> forall|h: int| 0 <= h < groups@.len() ==> groups@[h].key@ != key@,
{
    let n = groups.len();
    let mut g: usize = 0;
    while g < n
        invariant
            n == groups@.len(),
            g <= n,
            forall|h: int| 0 <= h < g ==> groups@[h].key@ != key@,
        decreases n - g,
    {
        if groups[g].key == *key {
            return Some(g);
        }
        g = g + 1;
    }
    None
}

/// Where a segment with timestamp `t` belongs: every segment from the result
/// on comes after `t`, and the one just before it (if any) does not.
fn find_slot(segs: &Vec<Segment>, t: &Vec<char>) -> (r: usize)
    ensures
        r <= segs@.len(),
        forall|s: int| r <= s < segs@.len() ==> lex_lt(t@, #[trigger] segs@[s].timestamp@),
        r > 0 ==> !lex_lt(t@, segs@[r - 1].timestamp@),
{
    let mut j = segs.len();
    while j > 0
        invariant
            j <= segs@.len(),
            forall|s: int| j <= s < segs@.len() ==> lex_lt(t@, #[trigger] segs@[s].timestamp@),
        decreases j,
    {
        let prev = chars_of(segs[j - 1].timestamp.as_str());
        if !chars_lt(t.as_slice(), prev.as_slice()) {
            return j;
        }
        j = j - 1;
    }
    j
}

/// The sum of the weights `w(0) .. w(k - 1)`.
pub open spec fn sum_first(w: spec_fn(int) -> nat, k: int) -> nat
    decreases k,
{
    if k <= 0 {
        0
    } else {
        sum_first(w, k - 1) + w(k - 1)
    }
}

/// The number of clips in the segments `segs`.
pub open spec fn segs_clip_count(segs: Seq<Segment>) -> nat {
    sum_first(|s: int| seg_cv(segs, s).len(), segs.len() as int)
}

/// The number of clips in all the groups `gs`.
pub open spec fn groups_clip_count(gs: Seq<ClipGroup>) -> nat {
    sum_first(|g: int| segs_clip_count(gs[g].segments@), gs.len() as int)
}

/// Weights that agree below `n` but for one more at `j` sum to one more.
proof fn lemma_sum_one_more(w1: spec_fn(int) -> nat, w2: spec_fn(int) -> nat, j: int, n: int)
    requires
        0 <= j < n,
        forall|i: int| 0 <= i < n && i != j ==> #[trigger] w2(i) == w1(i),
        w2(j) == w1(j) + 1,
    ensures
        sum_first(w2, n) == sum_first(w1, n) + 1,
    decreases n,
{
    if n - 1 > j {
        lemma_sum_one_more(w1, w2, j, n - 1);
    } else {
        lemma_sum_same(w1, w2, n - 1);
    }
}

proof fn lemma_sum_same(w1: spec_fn(int) -> nat, w2: spec_fn(int) -> nat, n: int)
    requires
        forall|i: int| 0 <= i < n ==> #[trigger] w2(i) == w1(i),
    ensures
        sum_first(w2, n) == sum_first(w1, n),
    decreases n,
{
    if n > 0 {
        lemma_sum_same(w1, w2, n - 1);
    }
}

/// Inserting a weight of one at `j` adds one to the sum.
proof fn lemma_sum_insert_one(w1: spec_fn(int) -> nat, w2: spec_fn(int) -> nat, j: int, n: int)
    requires
        0 <= j <= n,
        forall|i: int| 0 <= i < j ==> #[trigger] w2(i) == w1(i),
        w2(j) == 1,
        forall|i: int| j < i <= n ==> #[trigger] w2(i) == w1(i - 1),
    ensures
        sum_first(w2, n + 1) == sum_first(w1, n) + 1,
    decreases n,
{
    if n > j {
        lemma_sum_insert_one(w1, w2, j, n - 1);
    } else {
        lemma_sum_same(w1, w2, n);
    }
}

/// `new` is `old` with the clip `cv` of timestamp `t` added at segment `j`:
/// appended to that segment's clips where `merged`, else in a new segment
/// inserted at `j`.
pub open spec fn segs_added(
    old: Seq<Segment>,
    new: Seq<Segment>,
    t: Seq<char>,
    cv: ClipView,
    j: int,
    merged: bool,
) -> bool {
    &&& 0 <= j < new.len()
    &&& seg_tsv(new, j) == t
    &&& merged ==> {
        &&& new.len() == old.len()
        &&& forall|s: int| 0 <= s < old.len() ==> #[trigger] seg_tsv(new, s) == seg_tsv(old, s)
        &&& forall|s: int| 0 <= s < old.len() && s != j ==> #[trigger] seg_cv(new, s) == seg_cv(old, s)
        &&& seg_cv(new, j) == seg_cv(old, j).push(cv)
    }
    &&& !merged ==> {
        &&& new.len() == old.len() + 1
        &&& forall|s: int| 0 <= s < old.len() ==> #[trigger] seg_tsv(old, s) != t
        &&& forall|s: int|
            0 <= s < j ==> #[trigger] seg_tsv(new, s) == seg_tsv(old, s) && seg_cv(new, s) == seg_cv(old, s)
        &&& forall|s: int|
            j < s < new.len() ==> #[trigger] seg_tsv(new, s) == seg_tsv(old, s - 1) && seg_cv(new, s)
                == seg_cv(old, s - 1)
        &&& seg_cv(new, j) == seq![cv]
    }
}

/// Adds `clip` (timestamp `ts`, whose characters are `ts_chars`) to the
/// segment with that timestamp, or to a new segment put in its place in
/// timestamp order. Returns the segment's index and whether it existed.
fn add_to_segments(segs: &mut Vec<Segment>, ts: &String, ts_chars: &Vec<char>, clip: ClipFile) -> (r: (
    usize,
    bool,
))
    requires
        segs_sorted(old(segs)@),
        ts_chars@ == ts@,
    ensures
        segs_sorted(final(segs)@),
        segs_added(old(segs)@, final(segs)@, ts@, clip_view(clip), r.0 as int, r.1),
        segs_clip_count(final(segs)@) == segs_clip_count(old(segs)@) + 1,
{
    let ghost old_segs = segs@;
    let ghost cv = clip_view(clip);
    let j = find_slot(segs, ts_chars);
    if j > 0 && segs[j - 1].timestamp == *ts {
        let k = j - 1;
        let mut seg = segs.remove(k);
        let ghost seg0 = seg;
        seg.clips.push(clip);
        segs.insert(k, seg);
        proof {
            let new_segs = segs@;
            assert(new_segs =~= old_segs.update(k as int, seg));
            assert(clip_views(seg.clips@) =~= clip_views(seg0.clips@).push(cv));
            assert forall|s: int| 0 <= s < old_segs.len() implies #[trigger] seg_tsv(new_segs, s)
                == seg_tsv(old_segs, s) by {}
            assert forall|p: int, q: int| 0 <= p < q < new_segs.len() implies lex_lt(
                #[trigger] seg_tsv(new_segs, p),
                #[trigger] seg_tsv(new_segs, q),
            ) by {
                assert(seg_tsv(new_segs, p) == seg_tsv(old_segs, p));
                assert(seg_tsv(new_segs, q) == seg_tsv(old_segs, q));
            }
            lemma_sum_one_more(
                |s: int| seg_cv(old_segs, s).len(),
                |s: int| seg_cv(new_segs, s).len(),
                k as int,
                old_segs.len() as int,
            );
        }
        (k, true)
    } else {
        let ghost t = ts@;
        proof {
            lemma_slot_before(old_segs, t, j as int);
        }
        let seg = Segment { timestamp: ts.clone(), clips: vec![clip] };
        segs.insert(j, seg);
        proof {
            let new_segs = segs@;
            assert(new_segs =~= old_segs.insert(j as int, seg));
            assert(clip_views(seg.clips@) =~= seq![cv]);
            assert forall|s: int| 0 <= s < old_segs.len() implies #[trigger] seg_tsv(old_segs, s) != t by {
                if s < j {
                    lemma_lex_irreflexive(t);
                } else {
                    lemma_lex_irreflexive(t);
                }
            }
            assert forall|p: int, q: int| 0 <= p < q < new_segs.len() implies lex_lt(
                #[trigger] seg_tsv(new_segs, p),
                #[trigger] seg_tsv(new_segs, q),
            ) by {
                if q < j {
                    assert(seg_tsv(old_segs, p) == seg_tsv(new_segs, p));
                    assert(seg_tsv(old_segs, q) == seg_tsv(new_segs, q));
                } else if q == j {
                    assert(seg_tsv(old_segs, p) == seg_tsv(new_segs, p));
                } else if p < j {
                    assert(seg_tsv(old_segs, p) == seg_tsv(new_segs, p));
                    assert(seg_tsv(old_segs, q - 1) == seg_tsv(new_segs, q));
                } else if p == j {
                    assert(seg_tsv(old_segs, q - 1) == seg_tsv(new_segs, q));
                } else {
                    assert(seg_tsv(old_segs, p - 1) == seg_tsv(new_segs, p));
                    assert(seg_tsv(old_segs, q - 1) == seg_tsv(new_segs, q));
                }
            }
            lemma_sum_insert_one(
                |s: int| seg_cv(old_segs, s).len(),
                |s: int| seg_cv(new_segs, s).len(),
                j as int,
                old_segs.len() as int,
            );
        }
        (j, false)
    }
}

/// Where `find_slot` gave `j` and the segment before it has another
/// timestamp, every segment before `j` comes before `t` and every segment
/// from `j` on comes after it.
proof fn lemma_slot_before(segs: Seq<Segment>, t: Seq<char>, j: int)
    requires
        segs_sorted(segs),
        0 <= j <= segs.len(),
        forall|s: int| j <= s < segs.len() ==> lex_lt(t, #[trigger] segs[s].timestamp@),
        j > 0 ==> !lex_lt(t, segs[j - 1].timestamp@) && segs[j - 1].timestamp@ != t,
    ensures
        forall|s: int| 0 <= s < j ==> lex_lt(#[trigger] seg_tsv(segs, s), t),
        forall|s: int| j <= s < segs.len() ==> lex_lt(t, #[trigger] seg_tsv(segs, s)),
{
    if j > 0 {
        lemma_lex_total(segs[j - 1].timestamp@, t);
        assert forall|s: int| 0 <= s < j implies lex_lt(#[trigger] seg_tsv(segs, s), t) by {
            if s < j - 1 {
                assert(lex_lt(seg_tsv(segs, s), seg_tsv(segs, j - 1)));
                lemma_lex_transitive(seg_tsv(segs, s), seg_tsv(segs, j - 1), t);
            }
        }
    }
    assert forall|s: int| j <= s < segs.len() implies lex_lt(t, #[trigger] seg_tsv(segs, s)) by {
        assert(lex_lt(t, segs[s].timestamp@));
    }
}

/// A clip of another key leaves a group as it was.
proof fn lemma_group_ok_other(a: Seq<ClipEntry>, e: ClipEntry, grp: ClipGroup)
    requires
        group_ok(a, grp),
        grp.key@ != e.0,
    ensures
        group_ok(a.push(e), grp),
{
    let segs = grp.segments@;
    assert forall|s: int| 0 <= s < segs.len() implies #[trigger] seg_cv(segs, s) == entries_for(
        a.push(e),
        grp.key@,
        seg_tsv(segs, s),
    ) && seg_cv(segs, s).len() > 0 by {
        lemma_entries_for_push(a, e, grp.key@, seg_tsv(segs, s));
    }
}

/// Where no segment of key `k` has timestamp `t`, no accepted clip has them.
proof fn lemma_absent(a: Seq<ClipEntry>, gs: Seq<ClipGroup>, k: Seq<char>, t: Seq<char>)
    requires
        groups_match(a, gs),
        forall|g: int, s: int|
            0 <= g < gs.len() && 0 <= s < gs[g].segments@.len() && gs[g].key@ == k ==> seg_tsv(
                gs[g].segments@,
                s,
            ) != t,
    ensures
        entries_for(a, k, t) == Seq::<ClipView>::empty(),
{
    assert forall|i: int| 0 <= i < a.len() implies !((#[trigger] a[i]).0 == k && a[i].1 == t) by {
        if a[i].0 == k && a[i].1 == t {
            let (g2, s2) = choose|g2: int, s2: int|
                0 <= g2 < gs.len() && 0 <= s2 < gs[g2].segments@.len() && gs[g2].key@ == (
                #[trigger] a[i]).0 && seg_tsv(gs[g2].segments@, s2) == a[i].1;
        }
    }
    lemma_entries_for_empty(a, k, t);
    assert(entries_for(a, k, t) =~= Seq::<ClipView>::empty());
}

/// Adding a group for a new key, with the one new clip, keeps the grouping exact.
proof fn lemma_new_group(a: Seq<ClipEntry>, e: ClipEntry, gs0: Seq<ClipGroup>, gs: Seq<ClipGroup>)
    requires
        groups_match(a, gs0),
        forall|h: int| 0 <= h < gs0.len() ==> gs0[h].key@ != e.0,
        gs.len() == gs0.len() + 1,
        forall|h: int| 0 <= h < gs0.len() ==> gs[h] == gs0[h],
        gs[gs0.len() as int].key@ == e.0,
        gs[gs0.len() as int].segments@.len() == 1,
        seg_tsv(gs[gs0.len() as int].segments@, 0) == e.1,
        seg_cv(gs[gs0.len() as int].segments@, 0) == seq![e.2],
    ensures
        groups_match(a.push(e), gs),
{
    let a2 = a.push(e);
    let ng = gs0.len() as int;
    assert forall|g: int| 0 <= g < gs.len() implies group_ok(a2, #[trigger] gs[g]) by {
        if g < ng {
            assert(gs[g] == gs0[g]);
            lemma_group_ok_other(a, e, gs0[g]);
        } else {
            let segs = gs[g].segments@;
            lemma_absent(a, gs0, e.0, e.1);
            lemma_entries_for_push(a, e, e.0, e.1);
            assert(entries_for(a, e.0, e.1).push(e.2) =~= seq![e.2]);
            assert forall|s: int| 0 <= s < segs.len() implies #[trigger] seg_cv(segs, s) == entries_for(
                a2,
                gs[g].key@,
                seg_tsv(segs, s),
            ) && seg_cv(segs, s).len() > 0 by {}
        }
    }
    assert forall|i: int| 0 <= i < a2.len() implies exists|g: int, s: int|
        0 <= g < gs.len() && 0 <= s < gs[g].segments@.len() && gs[g].key@ == (#[trigger] a2[i]).0
            && seg_tsv(gs[g].segments@, s) == a2[i].1 by {
        if i == a.len() {
            assert(seg_tsv(gs[ng].segments@, 0) == a2[i].1);
        } else {
            assert(a2[i] == a[i]);
            let (g2, s2) = choose|g2: int, s2: int|
                0 <= g2 < gs0.len() && 0 <= s2 < gs0[g2].segments@.len() && gs0[g2].key@ == (
                #[trigger] a[i]).0 && seg_tsv(gs0[g2].segments@, s2) == a[i].1;
            assert(gs[g2] == gs0[g2]);
        }
    }
    assert forall|g: int, h: int| 0 <= g < h < gs.len() implies gs[g].key@ != gs[h].key@ by {
        assert(gs[g] == gs0[g]);
        if h < ng {
            assert(gs[h] == gs0[h]);
        }
    }
}

/// Adding the new clip to the group of its key, as `segs_added` says, keeps
/// the grouping exact.
proof fn lemma_grown_group(
    a: Seq<ClipEntry>,
    e: ClipEntry,
    gs0: Seq<ClipGroup>,
    gs: Seq<ClipGroup>,
    gi: int,
    j: int,
    merged: bool,
)
    requires
        groups_match(a, gs0),
        0 <= gi < gs0.len(),
        gs0[gi].key@ == e.0,
        gs.len() == gs0.len(),
        forall|h: int| 0 <= h < gs0.len() && h != gi ==> gs[h] == gs0[h],
        gs[gi].key@ == e.0,
        segs_sorted(gs[gi].segments@),
        segs_added(gs0[gi].segments@, gs[gi].segments@, e.1, e.2, j, merged),
    ensures
        groups_match(a.push(e), gs),
{
    let a2 = a.push(e);
    let old_segs = gs0[gi].segments@;
    let new_segs = gs[gi].segments@;
    assert(group_ok(a, gs0[gi]));
    if !merged {
        assert forall|g: int, s: int|
            0 <= g < gs0.len() && 0 <= s < gs0[g].segments@.len() && gs0[g].key@ == e.0 implies seg_tsv(
            gs0[g].segments@,
            s,
        ) != e.1 by {
            if g != gi {
                if g < gi {
                    assert(gs0[g].key@ != gs0[gi].key@);
                } else {
                    assert(gs0[gi].key@ != gs0[g].key@);
                }
            }
        }
        lemma_absent(a, gs0, e.0, e.1);
    }
    lemma_entries_for_push(a, e, e.0, e.1);
    assert forall|g: int| 0 <= g < gs.len() implies group_ok(a2, #[trigger] gs[g]) by {
        if g != gi {
            assert(gs[g] == gs0[g]);
            assert(group_ok(a, gs0[g]));
            if g < gi {
                assert(gs0[g].key@ != gs0[gi].key@);
            } else {
                assert(gs0[gi].key@ != gs0[g].key@);
            }
            lemma_group_ok_other(a, e, gs0[g]);
        } else {
            assert forall|s: int| 0 <= s < new_segs.len() implies #[trigger] seg_cv(new_segs, s)
                == entries_for(a2, e.0, seg_tsv(new_segs, s)) && seg_cv(new_segs, s).len() > 0 by {
                lemma_entries_for_push(a, e, e.0, seg_tsv(new_segs, s));
                if s == j {
                    if !merged {
                        assert(entries_for(a, e.0, e.1).push(e.2) =~= seq![e.2]);
                    }
                } else if merged {
                    assert(seg_tsv(new_segs, s) == seg_tsv(old_segs, s));
                    assert(seg_cv(new_segs, s) == seg_cv(old_segs, s));
                    assert(seg_tsv(old_segs, s) != seg_tsv(old_segs, j)) by {
                        if s < j {
                            assert(lex_lt(seg_tsv(old_segs, s), seg_tsv(old_segs, j)));
                        } else {
                            assert(lex_lt(seg_tsv(old_segs, j), seg_tsv(old_segs, s)));
                        }
                        lemma_lex_irreflexive(seg_tsv(old_segs, s));
                    }
                } else if s < j {
                    assert(seg_tsv(new_segs, s) == seg_tsv(old_segs, s));
                    assert(seg_cv(new_segs, s) == seg_cv(old_segs, s));
                } else {
                    assert(seg_tsv(new_segs, s) == seg_tsv(old_segs, s - 1));
                    assert(seg_cv(new_segs, s) == seg_cv(old_segs, s - 1));
                }
            }
        }
    }
    assert forall|i: int| 0 <= i < a2.len() implies exists|g: int, s: int|
        0 <= g < gs.len() && 0 <= s < gs[g].segments@.len() && gs[g].key@ == (#[trigger] a2[i]).0
            && seg_tsv(gs[g].segments@, s) == a2[i].1 by {
        if i == a.len() {
            assert(seg_tsv(gs[gi].segments@, j) == a2[i].1);
        } else {
            assert(a2[i] == a[i]);
            let (g2, s2) = choose|g2: int, s2: int|
                0 <= g2 < gs0.len() && 0 <= s2 < gs0[g2].segments@.len() && gs0[g2].key@ == (
                #[trigger] a[i]).0 && seg_tsv(gs0[g2].segments@, s2) == a[i].1;
            if g2 != gi {
                assert(gs[g2] == gs0[g2]);
            } else if merged || s2 < j {
                assert(seg_tsv(new_segs, s2) == seg_tsv(old_segs, s2));
            } else {
                assert(seg_tsv(new_segs, s2 + 1) == seg_tsv(old_segs, s2));
            }
        }
    }
    assert forall|g: int, h: int| 0 <= g < h < gs.len() implies gs[g].key@ != gs[h].key@ by {
        assert(gs0[g].key@ != gs0[h].key@);
        if g != gi {
            assert(gs[g] == gs0[g]);
        }
        if h != gi {
            assert(gs[h] == gs0[h]);
        }
    }
}

/// Adds the accepted clip `clip` with group key `key` and timestamp `ts`
/// (whose characters are `ts_chars`) to `groups`.
fn add_clip(
    groups: &mut Vec<ClipGroup>,
    key: &String,
    ts: &String,
    ts_chars: &Vec<char>,
    clip: ClipFile,
    Ghost(a): Ghost<Seq<ClipEntry>>,
)
    requires
        groups_match(a, old(groups)@),
        ts_chars@ == ts@,
    ensures
        groups_match(a.push((key@, ts@, clip_view(clip))), final(groups)@),
        groups_clip_count(final(groups)@) == groups_clip_count(old(groups)@) + 1,
{
    let ghost e: ClipEntry = (key@, ts@, clip_view(clip));
    let ghost gs0 = groups@;
    match find_group(groups, key) {
        None => {
            let seg = Segment { timestamp: ts.clone(), clips: vec![clip] };
            let ghost seg_v = seg;
            groups.push(ClipGroup { key: key.clone(), segments: vec![seg] });
            proof {
                assert(clip_views(seg_v.clips@) =~= seq![e.2]);
                lemma_new_group(a, e, gs0, groups@);
                let gs = groups@;
                assert(segs_clip_count(gs[gs0.len() as int].segments@) == 1) by {
                    let w = |s: int| seg_cv(gs[gs0.len() as int].segments@, s).len();
                    assert(sum_first(w, 0) == 0);
                }
                lemma_sum_insert_one(
                    |g: int| segs_clip_count(gs0[g].segments@),
                    |g: int| segs_clip_count(gs[g].segments@),
                    gs0.len() as int,
                    gs0.len() as int,
                );
            }
        },
        Some(gi) => {
            let mut grp = groups.remove(gi);
            proof {
                assert(group_ok(a, grp));
            }
            let r = add_to_segments(&mut grp.segments, ts, ts_chars, clip);
            let ghost grp_v = grp;
            groups.insert(gi, grp);
            proof {
                assert(groups@ =~= gs0.update(gi as int, grp_v));
                lemma_grown_group(a, e, gs0, groups@, gi as int, r.0 as int, r.1);
                let gs = groups@;
                lemma_sum_one_more(
                    |g: int| segs_clip_count(gs0[g].segments@),
                    |g: int| segs_clip_count(gs[g].segments@),
                    gi as int,
                    gs0.len() as int,
                );
            }
        },
    }
}

/// A file that the walk of the TeslaCam folder found: its path, its file
/// name (where the platform gives one as text), whether it is a regular
/// file, its size in bytes (0 where it could not be read), the event kind of
/// its top folder and the folder it lies in.
pub struct WalkedFile {
    pub path: String,
    pub file_name: Option<String>,
    pub is_file: bool,
    pub size: u64,
    pub kind: EventKind,
    pub parent_dir: String,
}

/// What the walk collected: the clips grouped by event folder and
/// timestamp, the file names that could not be read, and the number and
/// total size of the clips.
pub struct CollectedClips {
    pub groups: Vec<ClipGroup>,
    pub errors: Vec<String>,
    pub total_clips: usize,
    pub total_size: u64,
}

/// "EncryptedClips": files under such a folder are left out.
pub open spec fn encrypted_marker() -> Seq<char> {
    seq!['E', 'n', 'c', 'r', 'y', 'p', 't', 'e', 'd', 'C', 'l', 'i', 'p', 's']
}

pub open spec fn mp4_suffix() -> Seq<char> {
    seq!['.', 'm', 'p', '4']
}

/// "recent::all": the one group key of all recent driving clips.
pub open spec fn recent_all_key() -> Seq<char> {
    seq!['r', 'e', 'c', 'e', 'n', 't', ':', ':', 'a', 'l', 'l']
}

/// "無法解析檔名: " ("cannot parse file name: "), before the file name in an error.
pub open spec fn bad_name_prefix() -> Seq<char> {
    seq!['無', '法', '解', '析', '檔', '名', ':', ' ']
}

/// A regular `.mp4` file with a name, outside any "EncryptedClips" folder.
pub open spec fn is_candidate(f: WalkedFile) -> bool {
    &&& !contains_seq(f.path@, encrypted_marker())
    &&& f.is_file
    &&& f.file_name is Some
    &&& ends_with_seq(f.file_name->0@, mp4_suffix())
}

/// The group of a clip: "recent::all" for recent driving, else its folder.
pub open spec fn group_key(f: WalkedFile) -> Seq<char> {
    if f.kind == EventKind::Recent {
        recent_all_key()
    } else {
        f.parent_dir@
    }
}

/// The clip that file `f` gives, if it is a candidate whose name reads as a clip name.
pub open spec fn clip_entry_of(f: WalkedFile) -> Option<ClipEntry> {
    if is_candidate(f) {
        match clip_name_parts(f.file_name->0@) {
            Some((ts, cam)) => Some((group_key(f), ts, (cam, f.path@, f.size))),
            None => None,
        }
    } else {
        None
    }
}

/// The error that file `f` gives: a candidate whose name does not read as a clip name.
pub open spec fn name_error_of(f: WalkedFile) -> Option<Seq<char>> {
    if is_candidate(f) && clip_name_parts(f.file_name->0@) is None {
        Some(bad_name_prefix() + f.file_name->0@)
    } else {
        None
    }
}

/// The clips of `files`, in walk order.
pub open spec fn accepted_entries(files: Seq<WalkedFile>) -> Seq<ClipEntry>
    decreases files.len(),
{
    if files.len() == 0 {
        Seq::empty()
    } else {
        let prev = accepted_entries(files.drop_last());
        match clip_entry_of(files.last()) {
            Some(e) => prev.push(e),
            None => prev,
        }
    }
}

/// The file-name errors of `files`, in walk order.
pub open spec fn name_errors(files: Seq<WalkedFile>) -> Seq<Seq<char>>
    decreases files.len(),
{
    if files.len() == 0 {
        Seq::empty()
    } else {
        let prev = name_errors(files.drop_last());
        match name_error_of(files.last()) {
            Some(m) => prev.push(m),
            None => prev,
        }
    }
}

/// The sum of the sizes of the clips `a`.
pub open spec fn size_sum(a: Seq<ClipEntry>) -> nat
    decreases a.len(),
{
    if a.len() == 0 {
        0
    } else {
        size_sum(a.drop_last()) + a.last().2.2 as nat
    }
}

pub open spec fn string_views(v: Seq<String>) -> Seq<Seq<char>> {
    v.map_values(|s: String| s@)
}

proof fn lemma_wrapping_sum(x: nat, t: u64, y: u64)
    requires
        t == x % 0x1_0000_0000_0000_0000,
    ensures
        vstd::wrapping::u64_specs::wrapping_add(t, y) == (x + y) % 0x1_0000_0000_0000_0000,
{
    let m: int = 0x1_0000_0000_0000_0000;
    vstd::arithmetic::div_mod::lemma_add_mod_noop(x as int, y as int, m);
    vstd::arithmetic::div_mod::lemma_small_mod(y as nat, m as nat);
    if t + y < m {
        vstd::arithmetic::div_mod::lemma_small_mod((t + y) as nat, m as nat);
    } else {
        vstd::arithmetic::div_mod::lemma_small_mod((t + y - m) as nat, m as nat);
        vstd::arithmetic::div_mod::lemma_mod_add_multiples_vanish(t + y - m, m);
    }
}

/// Sorts the files that the walk of a TeslaCam folder found into clips,
/// grouped by event folder (all recent driving clips in one group) and by
/// timestamp, and collects an error for each `.mp4` file whose name is not
/// a clip name.  Every accepted clip lands in the one segment of its folder
/// and timestamp, and the groups hold as many clips as were accepted.  The total size wraps around at 2^64, as `u64` addition
/// does in a release build.
pub fn collect_clips(files: &Vec<WalkedFile>) -> (r: CollectedClips)
    ensures
        groups_match(accepted_entries(files@), r.groups@),
        groups_clip_count(r.groups@) == r.total_clips,
        string_views(r.errors@) == name_errors(files@),
        r.total_clips == accepted_entries(files@).len(),
        r.total_size == size_sum(accepted_entries(files@)) % 0x1_0000_0000_0000_0000,
{
    proof {
        reveal_strlit("EncryptedClips");
        reveal_strlit(".mp4");
        reveal_strlit("recent::all");
        reveal_strlit("無法解析檔名: ");
        assert("EncryptedClips"@ =~= encrypted_marker());
        assert(".mp4"@ =~= mp4_suffix());
        assert("recent::all"@ =~= recent_all_key());
        assert("無法解析檔名: "@ =~= bad_name_prefix());
    }
    let marker = chars_of("EncryptedClips");
    let suffix = chars_of(".mp4");
    let mut groups: Vec<ClipGroup> = Vec::new();
    let mut errors: Vec<String> = Vec::new();
    let mut total_clips: usize = 0;
    let mut total_size: u64 = 0;
    let n = files.len();
    let mut i: usize = 0;
    proof {
        assert(files@.take(0) =~= Seq::<WalkedFile>::empty());
        assert(string_views(errors@) =~= Seq::<Seq<char>>::empty());
    }
    while i < n
        invariant
            n == files@.len(),
            i <= n,
            marker@ == encrypted_marker(),
            suffix@ == mp4_suffix(),
            "recent::all"@ == recent_all_key(),
            "無法解析檔名: "@ == bad_name_prefix(),
            groups_match(accepted_entries(files@.take(i as int)), groups@),
            groups_clip_count(groups@) == total_clips,
            string_views(errors@) == name_errors(files@.take(i as int)),
            total_clips == accepted_entries(files@.take(i as int)).len(),
            total_clips <= i,
            total_size == size_sum(accepted_entries(files@.take(i as int))) % 0x1_0000_0000_0000_0000,
        decreases n - i,
    {
        let f = &files[i];
        let ghost prefix = files@.take(i as int);
        let ghost next = files@.take(i + 1);
        let ghost a = accepted_entries(prefix);
        proof {
            assert(next.drop_last() =~= prefix);
            assert(next.last() == *f);
        }
        let path_chars = chars_of(f.path.as_str());
        if !contains_chars(path_chars.as_slice(), marker.as_slice()) && f.is_file {
            match &f.file_name {
                Some(name) => {
                    let name_chars = chars_of(name.as_str());
                    if ends_with_chars(name_chars.as_slice(), suffix.as_slice()) {
                        match parse_clip_filename(name.as_str()) {
                            Some((ts, cam)) => {
                                let key = match f.kind {
                                    EventKind::Recent => "recent::all".to_owned(),
                                    _ => f.parent_dir.clone(),
                                };
                                let ts_chars = chars_of(ts.as_str());
                                let clip = ClipFile { camera: cam, path: f.path.clone(), size: f.size };
                                proof {
                                    lemma_wrapping_sum(size_sum(a), total_size, f.size);
                                }
                                total_size = total_size.wrapping_add(f.size);
                                total_clips = total_clips + 1;
                                add_clip(&mut groups, &key, &ts, &ts_chars, clip, Ghost(a));
                                proof {
                                    assert(clip_entry_of(*f) == Some((key@, ts@, clip_view(clip))));
                                    assert(accepted_entries(next) == a.push((key@, ts@, clip_view(clip))));
                                    assert(name_errors(next) == name_errors(prefix));
                                    let a2 = a.push((key@, ts@, clip_view(clip)));
                                    assert(a2.drop_last() =~= a);
                                    assert(size_sum(a2) == size_sum(a) + f.size);
                                }
                            },
                            None => {
                                let ghost errs0 = errors@;
                                let msg = concat_str("無法解析檔名: ", name.as_str());
                                errors.push(msg);
                                proof {
                                    assert(string_views(errors@) =~= string_views(errs0).push(msg@));
                                    assert(accepted_entries(next) == a);
                                }
                            },
                        }
                    }
                },
                None => {},
            }
        }
        proof {
            if clip_entry_of(*f) is None {
                assert(accepted_entries(next) == a);
            }
            if name_error_of(*f) is None {
                assert(name_errors(next) == name_errors(prefix));
            }
        }
        i = i + 1;
    }
    proof {
        assert(files@.take(n as int) =~= files@);
    }
    CollectedClips { groups, errors, total_clips, total_size }
}

/// Where an accepted clip goes: a Sentry or Saved clip into the group of
/// its own event folder (the folder it lies in), a recent driving clip into
/// the one group "recent::all"; its timestamp and camera are those of its
/// name, and its path and size those of the file.
pub proof fn lemma_clip_group_key(f: WalkedFile)
    ensures
        clip_entry_of(f) matches Some(e) ==> {
            &&& f.kind == EventKind::Recent ==> e.0 == seq!['r', 'e', 'c', 'e', 'n', 't', ':', ':', 'a', 'l', 'l']
            &&& f.kind == EventKind::Sentry ==> e.0 == f.parent_dir@
            &&& f.kind == EventKind::Saved ==> e.0 == f.parent_dir@
            &&& f.file_name is Some
            &&& clip_name_parts(f.file_name->0@) == Some((e.1, e.2.0))
            &&& e.2.1 == f.path@
            &&& e.2.2 == f.size
        },
{
}

} // verus!
