//! Splitting recent driving clips into sessions and turning clip groups
//! into events: consecutive recent segments at most 65 seconds apart make
//! one session.
use vstd::prelude::*;
use crate::clips::{Segment, ClipGroup, ClipView, clip_views, recent_all_key, WalkedFile, collect_clips, groups_match, groups_clip_count, accepted_entries, name_errors, size_sum, string_views};
use crate::timestamp::{timestamp_gap, timestamp_diff_seconds};
use crate::scanner::{EventKind, sentry_dir, saved_dir, same_chars};
use crate::text::{concat_str, chars_of, contains_seq, contains_chars};

verus! {

/// A segment as plain values: its timestamp and its clips.
pub type SegView = (Seq<char>, Seq<ClipView>);

pub open spec fn seg_view(s: Segment) -> SegView {
    (s.timestamp@, clip_views(s.clips@))
}

pub open spec fn segs_view(v: Seq<Segment>) -> Seq<SegView> {
    v.map_values(|s: Segment| seg_view(s))
}

pub open spec fn sessions_view(v: Seq<Vec<Segment>>) -> Seq<Seq<SegView>> {
    v.map_values(|s: Vec<Segment>| segs_view(s@))
}

/// Consecutive segments at most this many seconds apart belong to one session.
pub open spec fn max_session_gap() -> i64 {
    65
}

/// The sessions of `segs`, taken in order: each segment joins the session
/// of the one before it when their timestamps lie at most 65 seconds apart,
/// and starts a new session otherwise.
pub open spec fn session_split(segs: Seq<SegView>) -> Seq<Seq<SegView>>
    decreases segs.len(),
{
    if segs.len() == 0 {
        Seq::empty()
    } else {
        let prev = session_split(segs.drop_last());
        let s = segs.last();
        if prev.len() == 0 {
            seq![seq![s]]
        } else if timestamp_gap(s.0, prev.last().last().0) <= max_session_gap() {
            prev.update(prev.len() - 1, prev.last().push(s))
        } else {
            prev.push(seq![s])
        }
    }
}

/// Consecutive segments of `s` lie at most 65 seconds apart.
pub open spec fn within_session(s: Seq<SegView>) -> bool {
    forall|k: int| 0 < k < s.len() ==> timestamp_gap(#[trigger] s[k].0, s[k - 1].0) <= max_session_gap()
}

/// `sessions` cut `segs` into sessions: together, in order, they are `segs`;
/// none is empty; within each, consecutive segments lie at most 65 seconds
/// apart; and each session after the first starts more than 65 seconds
/// after the end of the one before it.
pub open spec fn is_session_split(segs: Seq<SegView>, sessions: Seq<Seq<SegView>>) -> bool {
    &&& sessions.flatten() == segs
    &&& forall|m: int| 0 <= m < sessions.len() ==> (#[trigger] sessions[m]).len() > 0 && within_session(sessions[m])
    &&& forall|m: int|
        0 < m < sessions.len() ==> timestamp_gap((#[trigger] sessions[m])[0].0, sessions[m - 1].last().0)
            > max_session_gap()
}

/// A segment at most 65 seconds after the end of the last session joins it.
proof fn lemma_split_extend(pre: Seq<SegView>, front: Seq<Seq<SegView>>, last: Seq<SegView>, s: SegView)
    requires
        is_session_split(pre, front.push(last)),
        timestamp_gap(s.0, last.last().0) <= max_session_gap(),
    ensures
        is_session_split(pre.push(s), front.push(last.push(s))),
{
    let old_r = front.push(last);
    let r = front.push(last.push(s));
    assert(old_r[old_r.len() - 1] == last);
    front.lemma_flatten_push(last);
    front.lemma_flatten_push(last.push(s));
    assert(front.flatten() + last.push(s) =~= (front.flatten() + last).push(s));
    assert forall|m: int| 0 <= m < r.len() implies (#[trigger] r[m]).len() > 0 && within_session(r[m]) by {
        if m == r.len() - 1 {
            assert forall|k: int| 0 < k < r[m].len() implies timestamp_gap(
                #[trigger] r[m][k].0,
                r[m][k - 1].0,
            ) <= max_session_gap() by {
                if k < last.len() {
                    assert(last[k] == old_r[m][k]);
                }
            }
        } else {
            assert(r[m] == old_r[m]);
        }
    }
    assert forall|m: int| 0 < m < r.len() implies timestamp_gap(
        (#[trigger] r[m])[0].0,
        r[m - 1].last().0,
    ) > max_session_gap() by {
        assert(r[m - 1] == old_r[m - 1]);
        assert(r[m][0] == old_r[m][0]);
    }
}

/// A segment more than 65 seconds after the end of the last session starts a new one.
proof fn lemma_split_start(pre: Seq<SegView>, prev: Seq<Seq<SegView>>, s: SegView)
    requires
        is_session_split(pre, prev),
        prev.len() > 0,
        timestamp_gap(s.0, prev.last().last().0) > max_session_gap(),
    ensures
        is_session_split(pre.push(s), prev.push(seq![s])),
{
    let r = prev.push(seq![s]);
    prev.lemma_flatten_push(seq![s]);
    assert(pre + seq![s] =~= pre.push(s));
    assert forall|m: int| 0 <= m < r.len() implies (#[trigger] r[m]).len() > 0 && within_session(r[m]) by {
        if m < prev.len() {
            assert(r[m] == prev[m]);
        }
    }
    assert forall|m: int| 0 < m < r.len() implies timestamp_gap(
        (#[trigger] r[m])[0].0,
        r[m - 1].last().0,
    ) > max_session_gap() by {
        assert(r[m - 1] == prev[m - 1]);
        if m < prev.len() {
            assert(r[m] == prev[m]);
        }
    }
}

/// Recent driving segments are merged into sessions as promised: the
/// sessions that `session_split` gives hold every segment once, in order;
/// none is empty; consecutive segments within a session lie at most 65
/// seconds apart; and sessions are separated by gaps of more than 65 seconds.
pub proof fn lemma_session_split_cuts(segs: Seq<SegView>)
    ensures
        is_session_split(segs, session_split(segs)),
        segs.len() > 0 ==> session_split(segs).len() > 0,
    decreases segs.len(),
{
    if segs.len() == 0 {
        assert(session_split(segs).flatten() =~= segs);
    } else {
        let pre = segs.drop_last();
        let prev = session_split(pre);
        let s = segs.last();
        lemma_session_split_cuts(pre);
        assert(pre.push(s) =~= segs);
        if prev.len() == 0 {
            assert(pre.len() == 0);
            let r = seq![seq![s]];
            r.lemma_flatten_one_element();
            assert(r.flatten() =~= segs);
            assert(r[0] == seq![s]);
        } else if timestamp_gap(s.0, prev.last().last().0) <= max_session_gap() {
            let front = prev.drop_last();
            assert(front.push(prev.last()) =~= prev);
            lemma_split_extend(pre, front, prev.last(), s);
            assert(front.push(prev.last().push(s)) =~= prev.update(prev.len() - 1, prev.last().push(s)));
        } else {
            lemma_split_start(pre, prev, s);
        }
    }
}

/// A cut whose last session holds one segment: without it, the rest cuts
/// the segments before.
proof fn lemma_cut_drop_single(segs: Seq<SegView>, x: Seq<Seq<SegView>>)
    requires
        is_session_split(segs, x),
        x.len() > 0,
        x.last().len() == 1,
    ensures
        segs.len() > 0,
        is_session_split(segs.drop_last(), x.drop_last()),
        x == x.drop_last().push(seq![segs.last()]),
        x.len() > 1 ==> timestamp_gap(segs.last().0, x.drop_last().last().last().0) > max_session_gap(),
        x.len() == 1 ==> segs.len() == 1,
{
    let front = x.drop_last();
    let last = x.last();
    assert(front.push(last) =~= x);
    front.lemma_flatten_push(last);
    let s = last[0];
    assert(last =~= seq![s]);
    assert(segs =~= front.flatten().push(s));
    assert(segs.drop_last() =~= front.flatten());
    assert forall|m: int| 0 <= m < front.len() implies (#[trigger] front[m]).len() > 0 && within_session(
        front[m],
    ) by {
        assert(front[m] == x[m]);
    }
    assert forall|m: int| 0 < m < front.len() implies timestamp_gap(
        (#[trigger] front[m])[0].0,
        front[m - 1].last().0,
    ) > max_session_gap() by {
        assert(front[m] == x[m]);
        assert(front[m - 1] == x[m - 1]);
    }
    if x.len() > 1 {
        assert(x[x.len() - 1][0] == s);
        assert(x[x.len() - 2] == front.last());
    } else {
        assert(front.flatten() =~= Seq::<SegView>::empty());
    }
}

/// A cut whose last session holds more than one segment: without the last
/// segment, it cuts the segments before.
#[verifier::rlimit(40)]
proof fn lemma_cut_drop_inner(segs: Seq<SegView>, x: Seq<Seq<SegView>>)
    requires
        is_session_split(segs, x),
        x.len() > 0,
        x.last().len() > 1,
    ensures
        segs.len() > 0,
        is_session_split(segs.drop_last(), x.drop_last().push(x.last().drop_last())),
        x == x.drop_last().push(x.last().drop_last()).update(
            x.len() - 1,
            x.last().drop_last().push(segs.last()),
        ),
        timestamp_gap(segs.last().0, x.last().drop_last().last().0) <= max_session_gap(),
{
    let front = x.drop_last();
    let last = x.last();
    let shorter = last.drop_last();
    let y = front.push(shorter);
    assert(front.push(last) =~= x);
    front.lemma_flatten_push(last);
    front.lemma_flatten_push(shorter);
    assert(shorter.push(last.last()) =~= last);
    assert(segs =~= (front.flatten() + shorter).push(last.last()));
    assert(segs.drop_last() =~= front.flatten() + shorter);
    assert(within_session(x[x.len() - 1]));
    assert(timestamp_gap(last[last.len() - 1].0, last[last.len() - 2].0) <= max_session_gap());
    assert forall|m: int| 0 <= m < y.len() implies (#[trigger] y[m]).len() > 0 && within_session(y[m]) by {
        if m < front.len() {
            assert(y[m] == x[m]);
        } else {
            assert forall|k: int| 0 < k < y[m].len() implies timestamp_gap(
                #[trigger] y[m][k].0,
                y[m][k - 1].0,
            ) <= max_session_gap() by {
                assert(y[m][k] == last[k]);
                assert(y[m][k - 1] == last[k - 1]);
            }
        }
    }
    assert forall|m: int| 0 < m < y.len() implies timestamp_gap(
        (#[trigger] y[m])[0].0,
        y[m - 1].last().0,
    ) > max_session_gap() by {
        assert(y[m - 1] == x[m - 1]);
        if m < front.len() {
            assert(y[m] == x[m]);
        } else {
            assert(y[m][0] == x[m][0]);
        }
    }
    assert(y.update(y.len() - 1, shorter.push(segs.last())) =~= x);
}

proof fn lemma_unique_single(segs: Seq<SegView>, x: Seq<Seq<SegView>>)
    requires
        segs.len() > 0,
        x == x.drop_last().push(seq![segs.last()]),
        x.len() > 1 ==> timestamp_gap(segs.last().0, x.drop_last().last().last().0) > max_session_gap(),
        x.len() == 1 ==> segs.len() == 1,
        x.drop_last() == session_split(segs.drop_last()),
    ensures
        x == session_split(segs),
{
    let pre = segs.drop_last();
    lemma_split_unfold(pre, segs.last());
    assert(pre.push(segs.last()) =~= segs);
    if x.len() == 1 {
        assert(pre.len() == 0);
    }
}

proof fn lemma_unique_inner(segs: Seq<SegView>, x: Seq<Seq<SegView>>, y: Seq<Seq<SegView>>)
    requires
        segs.len() > 0,
        x.len() > 0,
        y == x.drop_last().push(x.last().drop_last()),
        x == y.update(x.len() - 1, x.last().drop_last().push(segs.last())),
        timestamp_gap(segs.last().0, x.last().drop_last().last().0) <= max_session_gap(),
        y == session_split(segs.drop_last()),
    ensures
        x == session_split(segs),
{
    let pre = segs.drop_last();
    lemma_split_unfold(pre, segs.last());
    assert(pre.push(segs.last()) =~= segs);
    assert(y.last() == x.last().drop_last());
}

/// The properties of `is_session_split` fix the sessions: any cut of the
/// segments into sessions that holds them all, in order, without empty
/// sessions, with gaps of at most 65 seconds inside sessions and of more
/// than 65 seconds between them, is the one `session_split` gives.
pub proof fn lemma_session_split_unique(segs: Seq<SegView>, x: Seq<Seq<SegView>>)
    requires
        is_session_split(segs, x),
    ensures
        x == session_split(segs),
    decreases segs.len(),
{
    if x.len() == 0 {
        assert(x.flatten() =~= Seq::<SegView>::empty());
        assert(x =~= session_split(segs));
    } else {
        assert(x[x.len() - 1].len() > 0);
        if x.last().len() == 1 {
            lemma_cut_drop_single(segs, x);
            lemma_session_split_unique(segs.drop_last(), x.drop_last());
            lemma_unique_single(segs, x);
        } else {
            lemma_cut_drop_inner(segs, x);
            let y = x.drop_last().push(x.last().drop_last());
            lemma_session_split_unique(segs.drop_last(), y);
            lemma_unique_inner(segs, x, y);
        }
    }
}

proof fn lemma_segs_view_push(v: Seq<Segment>, x: Segment)
    ensures
        segs_view(v.push(x)) == segs_view(v).push(seg_view(x)),
{
    assert(segs_view(v.push(x)) =~= segs_view(v).push(seg_view(x)));
}

proof fn lemma_sessions_view_push(v: Seq<Vec<Segment>>, c: Vec<Segment>)
    ensures
        sessions_view(v.push(c)) == sessions_view(v).push(segs_view(c@)),
{
    assert(sessions_view(v.push(c)) =~= sessions_view(v).push(segs_view(c@)));
}

/// One step of `session_split`: the sessions of `pre` followed by `s`.
proof fn lemma_split_unfold(pre: Seq<SegView>, s: SegView)
    ensures
        session_split(pre.push(s)) == (if session_split(pre).len() == 0 {
            seq![seq![s]]
        } else if timestamp_gap(s.0, session_split(pre).last().last().0) <= max_session_gap() {
            session_split(pre).update(
                session_split(pre).len() - 1,
                session_split(pre).last().push(s),
            )
        } else {
            session_split(pre).push(seq![s])
        }),
{
    assert(pre.push(s).drop_last() =~= pre);
}

/// Taking the next segment off the front of what is left.
proof fn lemma_take_next(orig: Seq<SegView>, done: int, rest0: Seq<Segment>, rest: Seq<Segment>, x: Segment)
    requires
        0 <= done <= orig.len(),
        segs_view(rest0) == orig.skip(done),
        rest0.len() > 0,
        x == rest0[0],
        rest == rest0.remove(0),
    ensures
        done < orig.len(),
        orig[done] == seg_view(x),
        segs_view(rest) == orig.skip(done + 1),
        orig.take(done + 1) == orig.take(done).push(seg_view(x)),
{
    assert(segs_view(rest0).len() == rest0.len());
    assert(segs_view(rest0)[0] == seg_view(x));
    assert(orig.skip(done)[0] == orig[done]);
    assert forall|i: int| 0 <= i < segs_view(rest).len() implies #[trigger] segs_view(rest)[i]
        == orig.skip(done + 1)[i] by {
        assert(rest[i] == rest0[i + 1]);
        assert(segs_view(rest0)[i + 1] == orig.skip(done)[i + 1]);
    }
    assert(segs_view(rest) =~= orig.skip(done + 1));
    assert(orig.take(done + 1) =~= orig.take(done).push(seg_view(x)));
}

/// Splits recent driving segments, in timestamp order, into sessions: a
/// segment more than 65 seconds after the one before it starts a new session.
pub fn split_sessions(segments: Vec<Segment>) -> (r: Vec<Vec<Segment>>)
    ensures
        sessions_view(r@) == session_split(segs_view(segments@)),
{
    let ghost orig = segs_view(segments@);
    let mut rest = segments;
    let mut sessions: Vec<Vec<Segment>> = Vec::new();
    let mut current: Vec<Segment> = Vec::new();
    let ghost mut done: int = 0;
    proof {
        assert(orig.skip(0) =~= orig);
    }
    while rest.len() > 0
        invariant
            0 <= done <= orig.len(),
            segs_view(rest@) == orig.skip(done),
            current@.len() == 0 ==> done == 0 && sessions@.len() == 0,
            current@.len() > 0 ==> session_split(orig.take(done)) == sessions_view(sessions@).push(
                segs_view(current@),
            ),
        decreases rest@.len(),
    {
        let ghost rest0 = rest@;
        let ghost sv0 = sessions_view(sessions@);
        let ghost cur0 = segs_view(current@);
        let ghost pre = orig.take(done);
        let seg = rest.remove(0);
        let ghost sx = seg_view(seg);
        proof {
            lemma_take_next(orig, done, rest0, rest@, seg);
            lemma_split_unfold(pre, sx);
        }
        if current.len() == 0 {
            current.push(seg);
            proof {
                assert(pre =~= Seq::<SegView>::empty());
                assert(session_split(pre) =~= Seq::<Seq<SegView>>::empty());
                assert(segs_view(current@) =~= seq![sx]);
                assert(sessions_view(sessions@) =~= Seq::<Seq<SegView>>::empty());
            }
        } else {
            let k = current.len() - 1;
            let gap = timestamp_diff_seconds(seg.timestamp.as_str(), current[k].timestamp.as_str());
            proof {
                assert(cur0.len() == current@.len());
                assert(cur0.last() == seg_view(current@[k as int]));
                assert(session_split(pre).last() == cur0);
            }
            if gap <= 65 {
                let ghost c0 = current@;
                current.push(seg);
                proof {
                    lemma_segs_view_push(c0, seg);
                    assert(sv0.push(cur0).update(sv0.len() as int, cur0.push(sx)) =~= sv0.push(cur0.push(sx)));
                }
            } else {
                proof {
                    lemma_sessions_view_push(sessions@, current);
                }
                sessions.push(current);
                current = Vec::new();
                current.push(seg);
                proof {
                    assert(segs_view(current@) =~= seq![sx]);
                }
            }
        }
        proof {
            done = done + 1;
        }
    }
    proof {
        assert(orig.take(done) =~= orig);
    }
    if current.len() > 0 {
        proof {
            lemma_sessions_view_push(sessions@, current);
        }
        sessions.push(current);
    } else {
        proof {
            assert(sessions_view(sessions@) =~= Seq::<Seq<SegView>>::empty());
        }
    }
    sessions
}

/// An event: its key, its kind, the folder it comes from and its segments
/// in timestamp order.
pub struct ScanEvent {
    pub key: String,
    pub kind: EventKind,
    pub source_dir: String,
    pub segments: Vec<Segment>,
}

pub type EventView = (Seq<char>, EventKind, Seq<char>, Seq<SegView>);

pub open spec fn event_view(e: ScanEvent) -> EventView {
    (e.key@, e.kind, e.source_dir@, segs_view(e.segments@))
}

pub open spec fn events_view(v: Seq<ScanEvent>) -> Seq<EventView> {
    v.map_values(|e: ScanEvent| event_view(e))
}

pub open spec fn group_view(g: ClipGroup) -> (Seq<char>, Seq<SegView>) {
    (g.key@, segs_view(g.segments@))
}

pub open spec fn groups_view(v: Seq<ClipGroup>) -> Seq<(Seq<char>, Seq<SegView>)> {
    v.map_values(|g: ClipGroup| group_view(g))
}

/// "recent::", before the first timestamp of a session in its key.
pub open spec fn recent_prefix() -> Seq<char> {
    seq!['r', 'e', 'c', 'e', 'n', 't', ':', ':']
}

/// The kind of an event folder: sentry if its path holds "SentryClips",
/// else saved if it holds "SavedClips", else recent.
pub open spec fn kind_of_event_key(key: Seq<char>) -> EventKind {
    if contains_seq(key, sentry_dir()) {
        EventKind::Sentry
    } else if contains_seq(key, saved_dir()) {
        EventKind::Saved
    } else {
        EventKind::Recent
    }
}

/// The event of one recent driving session.
pub open spec fn session_event(ss: Seq<SegView>, recent_dir: Seq<char>) -> EventView {
    (recent_prefix() + ss[0].0, EventKind::Recent, recent_dir, ss)
}

/// The events of one group: none when it has no segments; one per session
/// for the recent driving group, keyed "recent::" and the session's first
/// timestamp and coming from `recent_dir`; else one event for the folder.
pub open spec fn group_events(key: Seq<char>, segs: Seq<SegView>, recent_dir: Seq<char>) -> Seq<EventView> {
    if segs.len() == 0 {
        Seq::empty()
    } else if key == recent_all_key() {
        session_split(segs).map_values(|ss: Seq<SegView>| session_event(ss, recent_dir))
    } else {
        seq![(key, kind_of_event_key(key), key, segs)]
    }
}

/// The events of all groups, group by group.
pub open spec fn events_of(groups: Seq<(Seq<char>, Seq<SegView>)>, recent_dir: Seq<char>) -> Seq<EventView>
    decreases groups.len(),
{
    if groups.len() == 0 {
        Seq::empty()
    } else {
        events_of(groups.drop_last(), recent_dir) + group_events(
            groups.last().0,
            groups.last().1,
            recent_dir,
        )
    }
}

/// Appends one event per session (none of them empty) to `out`.
fn push_session_events(sessions: Vec<Vec<Segment>>, recent_dir: &str, out: &mut Vec<ScanEvent>)
    requires
        forall|m: int| 0 <= m < sessions@.len() ==> (#[trigger] sessions@[m])@.len() > 0,
    ensures
        events_view(final(out)@) == events_view(old(out)@) + sessions_view(sessions@).map_values(
            |ss: Seq<SegView>| session_event(ss, recent_dir@),
        ),
{
    proof {
        reveal_strlit("recent::");
        assert("recent::"@ =~= recent_prefix());
    }
    let ghost all = sessions_view(sessions@);
    let ghost out0 = events_view(out@);
    let ghost f = |ss: Seq<SegView>| session_event(ss, recent_dir@);
    let mut rest = sessions;
    let ghost mut done: int = 0;
    proof {
        assert(all.skip(0) =~= all);
        assert(out0 + all.take(0).map_values(f) =~= out0);
    }
    while rest.len() > 0
        invariant
            0 <= done <= all.len(),
            all == sessions_view(sessions@),
            f == (|ss: Seq<SegView>| session_event(ss, recent_dir@)),
            "recent::"@ == recent_prefix(),
            rest@.len() == all.len() - done,
            forall|m: int| 0 <= m < rest@.len() ==> segs_view((#[trigger] rest@[m])@) == all[done + m]
                && rest@[m]@.len() > 0,
            events_view(out@) == out0 + all.take(done).map_values(f),
        decreases rest@.len(),
    {
        let ghost rest0 = rest@;
        let ghost ev0 = events_view(out@);
        let session = rest.remove(0);
        let key = concat_str("recent::", session[0].timestamp.as_str());
        let ev = ScanEvent {
            key,
            kind: EventKind::Recent,
            source_dir: recent_dir.to_owned(),
            segments: session,
        };
        proof {
            assert(segs_view(rest0[0]@) == all[done]);
            assert(segs_view(session@)[0] == seg_view(session@[0]));
            assert(event_view(ev) == f(all[done]));
            assert forall|m: int| 0 <= m < rest@.len() implies segs_view((#[trigger] rest@[m])@) == all[
                done + 1 + m] && rest@[m]@.len() > 0 by {
                assert(rest@[m] == rest0[m + 1]);
            }
            assert(all.take(done + 1).map_values(f) =~= all.take(done).map_values(f).push(f(all[done])));
        }
        out.push(ev);
        proof {
            assert(events_view(out@) =~= ev0.push(event_view(ev)));
            done = done + 1;
        }
    }
    proof {
        assert(all.take(done) =~= all);
    }
}

/// Turns clip groups into events: the recent driving group ("recent::all")
/// becomes one event per session, coming from `recent_source_dir`; every
/// other group becomes one event keyed and sourced by its folder, of the
/// kind that the folder's path names; groups without segments give none.
pub fn build_events(groups: Vec<ClipGroup>, recent_source_dir: &str) -> (r: Vec<ScanEvent>)
    ensures
        events_view(r@) == events_of(groups_view(groups@), recent_source_dir@),
{
    proof {
        reveal_strlit("recent::all");
        reveal_strlit("SentryClips");
        reveal_strlit("SavedClips");
        assert("recent::all"@ =~= recent_all_key());
        assert("SentryClips"@ =~= sentry_dir());
        assert("SavedClips"@ =~= saved_dir());
    }
    let sentry = chars_of("SentryClips");
    let saved = chars_of("SavedClips");
    let ghost all = groups_view(groups@);
    let mut rest = groups;
    let mut out: Vec<ScanEvent> = Vec::new();
    let ghost mut done: int = 0;
    proof {
        assert(events_of(all.take(0), recent_source_dir@) =~= Seq::<EventView>::empty());
        assert(events_view(out@) =~= Seq::<EventView>::empty());
    }
    while rest.len() > 0
        invariant
            0 <= done <= all.len(),
            all == groups_view(groups@),
            "recent::all"@ == recent_all_key(),
            sentry@ == sentry_dir(),
            saved@ == saved_dir(),
            rest@.len() == all.len() - done,
            forall|m: int| 0 <= m < rest@.len() ==> group_view(#[trigger] rest@[m]) == all[done + m],
            events_view(out@) == events_of(all.take(done), recent_source_dir@),
        decreases rest@.len(),
    {
        let ghost rest0 = rest@;
        let ghost ev0 = events_view(out@);
        let group = rest.remove(0);
        let ghost gv = group_view(group);
        proof {
            assert(gv == all[done]);
            assert(all.take(done + 1).drop_last() =~= all.take(done));
            assert(all.take(done + 1).last() == gv);
            assert forall|m: int| 0 <= m < rest@.len() implies group_view(#[trigger] rest@[m]) == all[done
                + 1 + m] by {
                assert(rest@[m] == rest0[m + 1]);
            }
        }
        let ClipGroup { key, segments } = group;
        if segments.len() > 0 {
            if same_chars(key.as_str(), "recent::all") {
                let ghost sv = segs_view(segments@);
                let sessions = split_sessions(segments);
                proof {
                    lemma_session_split_cuts(sv);
                    assert forall|m: int| 0 <= m < sessions@.len() implies (#[trigger] sessions@[m])@.len()
                        > 0 by {
                        assert(sessions_view(sessions@)[m] == segs_view(sessions@[m]@));
                        assert(session_split(sv)[m].len() > 0);
                    }
                }
                push_session_events(sessions, recent_source_dir, &mut out);
            } else {
                let key_chars = chars_of(key.as_str());
                let kind = if contains_chars(key_chars.as_slice(), sentry.as_slice()) {
                    EventKind::Sentry
                } else if contains_chars(key_chars.as_slice(), saved.as_slice()) {
                    EventKind::Saved
                } else {
                    EventKind::Recent
                };
                let source_dir = key.clone();
                let ev = ScanEvent { key, kind, source_dir, segments };
                out.push(ev);
                proof {
                    assert(events_view(out@) =~= ev0 + seq![event_view(ev)]);
                }
            }
        } else {
            proof {
                assert(events_view(out@) =~= ev0 + Seq::<EventView>::empty());
            }
        }
        proof {
            done = done + 1;
        }
    }
    proof {
        assert(all.take(done) =~= all);
    }
    out
}

/// A Sentry or Saved event folder (any group other than the recent
/// driving clips) plays as one continuous event: its one event holds all
/// of its segments, in order, and comes from the folder itself.
pub proof fn lemma_folder_group_one_event(key: Seq<char>, segs: Seq<SegView>, recent_dir: Seq<char>)
    requires
        key != recent_all_key(),
        segs.len() > 0,
    ensures
        group_events(key, segs, recent_dir) == seq![(key, kind_of_event_key(key), key, segs)],
{
}

/// The recent driving clips become one event per session: together, in
/// order, the events hold every segment; each is a recent event from
/// `recent_dir`, keyed "recent::" and its first timestamp; and consecutive
/// events lie more than 65 seconds apart.
pub proof fn lemma_recent_group_events(segs: Seq<SegView>, recent_dir: Seq<char>)
    requires
        segs.len() > 0,
    ensures
        group_events(recent_all_key(), segs, recent_dir).map_values(|e: EventView| e.3).flatten() == segs,
        forall|m: int|
            0 <= m < group_events(recent_all_key(), segs, recent_dir).len() ==> {
                let e = #[trigger] group_events(recent_all_key(), segs, recent_dir)[m];
                &&& e.1 == EventKind::Recent
                &&& e.2 == recent_dir
                &&& e.3.len() > 0
                &&& e.0 == recent_prefix() + e.3[0].0
                &&& within_session(e.3)
            },
        forall|m: int|
            0 < m < group_events(recent_all_key(), segs, recent_dir).len() ==> timestamp_gap(
                (#[trigger] group_events(recent_all_key(), segs, recent_dir)[m]).3[0].0,
                group_events(recent_all_key(), segs, recent_dir)[m - 1].3.last().0,
            ) > max_session_gap(),
{
    let ss = session_split(segs);
    lemma_session_split_cuts(segs);
    let evs = group_events(recent_all_key(), segs, recent_dir);
    assert(evs.map_values(|e: EventView| e.3) =~= ss);
    assert forall|m: int| 0 <= m < evs.len() implies {
        let e = #[trigger] evs[m];
        &&& e.1 == EventKind::Recent
        &&& e.2 == recent_dir
        &&& e.3.len() > 0
        &&& e.0 == recent_prefix() + e.3[0].0
        &&& within_session(e.3)
    } by {
        assert(evs[m].3 == ss[m]);
    }
    assert forall|m: int| 0 < m < evs.len() implies timestamp_gap(
        (#[trigger] evs[m]).3[0].0,
        evs[m - 1].3.last().0,
    ) > max_session_gap() by {
        assert(evs[m].3 == ss[m]);
        assert(evs[m - 1].3 == ss[m - 1]);
    }
}

/// What a scan of a TeslaCam folder found: the number of events, of each
/// kind, the number of clips, their total size and the errors met.
pub struct ScanResult {
    pub total_events: usize,
    pub sentry_count: usize,
    pub saved_count: usize,
    pub recent_count: usize,
    pub total_clips: usize,
    pub total_size_bytes: u64,
    pub errors: Vec<String>,
}

/// How many of `evs` are of kind `k`.
pub open spec fn kind_count(evs: Seq<EventView>, k: EventKind) -> nat
    decreases evs.len(),
{
    if evs.len() == 0 {
        0
    } else {
        kind_count(evs.drop_last(), k) + if evs.last().1 == k {
            1nat
        } else {
            0nat
        }
    }
}

/// Every event is of exactly one kind, so the three counts add up to the
/// number of events.
pub proof fn lemma_kind_counts_add_up(evs: Seq<EventView>)
    ensures
        kind_count(evs, EventKind::Sentry) + kind_count(evs, EventKind::Saved) + kind_count(
            evs,
            EventKind::Recent,
        ) == evs.len(),
    decreases evs.len(),
{
    if evs.len() > 0 {
        lemma_kind_counts_add_up(evs.drop_last());
    }
}

/// Counts the events of each kind and records the clip totals and errors.
pub fn summarize_scan(events: &Vec<ScanEvent>, errors: Vec<String>, total_clips: usize, total_size: u64) -> (r:
    ScanResult)
    ensures
        r.total_events == events@.len(),
        r.sentry_count == kind_count(events_view(events@), EventKind::Sentry),
        r.saved_count == kind_count(events_view(events@), EventKind::Saved),
        r.recent_count == kind_count(events_view(events@), EventKind::Recent),
        r.total_clips == total_clips,
        r.total_size_bytes == total_size,
        r.errors@ == errors@,
{
    let ghost evs = events_view(events@);
    let n = events.len();
    let mut sentry_count: usize = 0;
    let mut saved_count: usize = 0;
    let mut recent_count: usize = 0;
    let mut i: usize = 0;
    while i < n
        invariant
            n == events@.len(),
            evs == events_view(events@),
            i <= n,
            sentry_count == kind_count(evs.take(i as int), EventKind::Sentry),
            saved_count == kind_count(evs.take(i as int), EventKind::Saved),
            recent_count == kind_count(evs.take(i as int), EventKind::Recent),
        decreases n - i,
    {
        proof {
            assert(evs.take(i + 1).drop_last() =~= evs.take(i as int));
            assert(evs.take(i + 1).last() == event_view(events@[i as int]));
            lemma_kind_counts_add_up(evs.take(i as int));
        }
        match events[i].kind {
            EventKind::Sentry => sentry_count = sentry_count + 1,
            EventKind::Saved => saved_count = saved_count + 1,
            EventKind::Recent => recent_count = recent_count + 1,
        }
        i = i + 1;
    }
    proof {
        assert(evs.take(n as int) =~= evs);
    }
    ScanResult {
        total_events: n,
        sentry_count,
        saved_count,
        recent_count,
        total_clips,
        total_size_bytes: total_size,
        errors,
    }
}

/// The events and summary that the files found under a TeslaCam folder
/// give: the clips are collected and grouped (`collect_clips`), the groups
/// turned into events (`build_events`, recent driving clips merged into
/// sessions and coming from `recent_source_dir`), and the events counted.
/// The order of the groups is left open, as it is in a hash map.
pub fn scan_clips(files: &Vec<WalkedFile>, recent_source_dir: &str) -> (r: (Vec<ScanEvent>, ScanResult))
    ensures
        exists|gs: Seq<ClipGroup>|
            groups_match(accepted_entries(files@), gs) && groups_clip_count(gs) == accepted_entries(
                files@,
            ).len() && events_view(r.0@) == events_of(
                groups_view(gs),
                recent_source_dir@,
            ),
        r.1.total_events == r.0@.len(),
        r.1.sentry_count == kind_count(events_view(r.0@), EventKind::Sentry),
        r.1.saved_count == kind_count(events_view(r.0@), EventKind::Saved),
        r.1.recent_count == kind_count(events_view(r.0@), EventKind::Recent),
        r.1.total_clips == accepted_entries(files@).len(),
        r.1.total_size_bytes == size_sum(accepted_entries(files@)) % 0x1_0000_0000_0000_0000,
        string_views(r.1.errors@) == name_errors(files@),
{
    let collected = collect_clips(files);
    let ghost gs = collected.groups@;
    let events = build_events(collected.groups, recent_source_dir);
    let summary = summarize_scan(&events, collected.errors, collected.total_clips, collected.total_size);
    (events, summary)
}

} // verus!
