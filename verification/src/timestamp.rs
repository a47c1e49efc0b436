//! Seconds between two clip timestamps, as the session grouping measures them.
use vstd::prelude::*;
use crate::text::chars_of;

verus! {

/// `s` cut at every `sep`, like `str::split` with a `char` pattern: `n`
/// separators give `n + 1` pieces, some possibly empty.
pub open spec fn split_seq(s: Seq<char>, sep: char) -> Seq<Seq<char>>
    decreases s.len(),
{
    if s.len() == 0 {
        seq![Seq::empty()]
    } else {
        let rest = split_seq(s.drop_last(), sep);
        if s.last() == sep {
            rest.push(Seq::empty())
        } else {
            rest.update(rest.len() - 1, rest.last().push(s.last()))
        }
    }
}

proof fn lemma_split_nonempty(s: Seq<char>, sep: char)
    ensures
        split_seq(s, sep).len() >= 1,
    decreases s.len(),
{
    if s.len() > 0 {
        lemma_split_nonempty(s.drop_last(), sep);
    }
}

/// The contents of each vector in `v`.
pub open spec fn char_views(v: Seq<Vec<char>>) -> Seq<Seq<char>> {
    v.map_values(|x: Vec<char>| x@)
}

/// Splits `s` at every `sep`.
pub fn split_chars(s: &[char], sep: char) -> (r: Vec<Vec<char>>)
    ensures
        char_views(r@) == split_seq(s@, sep),
{
    let n = s.len();
    let mut parts: Vec<Vec<char>> = Vec::new();
    parts.push(Vec::new());
    let mut i: usize = 0;
    proof {
        assert(s@.take(0) =~= Seq::<char>::empty());
        assert(char_views(parts@) =~= split_seq(s@.take(0), sep));
    }
    while i < n
        invariant
            n == s@.len(),
            i <= n,
            parts@.len() >= 1,
            char_views(parts@) == split_seq(s@.take(i as int), sep),
        decreases n - i,
    {
        let c = s[i];
        let ghost prev = char_views(parts@);
        proof {
            assert(s@.take(i + 1).drop_last() =~= s@.take(i as int));
            lemma_split_nonempty(s@.take(i as int), sep);
        }
        if c == sep {
            parts.push(Vec::new());
            proof {
                assert(char_views(parts@) =~= prev.push(Seq::empty()));
            }
        } else {
            let last = parts.len() - 1;
            parts[last].push(c);
            proof {
                assert(char_views(parts@) =~= prev.update(prev.len() - 1, prev.last().push(c)));
            }
        }
        i = i + 1;
    }
    proof {
        assert(s@.take(n as int) =~= s@);
    }
    parts
}

pub open spec fn is_digit(c: char) -> bool {
    '0' <= c <= '9'
}

pub open spec fn all_digits(s: Seq<char>) -> bool {
    forall|i: int| 0 <= i < s.len() ==> is_digit(#[trigger] s[i])
}

/// The value of a string of decimal digits.
pub open spec fn digits_value(s: Seq<char>) -> int
    decreases s.len(),
{
    if s.len() == 0 {
        0
    } else {
        digits_value(s.drop_last()) * 10 + (s.last() as int - '0' as int)
    }
}

/// `str::parse::<i64>`: an optional `+` or `-`, then one or more ASCII
/// digits, whose value must fit in `i64`.
pub open spec fn parse_i64_spec(s: Seq<char>) -> Option<i64> {
    if s.len() == 0 {
        None
    } else {
        let neg = s[0] == '-';
        let ds = if s[0] == '+' || s[0] == '-' { s.drop_first() } else { s };
        if ds.len() == 0 || !all_digits(ds) {
            None
        } else {
            let v = if neg { -digits_value(ds) } else { digits_value(ds) };
            if i64::MIN <= v <= i64::MAX {
                Some(v as i64)
            } else {
                None
            }
        }
    }
}

proof fn lemma_digits_value_nonneg(s: Seq<char>)
    requires
        all_digits(s),
    ensures
        digits_value(s) >= 0,
    decreases s.len(),
{
    if s.len() > 0 {
        assert(all_digits(s.drop_last()));
        lemma_digits_value_nonneg(s.drop_last());
    }
}

/// Parses a decimal `i64` the way `str::parse::<i64>` does.
pub fn parse_i64(s: &[char]) -> (r: Option<i64>)
    ensures
        r == parse_i64_spec(s@),
{
    let n = s.len();
    if n == 0 {
        return None;
    }
    let neg = s[0] == '-';
    let start: usize = if s[0] == '+' || s[0] == '-' { 1 } else { 0 };
    let ghost ds = if s@[0] == '+' || s@[0] == '-' { s@.drop_first() } else { s@ };
    proof {
        assert(ds =~= s@.subrange(start as int, n as int));
    }
    if start == n {
        return None;
    }
    let mut i = start;
    while i < n
        invariant
            n == s@.len(),
            start <= i <= n,
            ds == s@.subrange(start as int, n as int),
            n > 0,
            ds == (if s@[0] == '+' || s@[0] == '-' { s@.drop_first() } else { s@ }),
            forall|j: int| start <= j < i ==> is_digit(#[trigger] s@[j]),
        decreases n - i,
    {
        if !('0' <= s[i] && s[i] <= '9') {
            proof {
                assert(ds[i - start] == s@[i as int]);
                assert(!is_digit(ds[i - start]));
                assert(!all_digits(ds));
            }
            return None;
        }
        i = i + 1;
    }
    proof {
        assert forall|j: int| 0 <= j < ds.len() implies is_digit(#[trigger] ds[j]) by {
            assert(ds[j] == s@[start + j]);
        }
    }
    // value of the digits, capped just above the largest magnitude an i64 can hold
    let cap: u128 = 0x8000_0000_0000_0001;
    let mut acc: u128 = 0;
    let mut k = start;
    while k < n
        invariant
            n == s@.len(),
            start <= k <= n,
            ds == s@.subrange(start as int, n as int),
            n > 0,
            neg == (s@[0] == '-'),
            ds == (if s@[0] == '+' || s@[0] == '-' { s@.drop_first() } else { s@ }),
            all_digits(ds),
            acc <= cap,
            cap == 0x8000_0000_0000_0001,
            acc == (if digits_value(ds.take(k - start)) < cap {
                digits_value(ds.take(k - start))
            } else {
                cap as int
            }),
        decreases n - k,
    {
        proof {
            assert(ds[k - start] == s@[k as int]);
            assert(is_digit(ds[k - start]));
        }
        let d = (s[k] as u32 - '0' as u32) as u128;
        proof {
            assert(ds.take(k + 1 - start).drop_last() =~= ds.take(k - start));
            assert(ds.take(k + 1 - start).last() == s@[k as int]);
            assert(all_digits(ds.take(k - start)));
            lemma_digits_value_nonneg(ds.take(k - start));
        }
        let next = acc * 10 + d;
        acc = if next < cap { next } else { cap };
        k = k + 1;
    }
    proof {
        assert(ds.take(n - start) =~= ds);
    }
    if neg {
        if acc > 0x8000_0000_0000_0000 {
            None
        } else if acc == 0x8000_0000_0000_0000 {
            Some(i64::MIN)
        } else {
            Some(-(acc as i64))
        }
    } else {
        if acc > 0x7fff_ffff_ffff_ffff {
            None
        } else {
            Some(acc as i64)
        }
    }
}


/// The numbers among the `-`-separated pieces of `part` (pieces that do not parse are dropped).
pub open spec fn dash_numbers(part: Seq<char>) -> Seq<i64> {
    split_seq(part, '-').filter_map(|p: Seq<char>| parse_i64_spec(p))
}

/// The second count that a "YYYY-MM-DD_HH-MM-SS" timestamp stands for in
/// comparisons: day of month * 86400 + hour * 3600 + minute * 60 + second,
/// in wrapping `i64` arithmetic; `None` unless the timestamp has one `_`
/// and three numbers on each side of it.
pub open spec fn timestamp_seconds(ts: Seq<char>) -> Option<i64> {
    let parts = split_seq(ts, '_');
    if parts.len() != 2 {
        None
    } else {
        let date = dash_numbers(parts[0]);
        let time = dash_numbers(parts[1]);
        if date.len() != 3 || time.len() != 3 {
            None
        } else {
            Some(
                date[2].wrapping_mul(86400).wrapping_add(time[0].wrapping_mul(3600)).wrapping_add(
                    time[1].wrapping_mul(60),
                ).wrapping_add(time[2]),
            )
        }
    }
}

/// `i64::wrapping_abs`.
pub open spec fn wrapping_abs(v: i64) -> i64 {
    if v < 0 {
        0i64.wrapping_sub(v)
    } else {
        v
    }
}

/// The gap in seconds between two clip timestamps: 999 when either does not parse.
pub open spec fn timestamp_gap(a: Seq<char>, b: Seq<char>) -> i64 {
    match (timestamp_seconds(a), timestamp_seconds(b)) {
        (Some(x), Some(y)) => wrapping_abs(x.wrapping_sub(y)),
        _ => 999,
    }
}

fn dash_numbers_of(part: &[char]) -> (r: Vec<i64>)
    ensures
        r@ == dash_numbers(part@),
{
    let pieces = split_chars(part, '-');
    let ghost pv = char_views(pieces@);
    let mut out: Vec<i64> = Vec::new();
    let mut i: usize = 0;
    let np = pieces.len();
    while i < np
        invariant
            np == pieces@.len(),
            pv == char_views(pieces@),
            pv == split_seq(part@, '-'),
            i <= np,
            out@ == pv.take(i as int).filter_map(|p: Seq<char>| parse_i64_spec(p)),
        decreases np - i,
    {
        let v = parse_i64(pieces[i].as_slice());
        proof {
            pv.lemma_filter_map_take_succ(|p: Seq<char>| parse_i64_spec(p), i as int);
        }
        match v {
            Some(x) => {
                out.push(x);
            },
            None => {},
        }
        i = i + 1;
    }
    proof {
        assert(pv.take(np as int) =~= pv);
    }
    out
}

/// The second count of a clip timestamp (see `timestamp_seconds`).
pub fn timestamp_to_seconds(ts: &str) -> (r: Option<i64>)
    ensures
        r == timestamp_seconds(ts@),
{
    let cs = chars_of(ts);
    let parts = split_chars(cs.as_slice(), '_');
    if parts.len() != 2 {
        return None;
    }
    proof {
        assert(char_views(parts@)[0] == parts@[0]@);
        assert(char_views(parts@)[1] == parts@[1]@);
    }
    let date = dash_numbers_of(parts[0].as_slice());
    let time = dash_numbers_of(parts[1].as_slice());
    if date.len() != 3 || time.len() != 3 {
        return None;
    }
    Some(
        date[2].wrapping_mul(86400).wrapping_add(time[0].wrapping_mul(3600)).wrapping_add(
            time[1].wrapping_mul(60),
        ).wrapping_add(time[2]),
    )
}

/// The gap in seconds between two clip timestamps such as
/// "2026-03-22_20-34-32"; 999 when either cannot be read.  The day of the
/// month stands in for the date, which is enough to compare times on the same day.
pub fn timestamp_diff_seconds(ts_a: &str, ts_b: &str) -> (r: i64)
    ensures
        r == timestamp_gap(ts_a@, ts_b@),
{
    match (timestamp_to_seconds(ts_a), timestamp_to_seconds(ts_b)) {
        (Some(a), Some(b)) => {
            let d = a.wrapping_sub(b);
            if d < 0 {
                0i64.wrapping_sub(d)
            } else {
                d
            }
        },
        _ => 999,
    }
}

/// The gap between two timestamps does not depend on their order, and a
/// timestamp that can be read lies 0 seconds from itself.
pub proof fn lemma_timestamp_gap_symmetric(a: Seq<char>, b: Seq<char>)
    ensures
        timestamp_gap(a, b) == timestamp_gap(b, a),
        timestamp_seconds(a) is Some ==> timestamp_gap(a, a) == 0,
{
}

/// A timestamp that cannot be read counts as far from any other (999
/// seconds), so it never continues a recent driving session.
pub proof fn lemma_unreadable_timestamp_gap(a: Seq<char>, b: Seq<char>)
    requires
        timestamp_seconds(a) is None || timestamp_seconds(b) is None,
    ensures
        timestamp_gap(a, b) == 999,
        timestamp_gap(a, b) > 65,
{
}

} // verus!
