//! Character-level string helpers with their specifications.
use vstd::prelude::*;
use vstd::string::StrSliceExecFns;

verus! {

/// The characters of `s`, in order.
pub fn chars_of(s: &str) -> (r: Vec<char>)
    ensures
        r@ == s@,
{
    let n = s.unicode_len();
    let mut r: Vec<char> = Vec::new();
    let mut i: usize = 0;
    while i < n
        invariant
            n == s@.len(),
            i <= n,
            r@ == s@.take(i as int),
        decreases n - i,
    {
        r.push(s.get_char(i));
        proof {
            assert(s@.take(i + 1) =~= s@.take(i as int).push(s@[i as int]));
        }
        i = i + 1;
    }
    proof {
        assert(s@.take(n as int) =~= s@);
    }
    r
}

/// std's `String::from_iter` over the characters `cs`: the contract claims
/// that the string holds exactly those characters, in order.
#[verifier::external_body]
pub(crate) fn string_from_chars(cs: &[char]) -> (r: String)
    ensures
        r@ == cs@,
{
    String::from_iter(cs)
}

/// `s` with every `from` replaced by `to`.
pub open spec fn replace_all(s: Seq<char>, from: char, to: char) -> Seq<char> {
    s.map_values(|c: char| if c == from { to } else { c })
}

/// `s` with the first `n` occurrences of `from` replaced by `to`.
pub open spec fn replace_first(s: Seq<char>, from: char, to: char, n: nat) -> Seq<char>
    decreases s.len(),
{
    if s.len() == 0 {
        s
    } else if s[0] == from && n > 0 {
        seq![to] + replace_first(s.drop_first(), from, to, (n - 1) as nat)
    } else {
        seq![s[0]] + replace_first(s.drop_first(), from, to, n)
    }
}

proof fn lemma_replace_first_step(s: Seq<char>, i: int, from: char, to: char, n: nat)
    requires
        0 <= i < s.len(),
    ensures
        replace_first(s.subrange(i, s.len() as int), from, to, n) == seq![
            if s[i] == from && n > 0 { to } else { s[i] },
        ] + replace_first(
            s.subrange(i + 1, s.len() as int),
            from,
            to,
            if s[i] == from && n > 0 { (n - 1) as nat } else { n },
        ),
{
    assert(s.subrange(i, s.len() as int).drop_first() =~= s.subrange(i + 1, s.len() as int));
}

/// Replaces the first `n` occurrences of `from` by `to`.
pub fn replace_first_chars(s: &[char], from: char, to: char, n: usize) -> (r: Vec<char>)
    ensures
        r@ == replace_first(s@, from, to, n as nat),
{
    let len = s.len();
    let mut r: Vec<char> = Vec::new();
    let mut left = n;
    let mut i: usize = 0;
    proof {
        assert(s@.subrange(0, len as int) =~= s@);
        assert(Seq::<char>::empty() + s@ =~= s@);
    }
    while i < len
        invariant
            len == s@.len(),
            i <= len,
            replace_first(s@, from, to, n as nat) == r@ + replace_first(
                s@.subrange(i as int, len as int),
                from,
                to,
                left as nat,
            ),
        decreases len - i,
    {
        proof {
            lemma_replace_first_step(s@, i as int, from, to, left as nat);
        }
        let c = s[i];
        if c == from && left > 0 {
            r.push(to);
            left = left - 1;
        } else {
            r.push(c);
        }
        proof {
            assert(r@ =~= r@.drop_last() + seq![r@.last()]);
        }
        i = i + 1;
    }
    proof {
        assert(s@.subrange(len as int, len as int) =~= Seq::<char>::empty());
        assert(r@ + Seq::<char>::empty() =~= r@);
    }
    r
}

/// Replaces every `from` by `to`.
pub fn replace_all_chars(s: &[char], from: char, to: char) -> (r: Vec<char>)
    ensures
        r@ == replace_all(s@, from, to),
{
    let len = s.len();
    let mut r: Vec<char> = Vec::new();
    let mut i: usize = 0;
    while i < len
        invariant
            len == s@.len(),
            i <= len,
            r@ == replace_all(s@.take(i as int), from, to),
        decreases len - i,
    {
        let c = s[i];
        if c == from {
            r.push(to);
        } else {
            r.push(c);
        }
        proof {
            assert(s@.take(i + 1) =~= s@.take(i as int).push(s@[i as int]));
            assert(replace_all(s@.take(i + 1), from, to) =~= replace_all(s@.take(i as int), from, to).push(
                if s@[i as int] == from { to } else { s@[i as int] },
            ));
        }
        i = i + 1;
    }
    proof {
        assert(s@.take(len as int) =~= s@);
    }
    r
}

/// Whether `needle` occurs in `s` at position `i`.
pub open spec fn occurs_at(s: Seq<char>, needle: Seq<char>, i: int) -> bool {
    0 <= i && i + needle.len() <= s.len() && s.subrange(i, i + needle.len()) == needle
}

/// Whether `needle` occurs in `s`.
pub open spec fn contains_seq(s: Seq<char>, needle: Seq<char>) -> bool {
    exists|i: int| occurs_at(s, needle, i)
}

/// Whether `s` ends with `suffix`.
pub open spec fn ends_with_seq(s: Seq<char>, suffix: Seq<char>) -> bool {
    suffix.len() <= s.len() && s.subrange(s.len() - suffix.len(), s.len() as int) == suffix
}

fn matches_at(s: &[char], needle: &[char], i: usize) -> (r: bool)
    requires
        i + needle@.len() <= s@.len(),
    ensures
        r == (s@.subrange(i as int, i + needle@.len()) == needle@),
{
    let m = needle.len();
    let sl = s.len();
    let mut k: usize = 0;
    while k < m
        invariant
            m == needle@.len(),
            sl == s@.len(),
            i + m <= s@.len(),
            k <= m,
            forall|j: int| 0 <= j < k ==> s@[i + j] == needle@[j],
        decreases m - k,
    {
        if s[i + k] != needle[k] {
            proof {
                assert(s@.subrange(i as int, i + m)[k as int] != needle@[k as int]);
            }
            return false;
        }
        k = k + 1;
    }
    proof {
        assert(s@.subrange(i as int, i + m) =~= needle@);
    }
    true
}

/// Whether `needle` occurs in `s`.
pub fn contains_chars(s: &[char], needle: &[char]) -> (r: bool)
    ensures
        r == contains_seq(s@, needle@),
{
    let n = s.len();
    let m = needle.len();
    if m > n {
        return false;
    }
    if m == 0 {
        assert(s@.subrange(0, 0) =~= needle@);
        assert(occurs_at(s@, needle@, 0));
        return true;
    }
    let mut i: usize = 0;
    while i <= n - m
        invariant
            n == s@.len(),
            m == needle@.len(),
            0 < m <= n,
            i <= n - m + 1,
            forall|j: int| 0 <= j < i ==> !occurs_at(s@, needle@, j),
        decreases n - m + 1 - i,
    {
        if matches_at(s, needle, i) {
            assert(occurs_at(s@, needle@, i as int));
            return true;
        }
        i = i + 1;
    }
    false
}

/// Whether `s` ends with `suffix`.
pub fn ends_with_chars(s: &[char], suffix: &[char]) -> (r: bool)
    ensures
        r == ends_with_seq(s@, suffix@),
{
    let n = s.len();
    let m = suffix.len();
    if m > n {
        return false;
    }
    matches_at(s, suffix, n - m)
}


/// Lexicographic order on character sequences, comparing code points (the
/// order of `String`'s `Ord`, as UTF-8 preserves code-point order).
pub open spec fn lex_lt(a: Seq<char>, b: Seq<char>) -> bool
    decreases a.len(),
{
    if b.len() == 0 {
        false
    } else if a.len() == 0 {
        true
    } else if a[0] < b[0] {
        true
    } else if a[0] == b[0] {
        lex_lt(a.drop_first(), b.drop_first())
    } else {
        false
    }
}

pub proof fn lemma_lex_irreflexive(a: Seq<char>)
    ensures
        !lex_lt(a, a),
    decreases a.len(),
{
    if a.len() > 0 {
        lemma_lex_irreflexive(a.drop_first());
    }
}

pub proof fn lemma_lex_total(a: Seq<char>, b: Seq<char>)
    ensures
        a != b ==> lex_lt(a, b) || lex_lt(b, a),
    decreases a.len(),
{
    if a.len() > 0 && b.len() > 0 {
        if a[0] == b[0] {
            lemma_lex_total(a.drop_first(), b.drop_first());
            if a.drop_first() == b.drop_first() {
                assert(a =~= seq![a[0]] + a.drop_first());
                assert(b =~= seq![b[0]] + b.drop_first());
            }
        }
    } else if a.len() == 0 && b.len() == 0 {
        assert(a =~= b);
    }
}

pub proof fn lemma_lex_transitive(a: Seq<char>, b: Seq<char>, c: Seq<char>)
    requires
        lex_lt(a, b),
        lex_lt(b, c),
    ensures
        lex_lt(a, c),
    decreases a.len(),
{
    if a.len() > 0 && a[0] == b[0] && b[0] == c[0] {
        lemma_lex_transitive(a.drop_first(), b.drop_first(), c.drop_first());
    }
}

/// Whether `a` comes before `b` in lexicographic order.
pub fn chars_lt(a: &[char], b: &[char]) -> (r: bool)
    ensures
        r == lex_lt(a@, b@),
{
    let n = a.len();
    let m = b.len();
    let mut i: usize = 0;
    proof {
        assert(a@.skip(0) =~= a@);
        assert(b@.skip(0) =~= b@);
    }
    while i < n && i < m
        invariant
            n == a@.len(),
            m == b@.len(),
            i <= n,
            i <= m,
            lex_lt(a@, b@) == lex_lt(a@.skip(i as int), b@.skip(i as int)),
        decreases n - i,
    {
        let ca = a[i];
        let cb = b[i];
        proof {
            assert(a@.skip(i as int)[0] == ca);
            assert(b@.skip(i as int)[0] == cb);
            assert(a@.skip(i as int).drop_first() =~= a@.skip(i + 1));
            assert(b@.skip(i as int).drop_first() =~= b@.skip(i + 1));
        }
        if ca < cb {
            return true;
        }
        if ca != cb {
            return false;
        }
        i = i + 1;
    }
    i < m
}

/// `a` followed by `b`.
pub fn concat_str(a: &str, b: &str) -> (r: String)
    ensures
        r@ == a@ + b@,
{
    let mut cs = chars_of(a);
    let bs = chars_of(b);
    let n = bs.len();
    let mut i: usize = 0;
    while i < n
        invariant
            n == b@.len(),
            bs@ == b@,
            i <= n,
            cs@ == a@ + b@.take(i as int),
        decreases n - i,
    {
        cs.push(bs[i]);
        proof {
            assert(a@ + b@.take(i + 1) =~= (a@ + b@.take(i as int)).push(b@[i as int]));
        }
        i = i + 1;
    }
    proof {
        assert(b@.take(n as int) =~= b@);
    }
    string_from_chars(cs.as_slice())
}

/// Characters before the first `from` are passed over by `replace_first`.
pub proof fn lemma_replace_first_skip(a: Seq<char>, b: Seq<char>, from: char, to: char, n: nat)
    requires
        forall|i: int| 0 <= i < a.len() ==> a[i] != from,
    ensures
        replace_first(a + b, from, to, n) == a + replace_first(b, from, to, n),
    decreases a.len(),
{
    if a.len() > 0 {
        assert((a + b).drop_first() =~= a.drop_first() + b);
        lemma_replace_first_skip(a.drop_first(), b, from, to, n);
        assert(seq![a[0]] + (a.drop_first() + replace_first(b, from, to, n)) =~= a + replace_first(
            b,
            from,
            to,
            n,
        ));
    }
}

/// Replacing no occurrence changes nothing.
pub proof fn lemma_replace_first_none(s: Seq<char>, from: char, to: char)
    ensures
        replace_first(s, from, to, 0) == s,
    decreases s.len(),
{
    if s.len() > 0 {
        lemma_replace_first_none(s.drop_first(), from, to);
        assert(seq![s[0]] + s.drop_first() =~= s);
    }
}

/// An occurrence of `from` at the front is replaced while replacements remain.
pub proof fn lemma_replace_first_front(b: Seq<char>, from: char, to: char, n: nat)
    requires
        n > 0,
    ensures
        replace_first(seq![from] + b, from, to, n) == seq![to] + replace_first(b, from, to, (n - 1) as nat),
{
    assert((seq![from] + b).drop_first() =~= b);
}

} // verus!
