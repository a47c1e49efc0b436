//! H.264 NAL unit helpers: emulation-prevention removal and locating the
//! protobuf payload inside a Tesla SEI user-data NAL unit.
use vstd::prelude::*;
use vstd::slice::slice_subrange;

verus! {

/// The bytes of `d` with emulation-prevention bytes removed, given that the
/// bytes kept just before `d` end in `zeros` zero bytes: a `0x03` that comes
/// after two or more kept zero bytes is dropped and the zero run starts over.
pub open spec fn strip_from(d: Seq<u8>, zeros: nat) -> Seq<u8>
    decreases d.len(),
{
    if d.len() == 0 {
        Seq::empty()
    } else if zeros >= 2 && d[0] == 3 {
        strip_from(d.drop_first(), 0)
    } else {
        seq![d[0]] + strip_from(d.drop_first(), if d[0] == 0 { zeros + 1 } else { 0 })
    }
}

/// `d` with its emulation-prevention bytes removed.
pub open spec fn stripped(d: Seq<u8>) -> Seq<u8> {
    strip_from(d, 0)
}

proof fn lemma_strip_zeros_cap(d: Seq<u8>, zeros: nat)
    requires
        zeros >= 2,
    ensures
        strip_from(d, zeros) == strip_from(d, 2),
    decreases d.len(),
{
    if d.len() > 0 && !(d[0] == 3) {
        if d[0] == 0 {
            lemma_strip_zeros_cap(d.drop_first(), zeros + 1);
            lemma_strip_zeros_cap(d.drop_first(), 3);
        }
    }
}

/// Removes H.264 emulation-prevention bytes (a `0x03` after two zero bytes).
pub fn strip_emulation_prevention(data: &[u8]) -> (r: Vec<u8>)
    ensures
        r@ == stripped(data@),
{
    let n = data.len();
    let mut out: Vec<u8> = Vec::new();
    let mut zero_count: u32 = 0;
    let mut i: usize = 0;
    proof {
        assert(data@.subrange(0, n as int) =~= data@);
        assert(out@ + data@ =~= data@);
    }
    while i < n
        invariant
            n == data@.len(),
            i <= n,
            zero_count <= 2,
            stripped(data@) == out@ + strip_from(data@.subrange(i as int, n as int), zero_count as nat),
        decreases n - i,
    {
        let b = data[i];
        let ghost rest = data@.subrange(i as int, n as int);
        proof {
            assert(rest.drop_first() =~= data@.subrange(i + 1, n as int));
        }
        if zero_count >= 2 && b == 0x03 {
            zero_count = 0;
        } else {
            out.push(b);
            if b == 0 {
                proof {
                    if zero_count == 2 {
                        lemma_strip_zeros_cap(data@.subrange(i + 1, n as int), 3);
                    }
                }
                zero_count = if zero_count < 2 { zero_count + 1 } else { 2 };
            } else {
                zero_count = 0;
            }
            proof {
                assert(out@ =~= out@.drop_last() + seq![b]);
            }
        }
        i = i + 1;
    }
    proof {
        assert(data@.subrange(n as int, n as int) =~= Seq::<u8>::empty());
        assert(out@ + Seq::<u8>::empty() =~= out@);
    }
    out
}

/// The position, at or after `i`, of the first byte of `nal` (excluding its
/// last byte) that is not the `0x42` padding, if any.
pub open spec fn first_non_padding(nal: Seq<u8>, i: int) -> Option<int>
    decreases nal.len() - i,
{
    if i >= nal.len() - 1 {
        None
    } else if nal[i] == 0x42 {
        first_non_padding(nal, i + 1)
    } else {
        Some(i)
    }
}

/// The protobuf payload of a Tesla SEI NAL unit: after the 3-byte prefix,
/// skip `0x42` padding; a `0x69` marker then starts the payload, which runs
/// to the byte before the last (the RBSP trailing byte) and is unescaped.
pub open spec fn proto_payload(nal: Seq<u8>) -> Option<Seq<u8>> {
    if nal.len() < 5 {
        None
    } else {
        match first_non_padding(nal, 3) {
            Some(i) => if nal[i] == 0x69 {
                Some(stripped(nal.subrange(i + 1, nal.len() - 1)))
            } else {
                None
            },
            None => None,
        }
    }
}

/// Extracts and unescapes the protobuf payload of a Tesla SEI NAL unit.
pub fn extract_proto_payload(nal: &[u8]) -> (r: Option<Vec<u8>>)
    ensures
        r matches Some(v) ==> proto_payload(nal@) == Some(v@),
        r is None ==> proto_payload(nal@) is None,
{
    let n = nal.len();
    if n < 5 {
        return None;
    }
    let mut i: usize = 3;
    while i < n - 1
        invariant
            n == nal@.len(),
            n >= 5,
            3 <= i <= n - 1,
            first_non_padding(nal@, 3) == first_non_padding(nal@, i as int),
        decreases n - i,
    {
        let b = nal[i];
        if b == 0x42 {
            i = i + 1;
            continue;
        }
        if b == 0x69 && i > 2 {
            let body = slice_subrange(nal, i + 1, n - 1);
            return Some(strip_emulation_prevention(body));
        }
        return None;
    }
    None
}

/// Removing emulation-prevention bytes never lengthens the data, and data
/// without a zero byte is left as it is.
pub proof fn lemma_stripped_no_longer(d: Seq<u8>, zeros: nat)
    ensures
        strip_from(d, zeros).len() <= d.len(),
        zeros < 2 && (forall|i: int| 0 <= i < d.len() ==> d[i] != 0) ==> strip_from(d, zeros) == d,
    decreases d.len(),
{
    if d.len() > 0 {
        let z = if d[0] == 0 { zeros + 1 } else { 0 };
        if zeros >= 2 && d[0] == 3 {
            lemma_stripped_no_longer(d.drop_first(), 0);
        } else {
            lemma_stripped_no_longer(d.drop_first(), z);
            if zeros < 2 && (forall|i: int| 0 <= i < d.len() ==> d[i] != 0) {
                assert(forall|i: int| 0 <= i < d.drop_first().len() ==> d.drop_first()[i] == d[i + 1]);
                assert(seq![d[0]] + d.drop_first() =~= d);
            }
        }
    }
}

/// `p` with emulation-prevention bytes inserted, given that the bytes
/// written just before end in `zeros` zero bytes: after two zero bytes, a
/// byte of 3 or less is preceded by `0x03`, as an H.264 encoder writes it.
pub open spec fn escape_from(p: Seq<u8>, zeros: nat) -> Seq<u8>
    decreases p.len(),
{
    if p.len() == 0 {
        Seq::empty()
    } else if zeros >= 2 && p[0] <= 3 {
        seq![3u8, p[0]] + escape_from(p.drop_first(), if p[0] == 0 { 1 } else { 0 })
    } else {
        seq![p[0]] + escape_from(p.drop_first(), if p[0] == 0 { zeros + 1 } else { 0 })
    }
}

/// Removing emulation-prevention bytes undoes inserting them.
pub proof fn lemma_strip_undoes_escape(p: Seq<u8>, zeros: nat)
    ensures
        strip_from(escape_from(p, zeros), zeros) == p,
    decreases p.len(),
{
    if p.len() > 0 {
        let rest = p.drop_first();
        if zeros >= 2 && p[0] <= 3 {
            let z = if p[0] == 0 { 1nat } else { 0nat };
            let e = escape_from(p, zeros);
            lemma_strip_undoes_escape(rest, z);
            let e1 = e.drop_first();
            assert(e1 =~= seq![p[0]] + escape_from(rest, z));
            assert(e[0] == 3);
            assert(strip_from(e, zeros) == strip_from(e1, 0));
            assert(e1[0] == p[0]);
            assert(e1.drop_first() =~= escape_from(rest, z));
            assert(strip_from(e1, 0) == seq![p[0]] + strip_from(e1.drop_first(), z));
            assert(seq![p[0]] + rest =~= p);
        } else {
            let z = if p[0] == 0 { zeros + 1 } else { 0nat };
            let e = escape_from(p, zeros);
            lemma_strip_undoes_escape(rest, z);
            assert(e.drop_first() =~= escape_from(rest, z));
            assert(e[0] == p[0]);
            assert(strip_from(e, zeros) == seq![p[0]] + strip_from(e.drop_first(), z));
            assert(seq![p[0]] + rest =~= p);
        }
    }
}

/// The padding run scanned by `first_non_padding` ends at the first byte
/// that is not `0x42`.
proof fn lemma_first_non_padding_run(nal: Seq<u8>, i: int, k: nat)
    requires
        0 <= i,
        i + k < nal.len() - 1,
        forall|j: int| i <= j < i + k ==> nal[j] == 0x42,
        nal[i + k] != 0x42,
    ensures
        first_non_padding(nal, i) == Some(i + k),
    decreases k,
{
    if k > 0 {
        lemma_first_non_padding_run(nal, i + 1, (k - 1) as nat);
    }
}

/// A Tesla SEI unit read back: three header bytes, any number of `0x42`
/// padding bytes, the `0x69` marker, the escaped payload and a trailing
/// byte give back the payload.
pub proof fn lemma_payload_round_trip(header: Seq<u8>, pad: nat, p: Seq<u8>, trailer: u8)
    requires
        header.len() == 3,
    ensures
        proto_payload(
            header + Seq::new(pad, |_j: int| 0x42u8) + seq![0x69u8] + escape_from(p, 0) + seq![trailer],
        ) == Some(p),
{
    let padding = Seq::new(pad, |_j: int| 0x42u8);
    let e = escape_from(p, 0);
    let nal = header + padding + seq![0x69u8] + e + seq![trailer];
    let i: int = 3 + pad as int;
    assert(nal.len() == 3 + pad + 1 + e.len() + 1);
    assert forall|j: int| 3 <= j < 3 + pad implies nal[j] == 0x42 by {
        assert(nal[j] == padding[j - 3]);
    }
    assert(nal[i] == 0x69);
    lemma_first_non_padding_run(nal, 3, pad);
    assert(nal.subrange(i + 1, nal.len() - 1) =~= e);
    lemma_strip_undoes_escape(p, 0);
}

} // verus!
