//! Big- and little-endian integer reads and 4-byte tag search over byte slices.
use vstd::prelude::*;

verus! {

/// The big-endian `u32` stored at `s[i..i + 4]`.
pub open spec fn be_u32(s: Seq<u8>, i: int) -> int {
    s[i] * 0x1000000 + s[i + 1] * 0x10000 + s[i + 2] * 0x100 + s[i + 3]
}

/// The big-endian `u64` stored at `s[i..i + 8]`.
pub open spec fn be_u64(s: Seq<u8>, i: int) -> int {
    be_u32(s, i) * 0x1_0000_0000 + be_u32(s, i + 4)
}

/// The little-endian `u32` stored at `s[i..i + 4]`.
pub open spec fn le_u32(s: Seq<u8>, i: int) -> int {
    s[i + 3] * 0x1000000 + s[i + 2] * 0x10000 + s[i + 1] * 0x100 + s[i]
}

/// The little-endian `u64` stored at `s[i..i + 8]`.
pub open spec fn le_u64(s: Seq<u8>, i: int) -> int {
    le_u32(s, i + 4) * 0x1_0000_0000 + le_u32(s, i)
}

/// Whether the four bytes at `s[i..i + 4]` spell `name`.
pub open spec fn tag_at(s: Seq<u8>, i: int, name: Seq<u8>) -> bool {
    &&& 0 <= i
    &&& i + 4 <= s.len()
    &&& s[i] == name[0]
    &&& s[i + 1] == name[1]
    &&& s[i + 2] == name[2]
    &&& s[i + 3] == name[3]
}

/// The first position at which `name` occurs as a 4-byte window of `s`, if any.
#[verifier::opaque]
pub open spec fn first_tag(s: Seq<u8>, name: Seq<u8>) -> Option<int> {
    if exists|i: int| tag_at(s, i, name) {
        let i = choose|i: int| tag_at(s, i, name) && forall|j: int| 0 <= j < i ==> !tag_at(s, j, name);
        Some(i)
    } else {
        None
    }
}

proof fn lemma_first_tag_unique(s: Seq<u8>, name: Seq<u8>, i: int)
    requires
        tag_at(s, i, name),
        forall|j: int| 0 <= j < i ==> !tag_at(s, j, name),
    ensures
        first_tag(s, name) == Some(i),
{
    reveal(first_tag);
    let k = choose|k: int| tag_at(s, k, name) && forall|j: int| 0 <= j < k ==> !tag_at(s, j, name);
    assert(tag_at(s, k, name) && forall|j: int| 0 <= j < k ==> !tag_at(s, j, name));
    if k < i {
        assert(!tag_at(s, k, name));
    }
    if i < k {
        assert(!tag_at(s, i, name));
    }
}

/// Reads the big-endian `u32` at `offset`.
pub fn read_u32_be(data: &[u8], offset: usize) -> (r: u32)
    requires
        offset + 4 <= data@.len(),
    ensures
        r == be_u32(data@, offset as int),
{
    let b0 = data[offset] as u32;
    let b1 = data[offset + 1] as u32;
    let b2 = data[offset + 2] as u32;
    let b3 = data[offset + 3] as u32;
    b0 * 0x1000000 + b1 * 0x10000 + b2 * 0x100 + b3
}

/// Reads the big-endian `u64` at `offset`.
pub fn read_u64_be(data: &[u8], offset: usize) -> (r: u64)
    requires
        offset + 8 <= data@.len(),
    ensures
        r == be_u64(data@, offset as int),
{
    let _n = data.len();
    let hi = read_u32_be(data, offset) as u64;
    let lo = read_u32_be(data, offset + 4) as u64;
    hi * 0x1_0000_0000 + lo
}

/// Reads the little-endian `u32` at `offset`.
pub fn read_u32_le(data: &[u8], offset: usize) -> (r: u32)
    requires
        offset + 4 <= data@.len(),
    ensures
        r == le_u32(data@, offset as int),
{
    let b0 = data[offset] as u32;
    let b1 = data[offset + 1] as u32;
    let b2 = data[offset + 2] as u32;
    let b3 = data[offset + 3] as u32;
    b3 * 0x1000000 + b2 * 0x10000 + b1 * 0x100 + b0
}

/// Reads the little-endian `u64` at `offset`.
pub fn read_u64_le(data: &[u8], offset: usize) -> (r: u64)
    requires
        offset + 8 <= data@.len(),
    ensures
        r == le_u64(data@, offset as int),
{
    let _n = data.len();
    let lo = read_u32_le(data, offset) as u64;
    let hi = read_u32_le(data, offset + 4) as u64;
    hi * 0x1_0000_0000 + lo
}

/// The position of the first 4-byte window of `data` equal to `name`.
pub fn find_atom(data: &[u8], name: &[u8; 4]) -> (r: Option<usize>)
    ensures
        r matches Some(i) ==> first_tag(data@, name@) == Some(i as int) && i + 4 <= data@.len(),
        r is None ==> first_tag(data@, name@) is None,
{
    reveal(first_tag);
    let n = data.len();
    if n < 4 {
        assert(forall|i: int| !tag_at(data@, i, name@));
        return None;
    }
    let mut i: usize = 0;
    while i <= n - 4
        invariant
            n == data@.len(),
            n >= 4,
            name@.len() == 4,
            i <= n,
            forall|j: int| 0 <= j < i ==> !tag_at(data@, j, name@),
        decreases n - i,
    {
        if data[i] == name[0] && data[i + 1] == name[1] && data[i + 2] == name[2] && data[i + 3]
            == name[3] {
            proof {
                lemma_first_tag_unique(data@, name@, i as int);
            }
            return Some(i);
        }
        i = i + 1;
    }
    assert(forall|j: int| !tag_at(data@, j, name@));
    None
}

} // verus!
