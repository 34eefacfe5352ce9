//! Byte-level helpers shared by the container parsers.
use vstd::prelude::*;

verus! {

/// The big-endian 32-bit number stored at `b[i..i + 4]`.
pub open spec fn be32(b: Seq<u8>, i: int) -> int {
    b[i] * 0x1000000 + b[i + 1] * 0x10000 + b[i + 2] * 0x100 + b[i + 3]
}

/// The little-endian 32-bit number stored at `b[i..i + 4]`.
pub open spec fn le32(b: Seq<u8>, i: int) -> int {
    b[i] + b[i + 1] * 0x100 + b[i + 2] * 0x10000 + b[i + 3] * 0x1000000
}

/// The big-endian 16-bit number stored at `b[i..i + 2]`.
pub open spec fn be16(b: Seq<u8>, i: int) -> int {
    b[i] * 0x100 + b[i + 1]
}

/// Whether `b` begins with `prefix`.
pub open spec fn has_prefix(b: Seq<u8>, prefix: Seq<u8>) -> bool {
    prefix.len() <= b.len() && b.subrange(0, prefix.len() as int) == prefix
}

pub fn read_be32(b: &[u8], i: usize) -> (v: u32)
    requires
        i + 4 <= b@.len(),
    ensures
        v == be32(b@, i as int),
{
    (b[i] as u32) * 0x1000000 + (b[i + 1] as u32) * 0x10000 + (b[i + 2] as u32) * 0x100 + (b[i
        + 3] as u32)
}

pub fn read_le32(b: &[u8], i: usize) -> (v: u32)
    requires
        i + 4 <= b@.len(),
    ensures
        v == le32(b@, i as int),
{
    (b[i] as u32) + (b[i + 1] as u32) * 0x100 + (b[i + 2] as u32) * 0x10000 + (b[i + 3] as u32)
        * 0x1000000
}

pub fn read_be16(b: &[u8], i: usize) -> (v: u16)
    requires
        i + 2 <= b@.len(),
    ensures
        v == be16(b@, i as int),
{
    (b[i] as u16) * 0x100 + (b[i + 1] as u16)
}

/// Whether `b` begins with `prefix`.
pub fn starts_with(b: &[u8], prefix: &[u8]) -> (r: bool)
    ensures
        r == has_prefix(b@, prefix@),
{
    if prefix.len() > b.len() {
        return false;
    }
    let mut i: usize = 0;
    while i < prefix.len()
        invariant
            i <= prefix.len() <= b.len(),
            forall|j: int| 0 <= j < i ==> b@[j] == prefix@[j],
        decreases prefix.len() - i,
    {
        if b[i] != prefix[i] {
            assert(b@.subrange(0, prefix@.len() as int)[i as int] != prefix@[i as int]);
            return false;
        }
        i = i + 1;
    }
    assert(b@.subrange(0, prefix@.len() as int) =~= prefix@);
    true
}

/// Whether two byte sequences are equal.
pub fn same_bytes(a: &[u8], b: &[u8]) -> (r: bool)
    ensures
        r == (a@ == b@),
{
    if a.len() != b.len() {
        assert(a@.len() != b@.len());
        return false;
    }
    let mut i: usize = 0;
    while i < a.len()
        invariant
            i <= a.len() == b.len(),
            forall|j: int| 0 <= j < i ==> a@[j] == b@[j],
        decreases a.len() - i,
    {
        if a[i] != b[i] {
            assert(a@[i as int] != b@[i as int]);
            return false;
        }
        i = i + 1;
    }
    assert(a@ =~= b@);
    true
}

/// Appends `src[from..to]` to `out`.
pub fn append_range(out: &mut Vec<u8>, src: &[u8], from: usize, to: usize)
    requires
        from <= to <= src@.len(),
    ensures
        final(out)@ == old(out)@ + src@.subrange(from as int, to as int),
{
    let ghost start = out@;
    let mut i = from;
    while i < to
        invariant
            from <= i <= to <= src@.len(),
            out@ == start + src@.subrange(from as int, i as int),
        decreases to - i,
    {
        out.push(src[i]);
        i = i + 1;
        assert(src@.subrange(from as int, i as int) == src@.subrange(from as int, i - 1) + seq![
            src@[i - 1],
        ]);
    }
}

} // verus!
