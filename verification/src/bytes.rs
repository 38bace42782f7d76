//! Little-endian byte encoding helpers and byte-buffer primitives shared by
//! the fixup encoder and the header writer.

use vstd::prelude::*;
use vstd::pervasive::VecAdditionalExecFns;

verus! {

/// The two bytes of `v mod 2^16` in little-endian order.
pub open spec fn le16_of(v: int) -> Seq<u8> {
    seq![(v % 256) as u8, ((v / 256) % 256) as u8]
}

/// The four bytes of `v mod 2^32` in little-endian order.
pub open spec fn le32_of(v: int) -> Seq<u8> {
    seq![
        (v % 256) as u8,
        ((v / 256) % 256) as u8,
        ((v / 0x10000) % 256) as u8,
        ((v / 0x1000000) % 256) as u8,
    ]
}

/// The value of the four little-endian bytes of `s` starting at `off`.
pub open spec fn u32_of_le(s: Seq<u8>, off: int) -> int {
    s[off] + s[off + 1] * 256 + s[off + 2] * 0x10000 + s[off + 3] * 0x1000000
}

/// Appends `v` as two little-endian bytes.
pub fn push_u16_le(out: &mut Vec<u8>, v: u16)
    ensures
        final(out)@ == old(out)@ + le16_of(v as int),
{
    out.push((v % 256) as u8);
    out.push((v / 256) as u8);
    assert(out@ =~= old(out)@ + le16_of(v as int));
}

/// Appends the low 16 bits of `v` as two little-endian bytes.
pub fn push_u16_le_low(out: &mut Vec<u8>, v: u32)
    ensures
        final(out)@ == old(out)@ + le16_of(v as int),
{
    out.push((v % 256) as u8);
    out.push(((v / 256) % 256) as u8);
    assert(out@ =~= old(out)@ + le16_of(v as int));
}

/// Appends `v` as four little-endian bytes.
pub fn push_u32_le(out: &mut Vec<u8>, v: u32)
    ensures
        final(out)@ == old(out)@ + le32_of(v as int),
{
    out.push((v % 256) as u8);
    out.push(((v / 256) % 256) as u8);
    out.push(((v / 0x10000) % 256) as u8);
    out.push((v / 0x1000000) as u8);
    assert(out@ =~= old(out)@ + le32_of(v as int));
}

/// Reads a `u32` stored in little-endian order at `off`.
pub fn read_u32_le(src: &Vec<u8>, off: usize) -> (v: u32)
    requires
        off + 4 <= src@.len(),
    ensures
        v == u32_of_le(src@, off as int),
{
    let n: usize = src.len();
    src[off] as u32 + src[off + 1] as u32 * 256 + src[off + 2] as u32 * 0x10000 + src[off + 3]
        as u32 * 0x1000000
}

/// Whether two byte vectors hold the same bytes.
pub fn bytes_eq(a: &Vec<u8>, b: &Vec<u8>) -> (r: bool)
    ensures
        r <==> a@ == b@,
{
    if a.len() != b.len() {
        assert(a@ != b@);
        return false;
    }
    let n: usize = a.len();
    let mut i: usize = 0;
    while i < n
        invariant
            n == a@.len(),
            n == b@.len(),
            i <= n,
            forall|j: int| 0 <= j < i ==> a@[j] == b@[j],
        decreases n - i,
    {
        if a[i] != b[i] {
            return false;
        }
        i += 1;
    }
    assert(a@ =~= b@);
    true
}

/// Overwrites `buf` at `off` with `bytes`, first extending `buf` with zero
/// bytes whenever it is shorter than the region written.
pub fn write_bytes_at(buf: &mut Vec<u8>, off: usize, bytes: &Vec<u8>)
    requires
        off + bytes@.len() <= usize::MAX,
    ensures
        final(buf)@ == spec_write_at(old(buf)@, off as int, bytes@),
{
    let end: usize = off + bytes.len();
    while buf.len() < end
        invariant
            end == off + bytes@.len(),
            old(buf)@.len() <= buf@.len(),
            forall|j: int| 0 <= j < old(buf)@.len() ==> buf@[j] == old(buf)@[j],
            forall|j: int| old(buf)@.len() <= j < buf@.len() ==> buf@[j] == 0u8,
            buf@.len() <= end || buf@.len() == old(buf)@.len(),
        decreases end - buf@.len(),
    {
        buf.push(0);
    }
    let ghost padded: Seq<u8> = buf@;
    proof {
        assert(padded.len() == if old(buf)@.len() >= end {
            old(buf)@.len() as int
        } else {
            end as int
        });
    }
    let mut k: usize = 0;
    while k < bytes.len()
        invariant
            end == off + bytes@.len(),
            end <= padded.len(),
            padded.len() == buf@.len(),
            old(buf)@.len() <= padded.len(),
            padded.len() == if old(buf)@.len() >= end {
                old(buf)@.len() as int
            } else {
                end as int
            },
            forall|j: int| 0 <= j < old(buf)@.len() ==> padded[j] == old(buf)@[j],
            forall|j: int| old(buf)@.len() <= j < padded.len() ==> padded[j] == 0u8,
            k <= bytes@.len(),
            forall|j: int| 0 <= j < k ==> buf@[off + j] == bytes@[j],
            forall|j: int| 0 <= j < buf@.len() && !(off <= j < off + k) ==> buf@[j] == padded[j],
        decreases bytes@.len() - k,
    {
        buf.set(off + k, bytes[k]);
        k += 1;
    }
    assert forall|j: int| off <= j < off + bytes@.len() implies buf@[j] == bytes@[j - off] by {
        assert(buf@[off + (j - off)] == bytes@[j - off]);
    }
    let ghost target: Seq<u8> = spec_write_at(old(buf)@, off as int, bytes@);
    assert(buf@.len() == target.len());
    assert(k == bytes@.len());
    assert(forall|j2: int| 0 <= j2 < bytes@.len() ==> buf@[off + j2] == bytes@[j2]);
    assert(forall|j2: int|
        0 <= j2 < buf@.len() && !(off <= j2 < off + bytes@.len()) ==> buf@[j2] == padded[j2]);
    assert forall|j: int| 0 <= j < buf@.len() implies buf@[j] == target[j] by {
        if off <= j < off + bytes@.len() {
            assert(target[j] == bytes@[j - off]);
            assert(buf@[off + (j - off)] == bytes@[j - off]);
        } else if j < old(buf)@.len() {
            assert(target[j] == old(buf)@[j]);
            assert(buf@[j] == padded[j]);
        } else {
            assert(target[j] == 0u8);
            assert(buf@[j] == padded[j]);
        }
    }
    assert(buf@ =~= target);
}

/// The result of overwriting `s` at `off` with `w`, extending with zero
/// bytes where `s` is too short.
pub open spec fn spec_write_at(s: Seq<u8>, off: int, w: Seq<u8>) -> Seq<u8> {
    Seq::new(
        if s.len() >= off + w.len() {
            s.len()
        } else {
            (off + w.len()) as nat
        },
        |j: int|
            if off <= j < off + w.len() {
                w[j - off]
            } else if j < s.len() {
                s[j]
            } else {
                0u8
            },
    )
}

} // verus!
