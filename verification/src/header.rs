//! LE header writer: patches the header fields inside the stub template,
//! lays the page table, resident name table, entry table and fixup tables
//! after it, and appends the page data of the two objects.

use vstd::prelude::*;
use vstd::pervasive::VecAdditionalExecFns;
use crate::bytes::{le32_of, push_u32_le};
use crate::fixup::FixupTables;

verus! {

/// Offset of the LE header within the stub.
pub open spec fn header_base() -> int {
    0x80
}

/// Offset of the page table within the file: header base plus 0xF4.
pub open spec fn page_table_base() -> int {
    0x174
}

/// One page table entry: the big-endian form of `page << 8`, which places
/// the 1-based page number in the upper three bytes and zero flags below.
pub open spec fn spec_page_entry(p: int) -> Seq<u8> {
    seq![((p / 0x10000) % 256) as u8, ((p / 256) % 256) as u8, (p % 256) as u8, 0u8]
}

/// The resident name table: the length-prefixed name `ELFLE` and a
/// two-byte zero ordinal.
pub open spec fn spec_name_table() -> Seq<u8> {
    seq![0x05u8, 0x45u8, 0x4cu8, 0x46u8, 0x4cu8, 0x45u8, 0u8, 0u8]
}

/// The tables that follow the header region, in file order: page table,
/// resident name table, entry table, fixup page offset table, fixup
/// record stream.
pub open spec fn spec_tables(total_pages: int, t: FixupTables) -> Seq<u8> {
    spec_page_table(total_pages) + spec_name_table() + seq![0u8, 0u8] + spec_offset_bytes(
        t.page_offsets@,
    ) + t.records@
}

/// The page table: one entry per page, numbered from 1.
pub open spec fn spec_page_table(total_pages: int) -> Seq<u8>
    decreases total_pages,
{
    if total_pages <= 0 {
        Seq::empty()
    } else {
        spec_page_table(total_pages - 1) + spec_page_entry(total_pages)
    }
}

/// The fixup page offset table as little-endian bytes.
pub open spec fn spec_offset_bytes(offs: Seq<u32>) -> Seq<u8>
    decreases offs.len(),
{
    if offs.len() == 0 {
        Seq::empty()
    } else {
        spec_offset_bytes(offs.drop_last()) + le32_of(offs.last() as int)
    }
}

/// The length of the page table grows four bytes per page.
pub proof fn lemma_page_table_len(total_pages: int)
    requires
        total_pages >= 0,
    ensures
        spec_page_table(total_pages).len() == 4 * total_pages,
    decreases total_pages,
{
    if total_pages > 0 {
        lemma_page_table_len(total_pages - 1);
    }
}

/// The offset table occupies four bytes per entry.
pub proof fn lemma_offset_bytes_len(offs: Seq<u32>)
    ensures
        spec_offset_bytes(offs).len() == 4 * offs.len(),
    decreases offs.len(),
{
    if offs.len() > 0 {
        lemma_offset_bytes_len(offs.drop_last());
    }
}

/// Number of 0x1000-byte pages that hold `len` bytes.
pub open spec fn spec_page_count(len: int) -> int {
    if len % 0x1000 == 0 {
        len / 0x1000
    } else {
        len / 0x1000 + 1
    }
}

/// Number of 0x1000-byte pages that hold `len` bytes; the object's bytes
/// always fit within that many pages.
pub fn page_count(len: usize) -> (n: usize)
    ensures
        n == spec_page_count(len as int),
        len <= n * 0x1000,
        n * 0x1000 < len + 0x1000,
{
    proof {
        vstd::arithmetic::div_mod::lemma_fundamental_div_mod(len as int, 0x1000);
    }
    if len % 0x1000 == 0 {
        len / 0x1000
    } else {
        len / 0x1000 + 1
    }
}

/// Law: the fixup section length written to the header equals four bytes
/// per page offset entry plus the length of the record stream.
pub open spec fn spec_fixup_section_length(t: FixupTables) -> int {
    4 * t.page_offsets@.len() + t.records@.len() as int
}

/// The header's fixup section length field.
pub fn fixup_section_length(t: &FixupTables) -> (n: u32)
    requires
        4 * t.page_offsets@.len() + t.records@.len() <= u32::MAX,
    ensures
        n == spec_fixup_section_length(*t),
{
    (t.page_offsets.len() as u32) * 4 + t.records.len() as u32
}

/// Builds the byte run that follows the first 0x174 bytes of the file:
/// page table, resident name table, entry table, and the two fixup tables.
pub fn build_tables(total_pages: u32, t: &FixupTables) -> (out: Vec<u8>)
    requires
        total_pages < 0x1000000,
    ensures
        out@ == spec_tables(total_pages as int, *t),
        out@.len() == 4 * total_pages + 10 + 4 * t.page_offsets@.len() + t.records@.len(),
{
    let mut out: Vec<u8> = Vec::new();
    let mut p: u32 = 1;
    while p <= total_pages
        invariant
            total_pages < 0x1000000,
            1 <= p,
            p <= total_pages + 1,
            out@ == spec_page_table(p - 1),
        decreases total_pages + 1 - p,
    {
        out.push((p / 0x10000) as u8);
        out.push(((p / 256) % 256) as u8);
        out.push((p % 256) as u8);
        out.push(0);
        assert(out@ =~= spec_page_table(p - 1) + spec_page_entry(p as int));
        p += 1;
    }
    proof {
        lemma_page_table_len(total_pages as int);
    }
    out.push(0x05);
    out.push(0x45);
    out.push(0x4c);
    out.push(0x46);
    out.push(0x4c);
    out.push(0x45);
    out.push(0);
    out.push(0);
    out.push(0);
    out.push(0);
    let ghost mid: Seq<u8> = out@;
    proof {
        assert(mid =~= spec_page_table(total_pages as int) + spec_name_table() + seq![0u8, 0u8]);
    }
    let mut k: usize = 0;
    while k < t.page_offsets.len()
        invariant
            k <= t.page_offsets@.len(),
            out@ == mid + spec_offset_bytes(t.page_offsets@.take(k as int)),
        decreases t.page_offsets@.len() - k,
    {
        push_u32_le(&mut out, t.page_offsets[k]);
        proof {
            assert(t.page_offsets@.take(k + 1).drop_last() =~= t.page_offsets@.take(k as int));
            assert(out@ =~= mid + spec_offset_bytes(t.page_offsets@.take(k + 1)));
        }
        k += 1;
    }
    proof {
        assert(t.page_offsets@.take(t.page_offsets@.len() as int) =~= t.page_offsets@);
        lemma_offset_bytes_len(t.page_offsets@);
    }
    let mut r: usize = 0;
    while r < t.records.len()
        invariant
            r <= t.records@.len(),
            out@ == mid + spec_offset_bytes(t.page_offsets@) + t.records@.take(r as int),
        decreases t.records@.len() - r,
    {
        out.push(t.records[r]);
        proof {
            assert(out@ =~= mid + spec_offset_bytes(t.page_offsets@) + t.records@.take(r + 1));
        }
        r += 1;
    }
    proof {
        assert(t.records@.take(t.records@.len() as int) =~= t.records@);
        assert(out@ =~= spec_tables(total_pages as int, *t));
    }
    out
}

/// Overwrites four bytes of `buf` with `v` in little-endian order.
pub fn patch_u32_le(buf: &mut Vec<u8>, off: usize, v: u32)
    requires
        off + 4 <= old(buf)@.len(),
    ensures
        final(buf)@.len() == old(buf)@.len(),
        forall|j: int| off <= j < off + 4 ==> final(buf)@[j] == le32_of(v as int)[j - off],
        forall|j: int|
            0 <= j < old(buf)@.len() && !(off <= j < off + 4) ==> final(buf)@[j] == old(buf)@[j],
{
    let n: usize = buf.len();
    buf.set(off, (v % 256) as u8);
    buf.set(off + 1, ((v / 256) % 256) as u8);
    buf.set(off + 2, ((v / 0x10000) % 256) as u8);
    buf.set(off + 3, (v / 0x1000000) as u8);
}

/// Whether byte `j` of the file lies in a header field that the writer
/// patches: page count, the two object table entries, the fixup section
/// length, the name, entry and fixup table pointers, and the data pages
/// offset.
pub open spec fn is_patched(j: int) -> bool {
    (0x94 <= j < 0x98) || (0xb0 <= j < 0xb4) || (0xd0 <= j < 0xe0) || (0xe8 <= j < 0xf0) || (0x100
        <= j < 0x104) || (0x150 <= j < 0x158) || (0x168 <= j < 0x170)
}

/// Builds the whole LE image: the stub's first 0x174 bytes with the header
/// fields patched, then the tables, then the text pages, then the data
/// pages, each object padded to whole pages. Returns the image and the
/// data pages offset.
///
/// The image ends with the last data page, so its length is the data
/// pages offset plus 0x1000 bytes per page; a small program's image may
/// end below a fixed 0x2000-byte header region, which is harmless, since
/// every structure a loader reads is reached through the header's
/// pointers, and every page is present in full.
#[verifier::rlimit(100)]
pub fn build_le_image(
    stub: &Vec<u8>,
    ntp: u32,
    ndp: u32,
    t: &FixupTables,
    text: &Vec<u8>,
    data: &Vec<u8>,
) -> (r: (Vec<u8>, u32))
    requires
        stub@.len() >= 0x174,
        ntp + ndp < 0x1000000,
        text@.len() <= ntp * 0x1000,
        data@.len() <= ndp * 0x1000,
        0x174 + 4 * (ntp + ndp) + 10 + 4 * t.page_offsets@.len() + t.records@.len() + (ntp + ndp)
            * 0x1000 <= 0xFFFF_FFFF,
    ensures
        r.1 as int == 0x174 + 4 * (ntp + ndp) + 10 + 4 * t.page_offsets@.len()
            + t.records@.len(),
        r.0@.len() == r.1 + (ntp + ndp) * 0x1000,
        // the stub below the page table, save the patched fields
        forall|j: int| 0 <= j < 0x174 && !is_patched(j) ==> r.0@[j] == stub@[j],
        // the header fields
        r.0@.subrange(0x94, 0x98) == le32_of(ntp + ndp),
        r.0@.subrange(0xb0, 0xb4) == le32_of(spec_fixup_section_length(*t)),
        r.0@.subrange(0xd0, 0xd4) == le32_of(0x174 + 4 * (ntp + ndp)),
        r.0@.subrange(0xd4, 0xd8) == le32_of(0),
        r.0@.subrange(0xd8, 0xdc) == le32_of(0x174 + 4 * (ntp + ndp)),
        r.0@.subrange(0xdc, 0xe0) == le32_of(0x174 + 4 * (ntp + ndp) + 8),
        r.0@.subrange(0xe8, 0xec) == le32_of(0x174 + 4 * (ntp + ndp) + 10 - 0x80),
        r.0@.subrange(0xec, 0xf0) == le32_of(
            0x174 + 4 * (ntp + ndp) + 10 + 4 * t.page_offsets@.len() - 0x80,
        ),
        r.0@.subrange(0x100, 0x104) == le32_of(r.1 as int),
        r.0@.subrange(0x150, 0x154) == le32_of(1),
        r.0@.subrange(0x154, 0x158) == le32_of(ntp as int),
        r.0@.subrange(0x168, 0x16c) == le32_of(ntp + 1),
        r.0@.subrange(0x16c, 0x170) == le32_of(ndp as int),
        // the tables
        r.0@.subrange(0x174, r.1 as int) == spec_tables((ntp + ndp) as int, *t),
        // the page data, zero-padded to whole pages
        r.0@.subrange(r.1 as int, r.1 + text@.len()) == text@,
        forall|j: int| r.1 + text@.len() <= j < r.1 + ntp * 0x1000 ==> r.0@[j] == 0u8,
        r.0@.subrange(r.1 + ntp * 0x1000, r.1 + ntp * 0x1000 + data@.len()) == data@,
        forall|j: int|
            r.1 + ntp * 0x1000 + data@.len() <= j < r.1 + (ntp + ndp) * 0x1000 ==> r.0@[j] == 0u8,
{
    let total: u32 = ntp + ndp;
    let mut img: Vec<u8> = Vec::new();
    let mut j: usize = 0;
    while j < 0x174
        invariant
            stub@.len() >= 0x174,
            j <= 0x174,
            img@ == stub@.take(j as int),
        decreases 0x174 - j,
    {
        img.push(stub[j]);
        assert(img@ =~= stub@.take(j + 1));
        j += 1;
    }
    let name_off: u32 = 0x174 + 4 * total;
    let fpt_off: u32 = name_off + 10;
    let frt_off: u32 = fpt_off + 4 * (t.page_offsets.len() as u32);
    let dpo: u32 = frt_off + t.records.len() as u32;
    patch_u32_le(&mut img, 0x94, total);
    patch_u32_le(&mut img, 0xb0, fixup_section_length(t));
    patch_u32_le(&mut img, 0xd0, name_off);
    patch_u32_le(&mut img, 0xd4, 0);
    patch_u32_le(&mut img, 0xd8, name_off);
    patch_u32_le(&mut img, 0xdc, name_off + 8);
    patch_u32_le(&mut img, 0xe8, fpt_off - 0x80);
    patch_u32_le(&mut img, 0xec, frt_off - 0x80);
    patch_u32_le(&mut img, 0x100, dpo);
    patch_u32_le(&mut img, 0x150, 1);
    patch_u32_le(&mut img, 0x154, ntp);
    patch_u32_le(&mut img, 0x168, ntp + 1);
    patch_u32_le(&mut img, 0x16c, ndp);
    let ghost patched: Seq<u8> = img@;
    proof {
        assert(patched.len() == 0x174);
        assert(forall|i: int| 0 <= i < 0x174 && !is_patched(i) ==> patched[i] == stub@[i]);
        assert(patched.subrange(0x94, 0x98) =~= le32_of(ntp + ndp));
        assert(patched.subrange(0xb0, 0xb4) =~= le32_of(spec_fixup_section_length(*t)));
        assert(patched.subrange(0xd0, 0xd4) =~= le32_of(0x174 + 4 * (ntp + ndp)));
        assert(patched.subrange(0xd4, 0xd8) =~= le32_of(0));
        assert(patched.subrange(0xd8, 0xdc) =~= le32_of(0x174 + 4 * (ntp + ndp)));
        assert(patched.subrange(0xdc, 0xe0) =~= le32_of(0x174 + 4 * (ntp + ndp) + 8));
        assert(patched.subrange(0xe8, 0xec) =~= le32_of(0x174 + 4 * (ntp + ndp) + 10 - 0x80));
        assert(patched.subrange(0xec, 0xf0) =~= le32_of(
            0x174 + 4 * (ntp + ndp) + 10 + 4 * t.page_offsets@.len() - 0x80,
        ));
        assert(patched.subrange(0x100, 0x104) =~= le32_of(dpo as int));
        assert(patched.subrange(0x150, 0x154) =~= le32_of(1));
        assert(patched.subrange(0x154, 0x158) =~= le32_of(ntp as int));
        assert(patched.subrange(0x168, 0x16c) =~= le32_of(ntp + 1));
        assert(patched.subrange(0x16c, 0x170) =~= le32_of(ndp as int));
    }
    let tables = build_tables(total, t);
    let mut k: usize = 0;
    while k < tables.len()
        invariant
            k <= tables@.len(),
            img@ == patched + tables@.take(k as int),
        decreases tables@.len() - k,
    {
        img.push(tables[k]);
        assert(img@ =~= patched + tables@.take(k + 1));
        k += 1;
    }
    proof {
        assert(tables@.take(tables@.len() as int) =~= tables@);
    }
    let ghost with_tables: Seq<u8> = img@;
    proof {
        assert(with_tables == patched + tables@);
        assert(with_tables.len() == dpo);
    }
    let mut m: usize = 0;
    while m < text.len()
        invariant
            m <= text@.len(),
            img@ == with_tables + text@.take(m as int),
        decreases text@.len() - m,
    {
        img.push(text[m]);
        assert(img@ =~= with_tables + text@.take(m + 1));
        m += 1;
    }
    proof {
        assert(text@.take(text@.len() as int) =~= text@);
    }
    let text_end: usize = (dpo as usize) + (ntp as usize) * 0x1000;
    while img.len() < text_end
        invariant
            with_tables.len() == dpo,
            img@.len() >= with_tables.len() + text@.len(),
            img@.len() <= text_end,
            img@.take((with_tables.len() + text@.len()) as int) == with_tables + text@,
            forall|i: int| with_tables.len() + text@.len() <= i < img@.len() ==> img@[i] == 0u8,
        decreases text_end - img@.len(),
    {
        img.push(0);
        assert(img@.take((with_tables.len() + text@.len()) as int) =~= with_tables + text@);
    }
    let ghost with_text: Seq<u8> = img@;
    let mut d: usize = 0;
    while d < data.len()
        invariant
            d <= data@.len(),
            img@ == with_text + data@.take(d as int),
        decreases data@.len() - d,
    {
        img.push(data[d]);
        assert(img@ =~= with_text + data@.take(d + 1));
        d += 1;
    }
    proof {
        assert(data@.take(data@.len() as int) =~= data@);
    }
    let data_end: usize = (dpo as usize) + (total as usize) * 0x1000;
    while img.len() < data_end
        invariant
            with_text.len() + data@.len() <= img@.len() <= data_end,
            img@.take((with_text.len() + data@.len()) as int) == with_text + data@,
            forall|i: int| with_text.len() + data@.len() <= i < img@.len() ==> img@[i] == 0u8,
        decreases data_end - img@.len(),
    {
        img.push(0);
        assert(img@.take((with_text.len() + data@.len()) as int) =~= with_text + data@);
    }
    proof {
        let we: int = (with_text.len() + data@.len()) as int;
        assert forall|i: int| 0 <= i < we implies img@[i] == (with_text + data@)[i] by {
            assert(img@.take(we)[i] == img@[i]);
        }
        assert(forall|i: int| 0 <= i < with_text.len() ==> img@[i] == with_text[i]);
        let wt: int = (with_tables.len() + text@.len()) as int;
        assert forall|i: int| 0 <= i < wt implies with_text[i] == (with_tables + text@)[i] by {
            assert(with_text.take(wt)[i] == with_text[i]);
        }
        assert(forall|i: int| 0 <= i < with_tables.len() ==> with_text[i] == with_tables[i]);
        assert(forall|i: int| 0 <= i < 0x174 ==> img@[i] == patched[i]);
        assert forall|i: int| 0x174 <= i < dpo implies img@[i] == tables@[i - 0x174] by {
            assert(with_tables[i] == (patched + tables@)[i]);
        }
        assert(img@.subrange(0x174, dpo as int) =~= spec_tables((ntp + ndp) as int, *t));
        assert forall|i: int| dpo <= i < dpo + text@.len() implies img@[i] == text@[i - dpo] by {
            assert(with_text[i] == (with_tables + text@)[i]);
        }
        assert(img@.subrange(dpo as int, dpo + text@.len()) =~= text@);
        assert(forall|i: int| dpo + text@.len() <= i < dpo + ntp * 0x1000 ==> img@[i] == 0u8);
        assert forall|i: int|
            dpo + ntp * 0x1000 <= i < dpo + ntp * 0x1000 + data@.len() implies img@[i] == data@[i
            - (dpo + ntp * 0x1000)] by {
            assert(img@[i] == (with_text + data@)[i]);
        }
        assert(img@.subrange(dpo + ntp * 0x1000, dpo + ntp * 0x1000 + data@.len()) =~= data@);
        assert(img@.subrange(0x94, 0x98) =~= patched.subrange(0x94, 0x98));
        assert(img@.subrange(0xb0, 0xb4) =~= patched.subrange(0xb0, 0xb4));
        assert(img@.subrange(0xd0, 0xd4) =~= patched.subrange(0xd0, 0xd4));
        assert(img@.subrange(0xd4, 0xd8) =~= patched.subrange(0xd4, 0xd8));
        assert(img@.subrange(0xd8, 0xdc) =~= patched.subrange(0xd8, 0xdc));
        assert(img@.subrange(0xdc, 0xe0) =~= patched.subrange(0xdc, 0xe0));
        assert(img@.subrange(0xe8, 0xec) =~= patched.subrange(0xe8, 0xec));
        assert(img@.subrange(0xec, 0xf0) =~= patched.subrange(0xec, 0xf0));
        assert(img@.subrange(0x100, 0x104) =~= patched.subrange(0x100, 0x104));
        assert(img@.subrange(0x150, 0x154) =~= patched.subrange(0x150, 0x154));
        assert(img@.subrange(0x154, 0x158) =~= patched.subrange(0x154, 0x158));
        assert(img@.subrange(0x168, 0x16c) =~= patched.subrange(0x168, 0x16c));
        assert(img@.subrange(0x16c, 0x170) =~= patched.subrange(0x16c, 0x170));
    }
    (img, dpo)
}

} // verus!
