//! LE fixup encoder: walks the relocations of the two consolidated objects
//! in ascending source-offset order, emits the variable-length fixup record
//! stream, and builds the per-page offset table in lockstep.

use vstd::prelude::*;
use crate::types::{ObjectId, RelocKind};
use crate::bytes::{le16_of, le32_of, u32_of_le, read_u32_le};

verus! {

/// One relocation of a consolidated object, as the fixup encoder consumes
/// it: placed at `src_off` within the object that holds it, aimed at
/// address `target_addr` within object `target_obj`.
#[derive(Clone, Copy, PartialEq, Eq, Structural, Debug)]
pub struct FixupInput {
    /// Offset of the relocated field within its consolidated object.
    pub src_off: u32,
    pub kind: RelocKind,
    /// Field width in bits; only 32 is supported.
    pub size: u8,
    /// Whether the addend sits inline at the relocation site.
    pub has_implicit_addend: bool,
    /// Object that holds the target symbol.
    pub target_obj: ObjectId,
    /// The target symbol's address within its object.
    pub target_addr: u64,
}

/// A relocation the fixup encoder can express: size 32, with an absolute or
/// PC-relative kind. Others are skipped with a diagnostic count.
pub open spec fn fixup_supported(r: FixupInput) -> bool {
    r.size == 32 && (r.kind == RelocKind::Absolute || r.kind == RelocKind::Relative || r.kind
        == RelocKind::PltRelative)
}

/// The subsequence of `rs` that the encoder expresses.
pub open spec fn supported_of(rs: Seq<FixupInput>) -> Seq<FixupInput>
    decreases rs.len(),
{
    if rs.len() == 0 {
        Seq::empty()
    } else {
        supported_of(rs.drop_last()) + if fixup_supported(rs.last()) {
            seq![rs.last()]
        } else {
            Seq::empty()
        }
    }
}

/// The 0x1000-byte page of the object that holds the relocated field.
pub open spec fn spec_page(r: FixupInput) -> int {
    r.src_off as int / 0x1000
}

/// Whether the record carries a 32-bit target offset (flag byte 0x10).
pub open spec fn rec_wide(r: FixupInput) -> bool {
    r.target_addr >= 0x10000
}

/// The addend read from the relocation site: the little-endian `u32` at
/// `src_off`, folded in only for absolute relocations with inline addends.
pub open spec fn spec_implicit_addend(r: FixupInput, src: Seq<u8>) -> int {
    if r.kind == RelocKind::Absolute && r.has_implicit_addend {
        u32_of_le(src, r.src_off as int)
    } else {
        0
    }
}

/// The target offset stored in the record: target address plus implicit
/// addend, reduced modulo 2^32.
pub open spec fn spec_target_off(r: FixupInput, src: Seq<u8>) -> int {
    (r.target_addr + spec_implicit_addend(r, src)) % 0x1_0000_0000
}

/// Record type byte: 0x07 for absolute fixups, 0x08 for relative ones.
pub open spec fn type_byte(k: RelocKind) -> u8 {
    if k == RelocKind::Absolute {
        0x07
    } else {
        0x08
    }
}

/// The bytes of one fixup record: type, flags, source offset within its
/// page, target object number, then the target offset (16 or 32 bits wide
/// as the flags say).
pub open spec fn spec_record(r: FixupInput, src: Seq<u8>) -> Seq<u8> {
    seq![
        type_byte(r.kind),
        if rec_wide(r) {
            0x10u8
        } else {
            0x00u8
        },
    ] + le16_of(r.src_off as int % 0x1000) + seq![r.target_obj.spec_number()] + if rec_wide(r) {
        le32_of(spec_target_off(r, src))
    } else {
        le16_of(spec_target_off(r, src))
    }
}

/// Number of bytes of one record: 9 with a 32-bit target offset, else 7.
pub open spec fn rec_size(r: FixupInput) -> int {
    if rec_wide(r) {
        9
    } else {
        7
    }
}

/// The record stream for the relocations `rs`, in order.
pub open spec fn spec_records(rs: Seq<FixupInput>, src: Seq<u8>) -> Seq<u8>
    decreases rs.len(),
{
    if rs.len() == 0 {
        Seq::empty()
    } else {
        spec_records(rs.drop_last(), src) + spec_record(rs.last(), src)
    }
}

/// Total bytes of the records of `rs` that sit on pages below `p`.
pub open spec fn spec_bytes_below(rs: Seq<FixupInput>, src: Seq<u8>, p: int) -> int
    decreases rs.len(),
{
    if rs.len() == 0 {
        0
    } else {
        spec_bytes_below(rs.drop_last(), src, p) + if spec_page(rs.last()) < p {
            rec_size(rs.last())
        } else {
            0
        }
    }
}

/// Relocations ordered by ascending source offset.
pub open spec fn sorted_by_off(rs: Seq<FixupInput>) -> bool {
    forall|i: int, j: int| 0 <= i < j < rs.len() ==> rs[i].src_off <= rs[j].src_off
}

/// What the encoder asks of one object's relocations: every relocated field
/// lies within the object's pages, and inline addends can be read.
pub open spec fn fixup_inputs_ok(rs: Seq<FixupInput>, src: Seq<u8>, num_pages: int) -> bool {
    forall|i: int|
        0 <= i < rs.len() ==> (#[trigger] rs[i]).src_off < num_pages * 0x1000 && ((rs[i].kind
            == RelocKind::Absolute && rs[i].has_implicit_addend) ==> rs[i].src_off + 4
            <= src.len())
}

/// The length of a record is 7 or 9 bytes exactly.
pub proof fn lemma_record_len(r: FixupInput, src: Seq<u8>)
    ensures
        spec_record(r, src).len() == rec_size(r),
{
}

/// A record stream is no longer than nine bytes per relocation.
pub proof fn lemma_records_len_le(rs: Seq<FixupInput>, src: Seq<u8>)
    ensures
        0 <= spec_records(rs, src).len() <= 9 * rs.len(),
    decreases rs.len(),
{
    if rs.len() > 0 {
        lemma_records_len_le(rs.drop_last(), src);
        lemma_record_len(rs.last(), src);
    }
}

/// The supported subsequence is no longer than the whole.
pub proof fn lemma_supported_len_le(rs: Seq<FixupInput>)
    ensures
        supported_of(rs).len() <= rs.len(),
    decreases rs.len(),
{
    if rs.len() > 0 {
        lemma_supported_len_le(rs.drop_last());
    }
}

/// Taking one more element extends the supported subsequence by at most
/// that element.
pub proof fn lemma_supported_take_succ(rs: Seq<FixupInput>, i: int)
    requires
        0 <= i < rs.len(),
    ensures
        supported_of(rs.take(i + 1)) == supported_of(rs.take(i)) + if fixup_supported(rs[i]) {
            seq![rs[i]]
        } else {
            Seq::<FixupInput>::empty()
        },
    decreases rs.len(),
{
    assert(rs.take(i + 1).drop_last() =~= rs.take(i));
    assert(rs.take(i + 1).last() == rs[i]);
}

/// No record sits below page zero.
pub proof fn lemma_below_zero(rs: Seq<FixupInput>, src: Seq<u8>, p: int)
    requires
        p <= 0,
    ensures
        spec_bytes_below(rs, src, p) == 0,
    decreases rs.len(),
{
    if rs.len() > 0 {
        lemma_below_zero(rs.drop_last(), src, p);
    }
}

/// When every relocation sits below page `p`, the bytes below `p` are the
/// whole stream.
pub proof fn lemma_below_all(rs: Seq<FixupInput>, src: Seq<u8>, p: int)
    requires
        forall|i: int| 0 <= i < rs.len() ==> spec_page(#[trigger] rs[i]) < p,
    ensures
        spec_bytes_below(rs, src, p) == spec_records(rs, src).len(),
    decreases rs.len(),
{
    if rs.len() > 0 {
        assert(forall|i: int|
            0 <= i < rs.drop_last().len() ==> spec_page(#[trigger] rs.drop_last()[i]) < p);
        lemma_below_all(rs.drop_last(), src, p);
        lemma_record_len(rs.last(), src);
        assert(spec_page(rs.last()) < p);
    }
}

/// Bytes below a page bound grow with the bound.
pub proof fn lemma_below_monotonic(rs: Seq<FixupInput>, src: Seq<u8>, p: int, q: int)
    requires
        p <= q,
    ensures
        spec_bytes_below(rs, src, p) <= spec_bytes_below(rs, src, q),
    decreases rs.len(),
{
    if rs.len() > 0 {
        lemma_below_monotonic(rs.drop_last(), src, p, q);
        lemma_record_len(rs.last(), src);
    }
}

/// Bytes below any page bound never exceed the whole stream.
pub proof fn lemma_below_le_total(rs: Seq<FixupInput>, src: Seq<u8>, p: int)
    ensures
        0 <= spec_bytes_below(rs, src, p) <= spec_records(rs, src).len(),
    decreases rs.len(),
{
    if rs.len() > 0 {
        lemma_below_le_total(rs.drop_last(), src, p);
        lemma_record_len(rs.last(), src);
    }
}

/// Elements at or past index `k` that all sit at or above page `p` do not
/// count toward the bytes below `p`.
pub proof fn lemma_below_ignores_tail(rs: Seq<FixupInput>, src: Seq<u8>, p: int, k: int)
    requires
        0 <= k <= rs.len(),
        forall|j: int| k <= j < rs.len() ==> p <= spec_page(#[trigger] rs[j]),
    ensures
        spec_bytes_below(rs, src, p) == spec_bytes_below(rs.take(k), src, p),
    decreases rs.len() - k,
{
    if k < rs.len() {
        assert(rs.take(rs.len() as int) =~= rs);
        lemma_below_ignores_tail(rs.take(rs.len() - 1), src, p, k);
        assert(rs.take(rs.len() - 1).take(k) =~= rs.take(k));
        assert(rs.take(rs.len() - 1) =~= rs.drop_last());
    } else {
        assert(rs.take(k) =~= rs);
    }
}

/// Appending one relocation appends exactly its record.
pub proof fn lemma_records_push(s: Seq<FixupInput>, x: FixupInput, src: Seq<u8>)
    ensures
        spec_records(s + seq![x], src) == spec_records(s, src) + spec_record(x, src),
{
    assert((s + seq![x]).drop_last() =~= s);
    assert((s + seq![x]).last() == x);
}

/// Appending one relocation adds its size to the bytes below `p` exactly
/// when its page lies below `p`.
pub proof fn lemma_below_push(s: Seq<FixupInput>, x: FixupInput, src: Seq<u8>, p: int)
    ensures
        spec_bytes_below(s + seq![x], src, p) == spec_bytes_below(s, src, p) + if spec_page(x)
            < p {
            rec_size(x)
        } else {
            0
        },
{
    assert((s + seq![x]).drop_last() =~= s);
    assert((s + seq![x]).last() == x);
}

/// Every element of the supported subsequence is a supported element of
/// the original.
pub proof fn lemma_supported_elems(rs: Seq<FixupInput>, k: int)
    requires
        0 <= k < supported_of(rs).len(),
    ensures
        exists|j: int|
            0 <= j < rs.len() && supported_of(rs)[k] == rs[j] && fixup_supported(#[trigger] rs[j]),
    decreases rs.len(),
{
    if rs.len() > 0 {
        if k < supported_of(rs.drop_last()).len() {
            lemma_supported_elems(rs.drop_last(), k);
            let j0 = choose|j: int|
                0 <= j < rs.drop_last().len() && supported_of(rs.drop_last())[k] == rs.drop_last()[j]
                    && fixup_supported(#[trigger] rs.drop_last()[j]);
            assert(supported_of(rs)[k] == rs[j0] && fixup_supported(rs[j0]));
        } else {
            assert(fixup_supported(rs.last()));
            assert(supported_of(rs)[k] == rs[rs.len() - 1]);
        }
    }
}

/// Placing `x` after every element whose offset is not above its own; this
/// is the step of a stable insertion sort by source offset.
pub open spec fn spec_insert_sorted(x: FixupInput, s: Seq<FixupInput>) -> Seq<FixupInput>
    decreases s.len(),
{
    if s.len() == 0 {
        seq![x]
    } else if s.last().src_off <= x.src_off {
        s.push(x)
    } else {
        spec_insert_sorted(x, s.drop_last()).push(s.last())
    }
}

/// Stable sort of relocations by ascending source offset.
pub open spec fn spec_sort_by_off(s: Seq<FixupInput>) -> Seq<FixupInput>
    decreases s.len(),
{
    if s.len() == 0 {
        Seq::empty()
    } else {
        spec_insert_sorted(s.last(), spec_sort_by_off(s.drop_last()))
    }
}

/// Inserting into a sorted sequence keeps it sorted.
pub proof fn lemma_insert_sorted_keeps_sorted(x: FixupInput, s: Seq<FixupInput>)
    requires
        sorted_by_off(s),
    ensures
        sorted_by_off(spec_insert_sorted(x, s)),
        spec_insert_sorted(x, s).len() == s.len() + 1,
    decreases s.len(),
{
    if s.len() == 0 {
    } else if s.last().src_off <= x.src_off {
        let t = s.push(x);
        assert forall|i: int, j: int| 0 <= i < j < t.len() implies t[i].src_off <= t[j].src_off by {
            if j < s.len() {
            } else {
                if i < s.len() - 1 {
                    assert(s[i].src_off <= s[s.len() - 1].src_off);
                }
            }
        }
    } else {
        assert(sorted_by_off(s.drop_last()));
        lemma_insert_sorted_keeps_sorted(x, s.drop_last());
        let u = spec_insert_sorted(x, s.drop_last());
        let t = u.push(s.last());
        assert forall|i: int, j: int| 0 <= i < j < t.len() implies t[i].src_off <= t[j].src_off by {
            if j < u.len() {
            } else {
                lemma_insert_sorted_elems(x, s.drop_last(), i);
            }
        }
    }
}

/// Every element of an insertion-sort step is the inserted element or one
/// of the originals.
pub proof fn lemma_insert_sorted_elems(x: FixupInput, s: Seq<FixupInput>, i: int)
    requires
        0 <= i < spec_insert_sorted(x, s).len(),
    ensures
        spec_insert_sorted(x, s)[i] == x || exists|j: int|
            0 <= j < s.len() && spec_insert_sorted(x, s)[i] == s[j],
    decreases s.len(),
{
    if s.len() == 0 {
    } else if s.last().src_off <= x.src_off {
    } else {
        if i < spec_insert_sorted(x, s).len() - 1 {
            lemma_insert_sorted_elems(x, s.drop_last(), i);
        }
    }
}

/// The sort of any sequence is sorted and a rearrangement of it.
pub proof fn lemma_sort_sorted(s: Seq<FixupInput>)
    ensures
        sorted_by_off(spec_sort_by_off(s)),
        spec_sort_by_off(s).len() == s.len(),
    decreases s.len(),
{
    if s.len() > 0 {
        lemma_sort_sorted(s.drop_last());
        lemma_insert_sorted_keeps_sorted(s.last(), spec_sort_by_off(s.drop_last()));
    }
}

/// Where the inserted element lands: just before the first strictly larger
/// offset.
pub proof fn lemma_insert_sorted_at(x: FixupInput, s: Seq<FixupInput>, j: int)
    requires
        sorted_by_off(s),
        0 <= j <= s.len(),
        j == 0 || s[j - 1].src_off <= x.src_off,
        j == s.len() || s[j].src_off > x.src_off,
    ensures
        spec_insert_sorted(x, s) == s.insert(j, x),
    decreases s.len(),
{
    if s.len() == 0 {
        assert(spec_insert_sorted(x, s) =~= s.insert(0, x));
    } else if s.last().src_off <= x.src_off {
        if j < s.len() {
            assert(s[j].src_off <= s[s.len() - 1].src_off);
            assert(false);
        }
        assert(s.push(x) =~= s.insert(s.len() as int, x));
    } else {
        assert(j < s.len());
        assert(sorted_by_off(s.drop_last()));
        lemma_insert_sorted_at(x, s.drop_last(), j);
        assert(spec_insert_sorted(x, s.drop_last()).push(s.last()) =~= s.insert(j, x));
    }
}

/// Sorts relocations by ascending source offset, keeping the given order
/// among equal offsets.
pub fn sort_by_src_off(rs: &Vec<FixupInput>) -> (out: Vec<FixupInput>)
    ensures
        out@ == spec_sort_by_off(rs@),
        sorted_by_off(out@),
        out@.len() == rs@.len(),
{
    let mut out: Vec<FixupInput> = Vec::new();
    let mut i: usize = 0;
    while i < rs.len()
        invariant
            i <= rs@.len(),
            out@ == spec_sort_by_off(rs@.take(i as int)),
            out@.len() == i,
            sorted_by_off(out@),
        decreases rs@.len() - i,
    {
        let x = rs[i];
        let mut j: usize = out.len();
        while j > 0 && out[j - 1].src_off > x.src_off
            invariant
                j <= out@.len(),
                forall|m: int| j <= m < out@.len() ==> out@[m].src_off > x.src_off,
            decreases j,
        {
            j -= 1;
        }
        proof {
            lemma_insert_sorted_at(x, out@, j as int);
            assert(rs@.take(i + 1).drop_last() =~= rs@.take(i as int));
            assert(rs@.take(i + 1).last() == rs@[i as int]);
            lemma_insert_sorted_keeps_sorted(x, out@);
        }
        out.insert(j, x);
        i += 1;
    }
    proof {
        assert(rs@.take(rs@.len() as int) =~= rs@);
        lemma_sort_sorted(rs@);
    }
    out
}

/// A prefix contributes no more than the whole.
pub proof fn lemma_below_take_le(rs: Seq<FixupInput>, src: Seq<u8>, p: int, k: int)
    requires
        0 <= k <= rs.len(),
    ensures
        spec_bytes_below(rs.take(k), src, p) <= spec_bytes_below(rs, src, p),
    decreases rs.len() - k,
{
    if k < rs.len() {
        lemma_below_take_le(rs, src, p, k + 1);
        assert(rs.take(k + 1).drop_last() =~= rs.take(k));
        lemma_record_len(rs.take(k + 1).last(), src);
    } else {
        assert(rs.take(k) =~= rs);
    }
}

/// Whether the encoder can express this relocation.
pub fn is_supported(r: &FixupInput) -> (b: bool)
    ensures
        b == fixup_supported(*r),
{
    r.size == 32 && (r.kind == RelocKind::Absolute || r.kind == RelocKind::Relative || r.kind
        == RelocKind::PltRelative)
}

/// Encodes one object's relocations, already sorted by source offset, onto
/// the shared record stream and page-offset table. On entry the table's
/// last entry marks where this object's page 0 records begin; on return one
/// entry per page of this object has been appended, each giving the byte
/// offset where the records of pages at or above it begin.
pub fn encode_object(
    rs: &Vec<FixupInput>,
    src: &Vec<u8>,
    num_pages: usize,
    records: &mut Vec<u8>,
    offsets: &mut Vec<u32>,
)
    requires
        sorted_by_off(rs@),
        fixup_inputs_ok(rs@, src@, num_pages as int),
        old(offsets)@.len() >= 1,
        old(offsets)@.last() as int == old(records)@.len(),
        old(records)@.len() + 9 * rs@.len() <= u32::MAX,
    ensures
        final(records)@ == old(records)@ + spec_records(supported_of(rs@), src@),
        final(offsets)@.len() == old(offsets)@.len() + num_pages,
        forall|c: int| 0 <= c < old(offsets)@.len() ==> final(offsets)@[c] == old(offsets)@[c],
        forall|c: int|
            1 <= c <= num_pages ==> final(offsets)@[old(offsets)@.len() - 1 + c] as int == old(
                records,
            )@.len() + spec_bytes_below(supported_of(rs@), src@, c),
{
    let ghost base_rec: int = old(records)@.len() as int;
    let base_entries: usize = offsets.len();
    let mut current_page: usize = 0;
    let mut i: usize = 0;
    while i < rs.len()
        invariant
            sorted_by_off(rs@),
            fixup_inputs_ok(rs@, src@, num_pages as int),
            i <= rs@.len(),
            base_entries == old(offsets)@.len(),
            base_rec == old(records)@.len(),
            base_rec + 9 * rs@.len() <= u32::MAX,
            current_page == 0 || current_page < num_pages,
            records@ == old(records)@ + spec_records(supported_of(rs@.take(i as int)), src@),
            offsets@.len() == base_entries + current_page,
            forall|c: int| 0 <= c < base_entries ==> offsets@[c] == old(offsets)@[c],
            forall|c: int|
                1 <= c <= current_page ==> offsets@[base_entries - 1 + c] as int == base_rec
                    + spec_bytes_below(supported_of(rs@.take(i as int)), src@, c),
            forall|j: int|
                0 <= j < i && fixup_supported(#[trigger] rs@[j]) ==> spec_page(rs@[j])
                    <= current_page,
            forall|j: int| i <= j < rs@.len() ==> current_page <= spec_page(#[trigger] rs@[j]),
        decreases rs@.len() - i,
    {
        let ghost taken: Seq<FixupInput> = rs@.take(i as int);
        let r = rs[i];
        if is_supported(&r) {
            let page_u: u32 = r.src_off / 0x1000;
            let page: usize = page_u as usize;
            assert(page as int == spec_page(rs@[i as int]));
            assert(page < num_pages) by {
                assert(rs@[i as int].src_off < num_pages * 0x1000);
            }
            while page > current_page
                invariant
                    i < rs@.len(),
                    page as int == spec_page(rs@[i as int]),
                    page < num_pages,
                    current_page <= page,
                    base_entries == old(offsets)@.len(),
                    base_rec == old(records)@.len(),
                    base_rec + 9 * rs@.len() <= u32::MAX,
                    taken == rs@.take(i as int),
                    taken.len() == i,
                    records@ == old(records)@ + spec_records(supported_of(taken), src@),
                    offsets@.len() == base_entries + current_page,
                    forall|c: int| 0 <= c < base_entries ==> offsets@[c] == old(offsets)@[c],
                    forall|c: int|
                        1 <= c <= current_page ==> offsets@[base_entries - 1 + c] as int == base_rec
                            + spec_bytes_below(supported_of(taken), src@, c),
                    forall|j: int|
                        0 <= j < i && fixup_supported(#[trigger] rs@[j]) ==> spec_page(rs@[j])
                            <= current_page,
                decreases page - current_page,
            {
                proof {
                    lemma_supported_len_le(taken);
                    lemma_records_len_le(supported_of(taken), src@);
                    assert forall|k: int|
                        0 <= k < supported_of(taken).len() implies spec_page(
                        #[trigger] supported_of(taken)[k],
                    ) < current_page + 1 by {
                        lemma_supported_elems(taken, k);
                        let j = choose|j: int|
                            0 <= j < taken.len() && supported_of(taken)[k] == taken[j]
                                && fixup_supported(#[trigger] taken[j]);
                        assert(taken[j] == rs@[j]);
                        assert(spec_page(rs@[j]) <= current_page);
                    }
                    lemma_below_all(supported_of(taken), src@, current_page + 1);
                }
                let v: u32 = records.len() as u32;
                offsets.push(v);
                current_page += 1;
            }
            // all of this object's earlier records now lie on pages below
            // `current_page + 1`, so emit this record's bytes
            let ghost pre: Seq<u8> = records@;
            let type_b: u8 = if r.kind == RelocKind::Absolute {
                0x07
            } else {
                0x08
            };
            records.push(type_b);
            let wide: bool = r.target_addr >= 0x10000;
            records.push(
                if wide {
                    0x10
                } else {
                    0x00
                },
            );
            let sip: u32 = r.src_off % 0x1000;
            crate::bytes::push_u16_le_low(records, sip);
            records.push(r.target_obj.number());
            let imp: u32 = if r.kind == RelocKind::Absolute && r.has_implicit_addend {
                assert(rs@[i as int].src_off + 4 <= src@.len());
                read_u32_le(src, r.src_off as usize)
            } else {
                0
            };
            let toff: u32 = (((r.target_addr % 0x1_0000_0000) + imp as u64) % 0x1_0000_0000) as u32;
            proof {
                vstd::arithmetic::div_mod::lemma_small_mod(imp as nat, 0x1_0000_0000);
                vstd::arithmetic::div_mod::lemma_add_mod_noop(
                    r.target_addr as int,
                    imp as int,
                    0x1_0000_0000,
                );
                assert(toff as int == spec_target_off(r, src@));
            }
            if wide {
                crate::bytes::push_u32_le(records, toff);
            } else {
                crate::bytes::push_u16_le_low(records, toff);
            }
            proof {
                assert(records@ =~= pre + spec_record(r, src@));
                lemma_records_push(supported_of(taken), r, src@);
                lemma_supported_take_succ(rs@, i as int);
                assert(supported_of(rs@.take(i + 1)) =~= supported_of(taken) + seq![r]);
                assert(records@ =~= old(records)@ + spec_records(
                    supported_of(rs@.take(i + 1)),
                    src@,
                ));
                assert forall|c: int|
                    1 <= c <= current_page implies #[trigger] offsets@[base_entries - 1 + c] as int
                    == base_rec + spec_bytes_below(supported_of(rs@.take(i + 1)), src@, c) by {
                    lemma_below_push(supported_of(taken), r, src@, c);
                    assert(spec_page(r) == current_page as int);
                }
            }
        } else {
            proof {
                lemma_supported_take_succ(rs@, i as int);
                assert(supported_of(rs@.take(i + 1)) =~= supported_of(taken));
            }
        }
        i += 1;
    }
    proof {
        assert(rs@.take(i as int) =~= rs@);
    }
    while current_page < num_pages
        invariant
            current_page <= num_pages,
            base_entries == old(offsets)@.len(),
            base_rec == old(records)@.len(),
            base_rec + 9 * rs@.len() <= u32::MAX,
            records@ == old(records)@ + spec_records(supported_of(rs@), src@),
            offsets@.len() == base_entries + current_page,
            forall|c: int| 0 <= c < base_entries ==> offsets@[c] == old(offsets)@[c],
            forall|c: int|
                1 <= c <= current_page ==> offsets@[base_entries - 1 + c] as int == base_rec
                    + spec_bytes_below(supported_of(rs@), src@, c),
            forall|j: int|
                0 <= j < rs@.len() && fixup_supported(#[trigger] rs@[j]) ==> spec_page(rs@[j])
                    <= current_page,
        decreases num_pages - current_page,
    {
        proof {
            lemma_supported_len_le(rs@);
            lemma_records_len_le(supported_of(rs@), src@);
            assert forall|k: int|
                0 <= k < supported_of(rs@).len() implies spec_page(#[trigger] supported_of(rs@)[k])
                < current_page + 1 by {
                lemma_supported_elems(rs@, k);
            }
            lemma_below_all(supported_of(rs@), src@, current_page + 1);
        }
        let v: u32 = records.len() as u32;
        offsets.push(v);
        current_page += 1;
    }
}

/// The fixup tables of the final LE file: the page offset table and the
/// record stream it indexes.
pub struct FixupTables {
    pub page_offsets: Vec<u32>,
    pub records: Vec<u8>,
}

/// Value of entry `n` of the page offset table: the byte offset into the
/// record stream where the records of global page `n` begin. Text pages
/// come first, then data pages, then the terminating entry.
pub open spec fn spec_offset_entry(
    text_rs: Seq<FixupInput>,
    text: Seq<u8>,
    ntp: int,
    data_rs: Seq<FixupInput>,
    data: Seq<u8>,
    ndp: int,
    n: int,
) -> int {
    if n <= ntp {
        spec_bytes_below(supported_of(text_rs), text, n)
    } else if n <= ntp + ndp {
        spec_records(supported_of(text_rs), text).len() + spec_bytes_below(
            supported_of(data_rs),
            data,
            n - ntp,
        )
    } else {
        spec_records(supported_of(text_rs), text).len() + spec_records(
            supported_of(data_rs),
            data,
        ).len() as int
    }
}

/// When every relocation lies within the object's pages, every supported
/// page lies below the page count.
proof fn lemma_supported_pages_below(rs: Seq<FixupInput>, src: Seq<u8>, num_pages: int)
    requires
        fixup_inputs_ok(rs, src, num_pages),
    ensures
        forall|k: int|
            0 <= k < supported_of(rs).len() ==> spec_page(#[trigger] supported_of(rs)[k])
                < num_pages,
{
    assert forall|k: int|
        0 <= k < supported_of(rs).len() implies spec_page(#[trigger] supported_of(rs)[k])
        < num_pages by {
        lemma_supported_elems(rs, k);
        let j = choose|j: int|
            0 <= j < rs.len() && supported_of(rs)[k] == rs[j] && fixup_supported(
                #[trigger] rs[j],
            );
        assert(rs[j].src_off < num_pages * 0x1000);
        vstd::arithmetic::div_mod::lemma_div_is_ordered(
            rs[j].src_off as int,
            num_pages * 0x1000 - 1,
            0x1000,
        );
        assert((num_pages * 0x1000 - 1) / 0x1000 == num_pages - 1) by (nonlinear_arith)
            requires
                num_pages >= 1,
        ;
    }
}

/// Encodes the relocations of both objects, text first, into the shared
/// record stream, and builds the page offset table: one entry per page
/// holding the byte offset where that page's records begin, a leading zero
/// entry for the first page, and a final entry holding the stream's length.
pub fn encode_fixups(
    text_rs: &Vec<FixupInput>,
    text: &Vec<u8>,
    num_text_pages: usize,
    data_rs: &Vec<FixupInput>,
    data: &Vec<u8>,
    num_data_pages: usize,
) -> (t: FixupTables)
    requires
        sorted_by_off(text_rs@),
        sorted_by_off(data_rs@),
        fixup_inputs_ok(text_rs@, text@, num_text_pages as int),
        fixup_inputs_ok(data_rs@, data@, num_data_pages as int),
        9 * (text_rs@.len() + data_rs@.len()) <= u32::MAX,
        num_text_pages + num_data_pages + 2 <= usize::MAX,
    ensures
        t.records@ == spec_records(supported_of(text_rs@), text@) + spec_records(
            supported_of(data_rs@),
            data@,
        ),
        t.page_offsets@.len() == num_text_pages + num_data_pages + 2,
        forall|n: int|
            0 <= n < t.page_offsets@.len() ==> #[trigger] t.page_offsets@[n] as int
                == spec_offset_entry(
                text_rs@,
                text@,
                num_text_pages as int,
                data_rs@,
                data@,
                num_data_pages as int,
                n,
            ),
{
    let ghost ntp: int = num_text_pages as int;
    let ghost ndp: int = num_data_pages as int;
    let mut records: Vec<u8> = Vec::new();
    let mut offsets: Vec<u32> = Vec::new();
    offsets.push(0);
    proof {
        lemma_supported_len_le(text_rs@);
        lemma_records_len_le(supported_of(text_rs@), text@);
    }
    encode_object(text_rs, text, num_text_pages, &mut records, &mut offsets);
    proof {
        lemma_supported_pages_below(text_rs@, text@, ntp);
        lemma_below_all(supported_of(text_rs@), text@, ntp);
        lemma_below_zero(supported_of(text_rs@), text@, 0);
        if num_text_pages == 0 {
            assert(offsets@.last() as int == records@.len());
        } else {
            assert(offsets@.last() as int == spec_bytes_below(supported_of(text_rs@), text@, ntp));
        }
        lemma_supported_len_le(data_rs@);
        lemma_records_len_le(supported_of(data_rs@), data@);
    }
    encode_object(data_rs, data, num_data_pages, &mut records, &mut offsets);
    proof {
        lemma_supported_pages_below(data_rs@, data@, ndp);
        lemma_below_all(supported_of(data_rs@), data@, ndp);
        lemma_below_zero(supported_of(data_rs@), data@, 0);
    }
    let total: u32 = records.len() as u32;
    offsets.push(total);
    proof {
        assert forall|n: int| 0 <= n < offsets@.len() implies #[trigger] offsets@[n] as int
            == spec_offset_entry(text_rs@, text@, ntp, data_rs@, data@, ndp, n) by {
        }
    }
    FixupTables { page_offsets: offsets, records }
}

/// Law: the fixup page offset table is non-decreasing; each entry is at
/// most the next one.
pub proof fn lemma_offsets_monotonic(
    text_rs: Seq<FixupInput>,
    text: Seq<u8>,
    ntp: int,
    data_rs: Seq<FixupInput>,
    data: Seq<u8>,
    ndp: int,
    n: int,
)
    requires
        ntp >= 0,
        ndp >= 0,
        0 <= n <= ntp + ndp,
    ensures
        spec_offset_entry(text_rs, text, ntp, data_rs, data, ndp, n) <= spec_offset_entry(
            text_rs,
            text,
            ntp,
            data_rs,
            data,
            ndp,
            n + 1,
        ),
{
    let st = supported_of(text_rs);
    let sd = supported_of(data_rs);
    if n + 1 <= ntp {
        lemma_below_monotonic(st, text, n, n + 1);
    } else if n <= ntp {
        // crossing from the text pages into the data pages (or the end)
        lemma_below_le_total(st, text, n);
        if n + 1 <= ntp + ndp {
            lemma_below_le_total(sd, data, n + 1 - ntp);
            lemma_below_monotonic(sd, data, 0, n + 1 - ntp);
            lemma_below_zero(sd, data, 0);
        } else {
            lemma_records_len_le(sd, data);
        }
    } else if n + 1 <= ntp + ndp {
        lemma_below_monotonic(sd, data, n - ntp, n + 1 - ntp);
    } else {
        lemma_below_le_total(sd, data, n - ntp);
    }
}

/// Law: the first entry of the page offset table is zero, and the final
/// entry equals the length of the whole fixup record stream.
pub proof fn lemma_offsets_ends(
    text_rs: Seq<FixupInput>,
    text: Seq<u8>,
    ntp: int,
    data_rs: Seq<FixupInput>,
    data: Seq<u8>,
    ndp: int,
)
    requires
        ntp >= 0,
        ndp >= 0,
    ensures
        spec_offset_entry(text_rs, text, ntp, data_rs, data, ndp, 0) == 0,
        spec_offset_entry(text_rs, text, ntp, data_rs, data, ndp, ntp + ndp + 1) == spec_records(
            supported_of(text_rs),
            text,
        ).len() + spec_records(supported_of(data_rs), data).len(),
{
    lemma_below_zero(supported_of(text_rs), text, 0);
}

/// The supported subsequence of a sorted sequence is sorted.
pub proof fn lemma_supported_sorted(rs: Seq<FixupInput>)
    requires
        sorted_by_off(rs),
    ensures
        sorted_by_off(supported_of(rs)),
    decreases rs.len(),
{
    if rs.len() > 0 {
        assert(sorted_by_off(rs.drop_last()));
        lemma_supported_sorted(rs.drop_last());
        let t = supported_of(rs);
        assert forall|i: int, j: int| 0 <= i < j < t.len() implies t[i].src_off <= t[j].src_off by {
            if j < supported_of(rs.drop_last()).len() {
            } else if fixup_supported(rs.last()) {
                lemma_supported_elems(rs.drop_last(), i);
                let j0 = choose|j0: int|
                    0 <= j0 < rs.drop_last().len() && supported_of(rs.drop_last())[i]
                        == rs.drop_last()[j0] && fixup_supported(#[trigger] rs.drop_last()[j0]);
                assert(rs[j0].src_off <= rs[rs.len() - 1].src_off);
            }
        }
    }
}

/// Law: the bytes of each record lie within the byte range that the page
/// offset table assigns to that record's page: at or past the page's
/// entry, and wholly before the next page's entry. `s` is the supported,
/// sorted relocation list of one object; the `k`-th record starts at byte
/// `spec_records(s.take(k), src).len()` of the object's stream.
pub proof fn lemma_record_in_page_range(s: Seq<FixupInput>, src: Seq<u8>, k: int)
    requires
        sorted_by_off(s),
        0 <= k < s.len(),
    ensures
        spec_bytes_below(s, src, spec_page(s[k])) <= spec_records(s.take(k), src).len(),
        spec_records(s.take(k), src).len() + rec_size(s[k]) <= spec_bytes_below(
            s,
            src,
            spec_page(s[k]) + 1,
        ),
    decreases s.len(),
{
    let p = spec_page(s[k]);
    // (a) everything at or past `k` sits at or above page `p`
    assert forall|j: int| k <= j < s.len() implies p <= spec_page(#[trigger] s[j]) by {
        vstd::arithmetic::div_mod::lemma_div_is_ordered(
            s[k].src_off as int,
            s[j].src_off as int,
            0x1000,
        );
    }
    lemma_below_ignores_tail(s, src, p, k);
    lemma_below_le_total(s.take(k), src, p);
    // (b) everything up to and including `k` sits below page `p + 1`
    assert forall|j: int| 0 <= j < k + 1 implies spec_page(#[trigger] s.take(k + 1)[j]) < p + 1 by {
        vstd::arithmetic::div_mod::lemma_div_is_ordered(
            s[j].src_off as int,
            s[k].src_off as int,
            0x1000,
        );
    }
    lemma_below_all(s.take(k + 1), src, p + 1);
    lemma_below_take_le(s, src, p + 1, k + 1);
    assert(s.take(k + 1) =~= s.take(k) + seq![s[k]]);
    lemma_records_push(s.take(k), s[k], src);
    lemma_record_len(s[k], src);
}

/// No two relocations share a source offset.
pub open spec fn distinct_offs(s: Seq<FixupInput>) -> bool {
    forall|i: int, j: int| 0 <= i < j < s.len() ==> s[i].src_off != s[j].src_off
}

/// Law: within one page, records appear in strictly increasing in-page
/// source offset order, provided no two relocations share a source offset.
pub proof fn lemma_same_page_strict_order(s: Seq<FixupInput>, i: int, j: int)
    requires
        sorted_by_off(s),
        distinct_offs(s),
        0 <= i < j < s.len(),
        spec_page(s[i]) == spec_page(s[j]),
    ensures
        s[i].src_off as int % 0x1000 < s[j].src_off as int % 0x1000,
{
    assert(s[i].src_off < s[j].src_off);
    vstd::arithmetic::div_mod::lemma_fundamental_div_mod(s[i].src_off as int, 0x1000);
    vstd::arithmetic::div_mod::lemma_fundamental_div_mod(s[j].src_off as int, 0x1000);
}

} // verus!
