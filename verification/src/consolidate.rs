//! Section consolidator: concatenates the input's text-kind sections into
//! one flat code object and its data-kind sections into one flat data
//! object, recording where each section landed. The section named
//! `.text.start`, if present, is placed first in the code object, at
//! offset zero.

use vstd::prelude::*;
use crate::types::{InputSection, ObjectId, Placement, SectionKind};
use crate::bytes::bytes_eq;

verus! {

/// The bytes of the distinguished section name `.text.start`.
pub open spec fn spec_text_start_name() -> Seq<u8> {
    seq![0x2eu8, 0x74u8, 0x65u8, 0x78u8, 0x74u8, 0x2eu8, 0x73u8, 0x74u8, 0x61u8, 0x72u8, 0x74u8]
}

/// Builds the name `.text.start`.
pub fn text_start_name() -> (v: Vec<u8>)
    ensures
        v@ == spec_text_start_name(),
{
    let mut v: Vec<u8> = Vec::new();
    v.push(0x2e);
    v.push(0x74);
    v.push(0x65);
    v.push(0x78);
    v.push(0x74);
    v.push(0x2e);
    v.push(0x73);
    v.push(0x74);
    v.push(0x61);
    v.push(0x72);
    v.push(0x74);
    assert(v@ =~= spec_text_start_name());
    v
}

/// Whether a section bears the distinguished name `.text.start`.
pub open spec fn is_ts(s: InputSection) -> bool {
    s.name@ == spec_text_start_name()
}

/// What a section adds to its consolidated object: its bytes, or
/// for an uninitialized-data section a zero-filled run of its declared
/// size.
pub open spec fn payload_of(s: InputSection) -> Seq<u8> {
    if s.kind == SectionKind::UninitializedData {
        Seq::new(s.size as nat, |j: int| 0u8)
    } else {
        s.data@
    }
}

/// A section consolidated into the code object by the main walk (the
/// `.text.start` section is placed separately, first).
pub open spec fn sel_text(s: InputSection) -> bool {
    s.kind == SectionKind::Text && !is_ts(s)
}

/// A section consolidated into the data object by the main walk.
pub open spec fn sel_data(s: InputSection) -> bool {
    (s.kind == SectionKind::Data || s.kind == SectionKind::ReadOnlyData || s.kind
        == SectionKind::UninitializedData) && !is_ts(s)
}

/// Index of the first section named `.text.start`, if any.
pub open spec fn spec_ts_index(ss: Seq<InputSection>) -> Option<int>
    decreases ss.len(),
{
    if ss.len() == 0 {
        None
    } else if is_ts(ss[0]) {
        Some(0int)
    } else {
        match spec_ts_index(ss.skip(1)) {
            Some(i) => Some(i + 1),
            None => None,
        }
    }
}

/// The first matching index is the `.text.start` index.
pub proof fn lemma_ts_index_some(ss: Seq<InputSection>, i: int)
    requires
        0 <= i < ss.len(),
        is_ts(ss[i]),
        forall|j: int| 0 <= j < i ==> !is_ts(#[trigger] ss[j]),
    ensures
        spec_ts_index(ss) == Some(i),
    decreases i,
{
    if i == 0 {
    } else {
        assert(!is_ts(ss[0]));
        assert(forall|j: int| 0 <= j < i - 1 ==> !is_ts(#[trigger] ss.skip(1)[j]));
        assert(ss.skip(1)[i - 1] == ss[i]);
        lemma_ts_index_some(ss.skip(1), i - 1);
    }
}

/// With no match anywhere, there is no `.text.start` index.
pub proof fn lemma_ts_index_none(ss: Seq<InputSection>)
    requires
        forall|j: int| 0 <= j < ss.len() ==> !is_ts(#[trigger] ss[j]),
    ensures
        spec_ts_index(ss) == None::<int>,
    decreases ss.len(),
{
    if ss.len() > 0 {
        assert(forall|j: int| 0 <= j < ss.len() - 1 ==> !is_ts(#[trigger] ss.skip(1)[j]));
        lemma_ts_index_none(ss.skip(1));
    }
}

/// Bytes the main walk adds to the code object from the first `n` sections.
pub open spec fn spec_text_rest(ss: Seq<InputSection>) -> Seq<u8>
    decreases ss.len(),
{
    if ss.len() == 0 {
        Seq::empty()
    } else {
        spec_text_rest(ss.drop_last()) + if sel_text(ss.last()) {
            payload_of(ss.last())
        } else {
            Seq::empty()
        }
    }
}

/// Bytes of the consolidated data object from the first `n` sections.
pub open spec fn spec_data_part(ss: Seq<InputSection>) -> Seq<u8>
    decreases ss.len(),
{
    if ss.len() == 0 {
        Seq::empty()
    } else {
        spec_data_part(ss.drop_last()) + if sel_data(ss.last()) {
            payload_of(ss.last())
        } else {
            Seq::empty()
        }
    }
}

/// What `.text.start` adds to the front of the code object.
pub open spec fn spec_ts_part(ss: Seq<InputSection>) -> Seq<u8> {
    match spec_ts_index(ss) {
        Some(i) => payload_of(ss[i]),
        None => Seq::empty(),
    }
}

/// The whole consolidated code object.
pub open spec fn spec_text_part(ss: Seq<InputSection>) -> Seq<u8> {
    spec_ts_part(ss) + spec_text_rest(ss)
}

/// The consolidated objects and the placement of every input section.
pub struct Consolidated {
    pub text: Vec<u8>,
    pub data: Vec<u8>,
    /// Parallel to the input sections: where each landed, or `None` for a
    /// section that was discarded.
    pub placements: Vec<Option<Placement>>,
}

/// Appends what `s` adds to a consolidated object.
fn append_payload(out: &mut Vec<u8>, s: &InputSection)
    ensures
        final(out)@ == old(out)@ + payload_of(*s),
{
    if s.kind == SectionKind::UninitializedData {
        let mut k: u32 = 0;
        while k < s.size
            invariant
                k <= s.size,
                out@ == old(out)@ + Seq::new(k as nat, |j: int| 0u8),
            decreases s.size - k,
        {
            out.push(0);
            k += 1;
            assert(out@ =~= old(out)@ + Seq::new(k as nat, |j: int| 0u8));
        }
        assert(out@ =~= old(out)@ + payload_of(*s));
    } else {
        let n: usize = s.data.len();
        let mut k: usize = 0;
        while k < n
            invariant
                n == s.data@.len(),
                k <= n,
                out@ == old(out)@ + s.data@.take(k as int),
            decreases n - k,
        {
            out.push(s.data[k]);
            k += 1;
            assert(out@ =~= old(out)@ + s.data@.take(k as int));
        }
        assert(s.data@.take(n as int) =~= s.data@);
    }
}

/// Finds the first section named `.text.start`.
pub fn find_text_start(ss: &Vec<InputSection>) -> (r: Option<usize>)
    ensures
        match r {
            Some(i) => spec_ts_index(ss@) == Some(i as int) && i < ss@.len() && is_ts(ss@[i as int]),
            None => spec_ts_index(ss@) == None::<int>,
        },
{
    let tsn = text_start_name();
    let mut i: usize = 0;
    while i < ss.len()
        invariant
            i <= ss@.len(),
            tsn@ == spec_text_start_name(),
            forall|j: int| 0 <= j < i ==> !is_ts(#[trigger] ss@[j]),
        decreases ss@.len() - i,
    {
        let hit = bytes_eq(&ss[i].name, &tsn);
        proof {
            assert(hit <==> is_ts(ss@[i as int]));
        }
        if hit {
            proof {
                lemma_ts_index_some(ss@, i as int);
            }
            return Some(i);
        }
        i += 1;
    }
    proof {
        lemma_ts_index_none(ss@);
    }
    None
}

/// Consolidates the input sections: `.text.start` first in the code
/// object, then every other text-kind section in input order; data,
/// read-only-data and uninitialized-data sections in input order in the
/// data object. Returns the two objects and each section's placement.
pub fn consolidate(ss: &Vec<InputSection>) -> (c: Consolidated)
    ensures
        c.text@ == spec_text_part(ss@),
        c.data@ == spec_data_part(ss@),
        c.placements@.len() == ss@.len(),
        forall|i: int|
            0 <= i < ss@.len() && is_ts(#[trigger] ss@[i]) ==> c.placements@[i] == (if spec_ts_index(
                ss@,
            ) == Some(i) {
                Some(Placement { obj: ObjectId::Text, base: 0 })
            } else {
                None
            }),
        forall|i: int|
            0 <= i < ss@.len() && sel_text(#[trigger] ss@[i]) ==> c.placements@[i] is Some
                && c.placements@[i].unwrap().obj == ObjectId::Text
                && c.placements@[i].unwrap().base as int == spec_ts_part(ss@).len()
                + spec_text_rest(ss@.take(i)).len(),
        forall|i: int|
            0 <= i < ss@.len() && sel_data(#[trigger] ss@[i]) ==> c.placements@[i] is Some
                && c.placements@[i].unwrap().obj == ObjectId::Data
                && c.placements@[i].unwrap().base as int == spec_data_part(ss@.take(i)).len(),
        forall|i: int|
            0 <= i < ss@.len() && !is_ts(#[trigger] ss@[i]) && !sel_text(ss@[i]) && !sel_data(
                ss@[i],
            ) ==> c.placements@[i] is None,
{
    let ts = find_text_start(ss);
    let mut text: Vec<u8> = Vec::new();
    let mut data: Vec<u8> = Vec::new();
    let mut placements: Vec<Option<Placement>> = Vec::new();
    match ts {
        Some(t) => {
            append_payload(&mut text, &ss[t]);
            assert(text@ =~= spec_ts_part(ss@));
        },
        None => {
            assert(text@ =~= spec_ts_part(ss@));
        },
    }
    let tsn = text_start_name();
    let mut i: usize = 0;
    while i < ss.len()
        invariant
            i <= ss@.len(),
            tsn@ == spec_text_start_name(),
            (match ts {
                Some(t) => spec_ts_index(ss@) == Some(t as int) && t < ss@.len() && is_ts(
                    ss@[t as int],
                ),
                None => spec_ts_index(ss@) == None::<int>,
            }),
            text@ == spec_ts_part(ss@) + spec_text_rest(ss@.take(i as int)),
            data@ == spec_data_part(ss@.take(i as int)),
            placements@.len() == i,
            forall|j: int|
                0 <= j < i && is_ts(#[trigger] ss@[j]) ==> placements@[j] == (if spec_ts_index(ss@)
                    == Some(j) {
                    Some(Placement { obj: ObjectId::Text, base: 0 })
                } else {
                    None
                }),
            forall|j: int|
                0 <= j < i && sel_text(#[trigger] ss@[j]) ==> placements@[j] is Some
                    && placements@[j].unwrap().obj == ObjectId::Text
                    && placements@[j].unwrap().base as int == spec_ts_part(ss@).len()
                    + spec_text_rest(ss@.take(j)).len(),
            forall|j: int|
                0 <= j < i && sel_data(#[trigger] ss@[j]) ==> placements@[j] is Some
                    && placements@[j].unwrap().obj == ObjectId::Data
                    && placements@[j].unwrap().base as int == spec_data_part(ss@.take(j)).len(),
            forall|j: int|
                0 <= j < i && !is_ts(#[trigger] ss@[j]) && !sel_text(ss@[j]) && !sel_data(ss@[j])
                    ==> placements@[j] is None,
        decreases ss@.len() - i,
    {
        let s = &ss[i];
        let hit = bytes_eq(&s.name, &tsn);
        proof {
            assert(hit <==> is_ts(ss@[i as int]));
        }
        let ghost take_i = ss@.take(i as int);
        proof {
            assert(ss@.take(i + 1).drop_last() =~= take_i);
            assert(ss@.take(i + 1).last() == ss@[i as int]);
        }
        if hit {
            let first = match ts {
                Some(t) => t == i,
                None => false,
            };
            if first {
                placements.push(Some(Placement { obj: ObjectId::Text, base: 0 }));
            } else {
                placements.push(None);
            }
            proof {
                assert(spec_text_rest(ss@.take(i + 1)) =~= spec_text_rest(take_i));
                assert(spec_data_part(ss@.take(i + 1)) =~= spec_data_part(take_i));
            }
        } else if s.kind == SectionKind::Text {
            placements.push(Some(Placement { obj: ObjectId::Text, base: text.len() }));
            append_payload(&mut text, s);
            proof {
                assert(sel_text(ss@[i as int]));
                assert(spec_text_rest(ss@.take(i + 1)) =~= spec_text_rest(take_i) + payload_of(
                    ss@[i as int],
                ));
                assert(text@ =~= spec_ts_part(ss@) + spec_text_rest(ss@.take(i + 1)));
                assert(spec_data_part(ss@.take(i + 1)) =~= spec_data_part(take_i));
            }
        } else if s.kind == SectionKind::Data || s.kind == SectionKind::ReadOnlyData || s.kind
            == SectionKind::UninitializedData {
            placements.push(Some(Placement { obj: ObjectId::Data, base: data.len() }));
            append_payload(&mut data, s);
            proof {
                assert(sel_data(ss@[i as int]));
                assert(spec_data_part(ss@.take(i + 1)) =~= spec_data_part(take_i) + payload_of(
                    ss@[i as int],
                ));
                assert(spec_text_rest(ss@.take(i + 1)) =~= spec_text_rest(take_i));
            }
        } else {
            placements.push(None);
            proof {
                assert(spec_text_rest(ss@.take(i + 1)) =~= spec_text_rest(take_i));
                assert(spec_data_part(ss@.take(i + 1)) =~= spec_data_part(take_i));
            }
        }
        i += 1;
    }
    proof {
        assert(ss@.take(ss@.len() as int) =~= ss@);
    }
    Consolidated { text, data, placements }
}

} // verus!
