//! Relocation rewriter: carries every relocation of a consolidated section
//! into the coordinates of its output object, retargeting it at the new
//! symbol found by the old target's name, or failing that by the name of
//! the section that held the target; and turns the rewritten relocations
//! of one object into the fixup encoder's inputs.

use vstd::prelude::*;
use crate::types::{ConvertError, InputReloc, InputSection, InputSymbol, NewReloc, NewSymbol,
    ObjectId, Placement};
use crate::bytes::bytes_eq;
use crate::fixup::FixupInput;

verus! {

/// The most recently added symbol bearing `name`, as the name map keeps
/// only the latest entry for a name.
pub open spec fn spec_find_last(syms: Seq<NewSymbol>, name: Seq<u8>) -> Option<int>
    decreases syms.len(),
{
    if syms.len() == 0 {
        None
    } else if syms.last().name@ == name {
        Some(syms.len() - 1)
    } else {
        spec_find_last(syms.drop_last(), name)
    }
}

/// Finds the most recently added symbol bearing `name`.
pub fn find_last_symbol(syms: &Vec<NewSymbol>, name: &Vec<u8>) -> (r: Option<usize>)
    ensures
        match r {
            Some(x) => spec_find_last(syms@, name@) == Some(x as int) && x < syms@.len(),
            None => spec_find_last(syms@, name@) == None::<int>,
        },
{
    let mut i: usize = syms.len();
    assert(syms@.take(i as int) =~= syms@);
    while i > 0
        invariant
            i <= syms@.len(),
            spec_find_last(syms@, name@) == spec_find_last(syms@.take(i as int), name@),
        decreases i,
    {
        proof {
            assert(syms@.take(i as int).drop_last() =~= syms@.take(i - 1));
            assert(syms@.take(i as int).last() == syms@[i - 1]);
        }
        if bytes_eq(&syms[i - 1].name, name) {
            return Some(i - 1);
        }
        i -= 1;
    }
    None
}

/// A relocation the rewriter can process: it targets a symbol, and one the
/// input symbol table has.
pub open spec fn reloc_target_ok(r: InputReloc, n_syms: int) -> bool {
    r.target_symbol is Some && r.target_symbol.unwrap() < n_syms
}

/// The error a bad relocation target draws: a section or absolute target
/// is unsupported; a symbol index past the table is missing.
pub open spec fn spec_reloc_error(r: InputReloc) -> ConvertError {
    if r.target_symbol is None {
        ConvertError::UnsupportedRelocationTarget
    } else {
        ConvertError::MissingSymbol
    }
}

/// Where one relocation of a section based at `base` of object `obj`
/// lands: `None` when it is skipped (its target symbol has no section, or
/// resolves to no new symbol), else the rewritten relocation. The target
/// index must name an input symbol.
pub open spec fn spec_rewrite_one(
    r: InputReloc,
    obj: ObjectId,
    base: int,
    ss: Seq<InputSection>,
    ys: Seq<InputSymbol>,
    syms: Seq<NewSymbol>,
) -> Option<NewReloc> {
    let y = ys[r.target_symbol.unwrap() as int];
    match y.section {
        None => None,
        Some(si) => {
            let target = if spec_find_last(syms, y.name@) is Some {
                spec_find_last(syms, y.name@)
            } else if si < ss.len() {
                spec_find_last(syms, ss[si as int].name@)
            } else {
                None
            };
            match target {
                Some(tix) => Some(
                    NewReloc {
                        object: obj,
                        off: (base + r.src_off) as u64,
                        kind: r.kind,
                        encoding: r.encoding,
                        size: r.size,
                        has_implicit_addend: r.has_implicit_addend,
                        addend: r.addend,
                        symbol: tix as usize,
                    },
                ),
                None => None,
            }
        },
    }
}

/// The rewritten relocations of one section, in order, skipped ones left
/// out.
pub open spec fn spec_rewrite_list(
    rs: Seq<InputReloc>,
    obj: ObjectId,
    base: int,
    ss: Seq<InputSection>,
    ys: Seq<InputSymbol>,
    syms: Seq<NewSymbol>,
) -> Seq<NewReloc>
    decreases rs.len(),
{
    if rs.len() == 0 {
        Seq::empty()
    } else {
        spec_rewrite_list(rs.drop_last(), obj, base, ss, ys, syms) + match spec_rewrite_one(
            rs.last(),
            obj,
            base,
            ss,
            ys,
            syms,
        ) {
            Some(n) => seq![n],
            None => Seq::empty(),
        }
    }
}

/// Every relocation targets a symbol the input symbol table has.
pub open spec fn spec_targets_ok(rs: Seq<InputReloc>, n_syms: int) -> bool {
    forall|i: int| 0 <= i < rs.len() ==> reloc_target_ok(#[trigger] rs[i], n_syms)
}

/// Rewrites the relocations of one section based at `base` of object
/// `obj`, appending the results. Succeeds exactly when every relocation
/// targets an in-range symbol; fails at the first offender, with
/// `UnsupportedRelocationTarget` for a section or absolute target and
/// `MissingSymbol` for an out-of-range symbol index.
pub fn rewrite_section_relocs(
    rs: &Vec<InputReloc>,
    obj: ObjectId,
    base: usize,
    ss: &Vec<InputSection>,
    ys: &Vec<InputSymbol>,
    syms: &Vec<NewSymbol>,
    out: &mut Vec<NewReloc>,
) -> (ok: Result<(), ConvertError>)
    requires
        base <= 0xFFFF_FFFF,
    ensures
        ok is Ok <==> spec_targets_ok(rs@, ys@.len() as int),
        ok is Ok ==> final(out)@ == old(out)@ + spec_rewrite_list(
            rs@,
            obj,
            base as int,
            ss@,
            ys@,
            syms@,
        ),
        ok is Err ==> exists|i: int|
            #![trigger rs@[i]]
            0 <= i < rs@.len() && !reloc_target_ok(rs@[i], ys@.len() as int)
                && ok.unwrap_err() == spec_reloc_error(rs@[i]) && forall|j: int|
                0 <= j < i ==> reloc_target_ok(#[trigger] rs@[j], ys@.len() as int),
{
    let mut i: usize = 0;
    while i < rs.len()
        invariant
            base <= 0xFFFF_FFFF,
            i <= rs@.len(),
            out@ == old(out)@ + spec_rewrite_list(
                rs@.take(i as int),
                obj,
                base as int,
                ss@,
                ys@,
                syms@,
            ),
            forall|k: int| 0 <= k < i ==> reloc_target_ok(#[trigger] rs@[k], ys@.len() as int),
        decreases rs@.len() - i,
    {
        let r = rs[i];
        proof {
            assert(rs@.take(i + 1).drop_last() =~= rs@.take(i as int));
            assert(rs@.take(i + 1).last() == rs@[i as int]);
        }
        let idx: usize = match r.target_symbol {
            Some(idx) => idx,
            None => {
                proof {
                    assert(!reloc_target_ok(rs@[i as int], ys@.len() as int));
                }
                return Err(ConvertError::UnsupportedRelocationTarget);
            },
        };
        if idx >= ys.len() {
            proof {
                assert(!reloc_target_ok(rs@[i as int], ys@.len() as int));
            }
            return Err(ConvertError::MissingSymbol);
        }
        let y = &ys[idx];
        match y.section {
            None => {
                proof {
                    assert(spec_rewrite_one(rs@[i as int], obj, base as int, ss@, ys@, syms@)
                        is None);
                    assert(out@ =~= old(out)@ + spec_rewrite_list(
                        rs@.take(i + 1),
                        obj,
                        base as int,
                        ss@,
                        ys@,
                        syms@,
                    ));
                }
            },
            Some(si) => {
                let by_name = find_last_symbol(syms, &y.name);
                let target: Option<usize> = match by_name {
                    Some(t) => Some(t),
                    None => if si < ss.len() {
                        find_last_symbol(syms, &ss[si].name)
                    } else {
                        None
                    },
                };
                match target {
                    Some(tix) => {
                        out.push(
                            NewReloc {
                                object: obj,
                                off: base as u64 + r.src_off as u64,
                                kind: r.kind,
                                encoding: r.encoding,
                                size: r.size,
                                has_implicit_addend: r.has_implicit_addend,
                                addend: r.addend,
                                symbol: tix,
                            },
                        );
                        proof {
                            assert(out@.last() == spec_rewrite_one(
                                rs@[i as int],
                                obj,
                                base as int,
                                ss@,
                                ys@,
                                syms@,
                            ).unwrap());
                            assert(out@ =~= old(out)@ + spec_rewrite_list(
                                rs@.take(i + 1),
                                obj,
                                base as int,
                                ss@,
                                ys@,
                                syms@,
                            ));
                        }
                    },
                    None => {
                        proof {
                            assert(spec_rewrite_one(
                                rs@[i as int],
                                obj,
                                base as int,
                                ss@,
                                ys@,
                                syms@,
                            ) is None);
                            assert(out@ =~= old(out)@ + spec_rewrite_list(
                                rs@.take(i + 1),
                                obj,
                                base as int,
                                ss@,
                                ys@,
                                syms@,
                            ));
                        }
                    },
                }
            },
        }
        i += 1;
    }
    proof {
        assert(rs@.take(rs@.len() as int) =~= rs@);
    }
    Ok(())
}

/// The rewritten relocations of every placed section, in section order,
/// each shifted by its section's base within its object.
pub open spec fn spec_rewrite_all(
    ss: Seq<InputSection>,
    pl: Seq<Option<Placement>>,
    ys: Seq<InputSymbol>,
    syms: Seq<NewSymbol>,
    n: int,
) -> Seq<NewReloc>
    decreases n,
{
    if n <= 0 {
        Seq::empty()
    } else {
        spec_rewrite_all(ss, pl, ys, syms, n - 1) + if pl[n - 1] is Some {
            spec_rewrite_list(
                ss[n - 1].relocs@,
                pl[n - 1].unwrap().obj,
                pl[n - 1].unwrap().base as int,
                ss,
                ys,
                syms,
            )
        } else {
            Seq::empty()
        }
    }
}

/// Every relocation of every placed section targets an in-range symbol.
pub open spec fn spec_all_targets_ok(
    ss: Seq<InputSection>,
    pl: Seq<Option<Placement>>,
    n_syms: int,
) -> bool {
    forall|i: int|
        0 <= i < ss.len() ==> ((#[trigger] pl[i]) is Some ==> spec_targets_ok(
            ss[i].relocs@,
            n_syms,
        ))
}

/// Rewrites the relocations of every placed section into consolidated
/// coordinates. Succeeds exactly when every relocation of every placed
/// section targets an in-range symbol; on failure the error names the
/// offending relocation's fault as [`rewrite_section_relocs`] does.
pub fn rewrite_relocations(
    ss: &Vec<InputSection>,
    placements: &Vec<Option<Placement>>,
    ys: &Vec<InputSymbol>,
    syms: &Vec<NewSymbol>,
) -> (r: Result<Vec<NewReloc>, ConvertError>)
    requires
        placements@.len() == ss@.len(),
        forall|i: int|
            0 <= i < placements@.len() && (#[trigger] placements@[i]) is Some
                ==> placements@[i].unwrap().base <= 0xFFFF_FFFFu64,
    ensures
        r is Ok <==> spec_all_targets_ok(ss@, placements@, ys@.len() as int),
        r is Ok ==> r.unwrap()@ == spec_rewrite_all(ss@, placements@, ys@, syms@, ss@.len() as int),
        r is Err ==> exists|i: int, k: int|
            #![trigger placements@[i], ss@[i].relocs@[k]]
            0 <= i < ss@.len() && placements@[i] is Some && 0 <= k < ss@[i].relocs@.len()
                && !reloc_target_ok(ss@[i].relocs@[k], ys@.len() as int) && r.unwrap_err()
                == spec_reloc_error(ss@[i].relocs@[k]),
{
    let mut out: Vec<NewReloc> = Vec::new();
    let mut i: usize = 0;
    while i < ss.len()
        invariant
            placements@.len() == ss@.len(),
            forall|i2: int|
                0 <= i2 < placements@.len() && (#[trigger] placements@[i2]) is Some
                    ==> placements@[i2].unwrap().base <= 0xFFFF_FFFFu64,
            i <= ss@.len(),
            out@ == spec_rewrite_all(ss@, placements@, ys@, syms@, i as int),
            forall|i2: int|
                0 <= i2 < i ==> ((#[trigger] placements@[i2]) is Some ==> spec_targets_ok(
                    ss@[i2].relocs@,
                    ys@.len() as int,
                )),
        decreases ss@.len() - i,
    {
        if let Some(p) = placements[i] {
            let res = rewrite_section_relocs(&ss[i].relocs, p.obj, p.base, ss, ys, syms, &mut out);
            if let Err(e) = res {
                proof {
                    let k = choose|k: int|
                        #![trigger ss@[i as int].relocs@[k]]
                        0 <= k < ss@[i as int].relocs@.len() && !reloc_target_ok(
                            ss@[i as int].relocs@[k],
                            ys@.len() as int,
                        ) && e == spec_reloc_error(ss@[i as int].relocs@[k]) && forall|j: int|
                            0 <= j < k ==> reloc_target_ok(
                                #[trigger] ss@[i as int].relocs@[j],
                                ys@.len() as int,
                            );
                    assert(placements@[i as int] is Some && !reloc_target_ok(
                        ss@[i as int].relocs@[k],
                        ys@.len() as int,
                    ) && e == spec_reloc_error(ss@[i as int].relocs@[k]));
                    assert(!spec_targets_ok(ss@[i as int].relocs@, ys@.len() as int));
                }
                return Err(e);
            }
        }
        i += 1;
    }
    Ok(out)
}

/// What one rewritten relocation hands the fixup encoder: the source
/// offset within its object, and its target symbol's object and address.
pub open spec fn spec_fixup_input_of(n: NewReloc, syms: Seq<NewSymbol>) -> FixupInput {
    FixupInput {
        src_off: n.off as u32,
        kind: n.kind,
        size: n.size,
        has_implicit_addend: n.has_implicit_addend,
        target_obj: syms[n.symbol as int].object,
        target_addr: syms[n.symbol as int].value,
    }
}

/// The encoder inputs of the relocations that live in object `obj`, in
/// order.
pub open spec fn spec_fixup_inputs(
    nrs: Seq<NewReloc>,
    syms: Seq<NewSymbol>,
    obj: ObjectId,
) -> Seq<FixupInput>
    decreases nrs.len(),
{
    if nrs.len() == 0 {
        Seq::empty()
    } else {
        spec_fixup_inputs(nrs.drop_last(), syms, obj) + if nrs.last().object == obj {
            seq![spec_fixup_input_of(nrs.last(), syms)]
        } else {
            Seq::empty()
        }
    }
}

/// A relocation of object `obj` the encoder can take: its target symbol
/// index is in range and its source offset fits the format's 32 bits.
pub open spec fn fixup_convertible(n: NewReloc, n_syms: int) -> bool {
    n.symbol < n_syms && n.off <= 0xFFFF_FFFF
}

/// The error a non-convertible relocation draws.
pub open spec fn spec_fixup_error(n: NewReloc, n_syms: int) -> ConvertError {
    if n.symbol >= n_syms {
        ConvertError::MissingSymbol
    } else {
        ConvertError::OutputTooLarge
    }
}

/// Turns the rewritten relocations that live in object `obj` into the
/// fixup encoder's inputs, resolving each target symbol's object and
/// address through the new symbol table. Succeeds exactly when every such
/// relocation names an in-range symbol and has a source offset that fits
/// 32 bits; fails at the first offender, with `MissingSymbol` for a bad
/// index and `OutputTooLarge` for an oversized offset.
pub fn fixup_inputs_for_object(
    nrs: &Vec<NewReloc>,
    syms: &Vec<NewSymbol>,
    obj: ObjectId,
) -> (r: Result<Vec<FixupInput>, ConvertError>)
    ensures
        r is Ok <==> (forall|i: int|
            0 <= i < nrs@.len() ==> ((#[trigger] nrs@[i]).object == obj ==> fixup_convertible(
                nrs@[i],
                syms@.len() as int,
            ))),
        r is Ok ==> r.unwrap()@ == spec_fixup_inputs(nrs@, syms@, obj),
        r is Err ==> exists|i: int|
            #![trigger nrs@[i]]
            0 <= i < nrs@.len() && nrs@[i].object == obj && !fixup_convertible(
                nrs@[i],
                syms@.len() as int,
            ) && r.unwrap_err() == spec_fixup_error(nrs@[i], syms@.len() as int) && forall|j: int|
                0 <= j < i ==> ((#[trigger] nrs@[j]).object == obj ==> fixup_convertible(
                    nrs@[j],
                    syms@.len() as int,
                )),
{
    let mut out: Vec<FixupInput> = Vec::new();
    let mut i: usize = 0;
    while i < nrs.len()
        invariant
            i <= nrs@.len(),
            out@ == spec_fixup_inputs(nrs@.take(i as int), syms@, obj),
            forall|k: int|
                0 <= k < i ==> ((#[trigger] nrs@[k]).object == obj ==> fixup_convertible(
                    nrs@[k],
                    syms@.len() as int,
                )),
        decreases nrs@.len() - i,
    {
        let n = nrs[i];
        proof {
            assert(nrs@.take(i + 1).drop_last() =~= nrs@.take(i as int));
            assert(nrs@.take(i + 1).last() == nrs@[i as int]);
        }
        if n.object == obj {
            if n.symbol >= syms.len() {
                return Err(ConvertError::MissingSymbol);
            }
            if n.off > 0xFFFF_FFFF {
                return Err(ConvertError::OutputTooLarge);
            }
            let y = &syms[n.symbol];
            out.push(
                FixupInput {
                    src_off: n.off as u32,
                    kind: n.kind,
                    size: n.size,
                    has_implicit_addend: n.has_implicit_addend,
                    target_obj: y.object,
                    target_addr: y.value,
                },
            );
            proof {
                assert(out@.last() == spec_fixup_input_of(nrs@[i as int], syms@));
                assert(out@ =~= spec_fixup_inputs(nrs@.take(i + 1), syms@, obj));
            }
        } else {
            proof {
                assert(out@ =~= spec_fixup_inputs(nrs@.take(i + 1), syms@, obj));
            }
        }
        i += 1;
    }
    proof {
        assert(nrs@.take(nrs@.len() as int) =~= nrs@);
    }
    Ok(out)
}

} // verus!
