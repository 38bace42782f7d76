//! Symbol relocator: emits one section symbol per consolidated section
//! (value = the section's new base) and carries every text or data input
//! symbol over with its address shifted by its containing section's base.

use vstd::prelude::*;
use crate::types::{InputSection, InputSymbol, NewSymbol, ObjectId, Placement, SymModel, SymbolKind};
use crate::consolidate::{find_text_start, spec_ts_index};

verus! {

/// Clones a byte vector.
pub fn clone_bytes(v: &Vec<u8>) -> (r: Vec<u8>)
    ensures
        r@ == v@,
{
    let r = v.clone();
    assert(r@ =~= v@);
    r
}

/// The section symbol of a placed section: the section's name at its new
/// base within its object.
pub open spec fn sec_sym_model(s: InputSection, p: Placement) -> SymModel {
    SymModel { name: s.name@, object: p.obj, value: p.base as int, size: 0 }
}

/// Input symbols of these kinds are carried into the new symbol table.
pub open spec fn is_carried(y: InputSymbol) -> bool {
    y.kind == SymbolKind::Text || y.kind == SymbolKind::Data
}

/// The output object a carried symbol is addressed in, by its kind.
pub open spec fn carried_object(k: SymbolKind) -> ObjectId {
    if k == SymbolKind::Text {
        ObjectId::Text
    } else {
        ObjectId::Data
    }
}

/// A carried symbol's new value: the new base of its containing section
/// plus its original address; just its address when it has no placed
/// section.
pub open spec fn new_sym_value(y: InputSymbol, pl: Seq<Option<Placement>>) -> int {
    match y.section {
        Some(si) => if si < pl.len() && pl[si as int] is Some {
            pl[si as int].unwrap().base + y.address
        } else {
            y.address as int
        },
        None => y.address as int,
    }
}

/// The carried form of an input symbol.
pub open spec fn new_sym_model(y: InputSymbol, pl: Seq<Option<Placement>>) -> SymModel {
    SymModel {
        name: y.name@,
        object: carried_object(y.kind),
        value: new_sym_value(y, pl),
        size: y.size as int,
    }
}

/// How many of the first `n` sections get a section symbol from the main
/// walk (placed, and not the `.text.start` section).
pub open spec fn placed_rest_count(pl: Seq<Option<Placement>>, tsi: Option<int>, n: int) -> int
    decreases n,
{
    if n <= 0 {
        0
    } else {
        placed_rest_count(pl, tsi, n - 1) + if tsi == Some(n - 1) || !(pl[n - 1] is Some) {
            0int
        } else {
            1int
        }
    }
}

/// How many of the first `n` input symbols are carried over.
pub open spec fn carried_count(ys: Seq<InputSymbol>, n: int) -> int
    decreases n,
{
    if n <= 0 {
        0
    } else {
        carried_count(ys, n - 1) + if is_carried(ys[n - 1]) {
            1int
        } else {
            0int
        }
    }
}

/// Section-symbol counts are never negative.
pub proof fn lemma_prc_nonneg(pl: Seq<Option<Placement>>, tsi: Option<int>, n: int)
    ensures
        0 <= placed_rest_count(pl, tsi, n),
    decreases n,
{
    if n > 0 {
        lemma_prc_nonneg(pl, tsi, n - 1);
    }
}

/// Section-symbol counts grow with the prefix length.
pub proof fn lemma_prc_le(pl: Seq<Option<Placement>>, tsi: Option<int>, m: int, n: int)
    requires
        m <= n,
    ensures
        placed_rest_count(pl, tsi, m) <= placed_rest_count(pl, tsi, n),
    decreases n - m,
{
    if m < n {
        lemma_prc_le(pl, tsi, m, n - 1);
    }
}

/// Carried-symbol counts grow with the prefix length.
pub proof fn lemma_cc_le(ys: Seq<InputSymbol>, m: int, n: int)
    requires
        m <= n,
    ensures
        carried_count(ys, m) <= carried_count(ys, n),
    decreases n - m,
{
    if m < n {
        lemma_cc_le(ys, m, n - 1);
    }
}

/// Carried-symbol counts are never negative.
pub proof fn lemma_cc_nonneg(ys: Seq<InputSymbol>, n: int)
    ensures
        0 <= carried_count(ys, n),
    decreases n,
{
    if n > 0 {
        lemma_cc_nonneg(ys, n - 1);
    }
}

/// Whether the `.text.start` section contributes a leading section symbol.
pub open spec fn ts_sym_count(ss: Seq<InputSection>, pl: Seq<Option<Placement>>) -> int {
    match spec_ts_index(ss) {
        Some(t) => if 0 <= t < pl.len() && pl[t] is Some {
            1int
        } else {
            0int
        },
        None => 0int,
    }
}

/// Law: the `.text.start` section symbol sits first in the new symbol
/// table with value zero: the consolidator places that section at offset
/// zero of the code object, and the section symbol takes its base.
pub proof fn lemma_text_start_value_zero(
    ss: Seq<InputSection>,
    pl: Seq<Option<Placement>>,
    syms: Seq<NewSymbol>,
    t: int,
)
    requires
        spec_ts_index(ss) == Some(t),
        0 <= t < pl.len(),
        pl[t] is Some,
        pl[t].unwrap().base == 0,
        syms[0]@ == sec_sym_model(ss[t], pl[t].unwrap()),
    ensures
        syms[0]@.value == 0,
{
}

/// Builds the new symbol table: first the `.text.start` section symbol,
/// then a section symbol for every other placed section in input order,
/// then every carried input symbol in input order, each with its value
/// shifted by its containing section's new base.
#[verifier::rlimit(100)]
pub fn build_symtab(
    ss: &Vec<InputSection>,
    placements: &Vec<Option<Placement>>,
    ys: &Vec<InputSymbol>,
) -> (syms: Vec<NewSymbol>)
    requires
        placements@.len() == ss@.len(),
        forall|i: int|
            0 <= i < placements@.len() && (#[trigger] placements@[i]) is Some
                ==> placements@[i].unwrap().base <= 0xFFFF_FFFFu64,
    ensures
        syms@.len() == ts_sym_count(ss@, placements@) + placed_rest_count(
            placements@,
            spec_ts_index(ss@),
            ss@.len() as int,
        ) + carried_count(ys@, ys@.len() as int),
        (match spec_ts_index(ss@) {
            Some(t) => placements@[t] is Some ==> syms@[0]@ == sec_sym_model(
                ss@[t],
                placements@[t].unwrap(),
            ),
            None => true,
        }),
        forall|i: int|
            0 <= i < ss@.len() && spec_ts_index(ss@) != Some(i) && (#[trigger] placements@[i])
                is Some ==> syms@[ts_sym_count(ss@, placements@) + placed_rest_count(
                placements@,
                spec_ts_index(ss@),
                i,
            )]@ == sec_sym_model(ss@[i], placements@[i].unwrap()),
        forall|j: int|
            0 <= j < ys@.len() && is_carried(#[trigger] ys@[j]) ==> syms@[ts_sym_count(
                ss@,
                placements@,
            ) + placed_rest_count(placements@, spec_ts_index(ss@), ss@.len() as int)
                + carried_count(ys@, j)]@ == new_sym_model(ys@[j], placements@),
{
    let ts = find_text_start(ss);
    let ghost tsi: Option<int> = spec_ts_index(ss@);
    let mut syms: Vec<NewSymbol> = Vec::new();
    if let Some(t) = ts {
        let p = placements[t];
        if let Some(pp) = p {
            syms.push(
                NewSymbol {
                    name: clone_bytes(&ss[t].name),
                    object: pp.obj,
                    value: pp.base as u64,
                    size: 0,
                },
            );
        }
    }
    let ghost a0: int = ts_sym_count(ss@, placements@);
    assert(syms@.len() == a0);
    let mut i: usize = 0;
    while i < ss.len()
        invariant
            placements@.len() == ss@.len(),
            i <= ss@.len(),
            tsi == spec_ts_index(ss@),
            a0 == ts_sym_count(ss@, placements@),
            (match ts {
                Some(t) => tsi == Some(t as int),
                None => tsi == None::<int>,
            }),
            (match tsi {
                Some(t) => 0 <= t < ss@.len(),
                None => true,
            }),
            syms@.len() == a0 + placed_rest_count(placements@, tsi, i as int),
            (match tsi {
                Some(t) => placements@[t] is Some ==> syms@[0]@ == sec_sym_model(
                    ss@[t],
                    placements@[t].unwrap(),
                ),
                None => true,
            }),
            forall|k: int|
                0 <= k < i && tsi != Some(k) && (#[trigger] placements@[k]) is Some ==> syms@[a0
                    + placed_rest_count(placements@, tsi, k)]@ == sec_sym_model(
                    ss@[k],
                    placements@[k].unwrap(),
                ),
        decreases ss@.len() - i,
    {
        let skip_this = match ts {
            Some(t) => t == i,
            None => false,
        };
        proof {
            lemma_prc_nonneg(placements@, tsi, i as int);
            assert forall|k: int|
                0 <= k < i && tsi != Some(k) && (#[trigger] placements@[k]) is Some implies 0 <= a0
                + placed_rest_count(placements@, tsi, k) < a0 + placed_rest_count(
                placements@,
                tsi,
                i as int,
            ) by {
                lemma_prc_nonneg(placements@, tsi, k);
                lemma_prc_le(placements@, tsi, k + 1, i as int);
            }
        }
        if !skip_this {
            let p = placements[i];
            if let Some(pp) = p {
                syms.push(
                    NewSymbol {
                        name: clone_bytes(&ss[i].name),
                        object: pp.obj,
                        value: pp.base as u64,
                        size: 0,
                    },
                );
                proof {
                    assert(placed_rest_count(placements@, tsi, i + 1) == placed_rest_count(
                        placements@,
                        tsi,
                        i as int,
                    ) + 1);
                    assert(syms@[syms@.len() - 1]@ == sec_sym_model(
                        ss@[i as int],
                        placements@[i as int].unwrap(),
                    ));
                }
            }
        }
        i += 1;
    }
    let ghost a: int = syms@.len() as int;
    let mut j: usize = 0;
    while j < ys.len()
        invariant
            placements@.len() == ss@.len(),
            forall|i2: int|
                0 <= i2 < placements@.len() && (#[trigger] placements@[i2]) is Some
                    ==> placements@[i2].unwrap().base <= 0xFFFF_FFFFu64,
            j <= ys@.len(),
            tsi == spec_ts_index(ss@),
            a0 == ts_sym_count(ss@, placements@),
            a == a0 + placed_rest_count(placements@, tsi, ss@.len() as int),
            (match tsi {
                Some(t) => 0 <= t < ss@.len(),
                None => true,
            }),
            syms@.len() == a + carried_count(ys@, j as int),
            (match tsi {
                Some(t) => placements@[t] is Some ==> syms@[0]@ == sec_sym_model(
                    ss@[t],
                    placements@[t].unwrap(),
                ),
                None => true,
            }),
            forall|k: int|
                0 <= k < ss@.len() && tsi != Some(k) && (#[trigger] placements@[k]) is Some
                    ==> syms@[a0 + placed_rest_count(placements@, tsi, k)]@ == sec_sym_model(
                    ss@[k],
                    placements@[k].unwrap(),
                ),
            forall|k: int|
                0 <= k < j && is_carried(#[trigger] ys@[k]) ==> syms@[a + carried_count(ys@, k)]@
                    == new_sym_model(ys@[k], placements@),
        decreases ys@.len() - j,
    {
        proof {
            lemma_cc_nonneg(ys@, j as int);
            lemma_prc_nonneg(placements@, tsi, ss@.len() as int);
            assert forall|k: int|
                0 <= k < ss@.len() && tsi != Some(k) && (#[trigger] placements@[k]) is Some implies
                0 <= a0 + placed_rest_count(placements@, tsi, k) < a by {
                lemma_prc_nonneg(placements@, tsi, k);
                lemma_prc_le(placements@, tsi, k + 1, ss@.len() as int);
            }
            assert forall|k: int| 0 <= k < j && is_carried(#[trigger] ys@[k]) implies 0 <= a
                + carried_count(ys@, k) < a + carried_count(ys@, j as int) by {
                lemma_prc_nonneg(placements@, tsi, ss@.len() as int);
                lemma_cc_nonneg(ys@, k);
                assert(carried_count(ys@, k + 1) == carried_count(ys@, k) + 1);
                lemma_cc_le(ys@, k + 1, j as int);
            }
        }
        let y = &ys[j];
        let carried = y.kind == SymbolKind::Text || y.kind == SymbolKind::Data;
        if carried {
            let value: u64 = match y.section {
                Some(si) => if si < placements.len() {
                    match placements[si] {
                        Some(pp) => pp.base as u64 + y.address as u64,
                        None => y.address as u64,
                    }
                } else {
                    y.address as u64
                },
                None => y.address as u64,
            };
            let obj = if y.kind == SymbolKind::Text {
                ObjectId::Text
            } else {
                ObjectId::Data
            };
            syms.push(
                NewSymbol { name: clone_bytes(&y.name), object: obj, value, size: y.size },
            );
            proof {
                lemma_cc_nonneg(ys@, j as int);
                assert(carried_count(ys@, j + 1) == carried_count(ys@, j as int) + 1);
                assert(value as int == new_sym_value(ys@[j as int], placements@));
                assert(syms@[syms@.len() - 1]@ == new_sym_model(ys@[j as int], placements@));
            }
        } else {
            proof {
                assert(carried_count(ys@, j + 1) == carried_count(ys@, j as int));
            }
        }
        j += 1;
    }
    syms
}

} // verus!
