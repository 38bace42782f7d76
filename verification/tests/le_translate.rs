use elfle::bytes::{bytes_eq, read_u32_le, write_bytes_at};
use elfle::consolidate::{consolidate, find_text_start, text_start_name};
use elfle::fixup::{encode_fixups, sort_by_src_off, FixupInput};
use elfle::symtab::build_symtab;
use elfle::types::{
    InputSection, InputSymbol, ObjectId, Placement, RelocEncoding, RelocKind, SectionKind,
    SymbolKind,
};

fn section(name: &[u8], kind: SectionKind, data: Vec<u8>, size: u32) -> InputSection {
    InputSection { name: name.to_vec(), kind, data, size, relocs: Vec::new() }
}

fn fixup(src_off: u32, kind: RelocKind, implicit: bool, obj: ObjectId, addr: u64) -> FixupInput {
    FixupInput {
        src_off,
        kind,
        size: 32,
        has_implicit_addend: implicit,
        target_obj: obj,
        target_addr: addr,
    }
}

#[test]
fn empty_fixups_one_text_page() {
    // one text page, no data, no relocations
    let text = vec![0u8; 0x40];
    let t = encode_fixups(&Vec::new(), &text, 1, &Vec::new(), &Vec::new(), 0);
    assert_eq!(t.records, Vec::<u8>::new());
    assert_eq!(t.page_offsets, vec![0u32, 0, 0]);
}

#[test]
fn single_absolute_fixup() {
    // absolute relocation at text offset 2 aimed at data offset 8
    let text = vec![0u8; 0x20];
    let data = vec![0u8; 0x10];
    let rs = vec![fixup(0x02, RelocKind::Absolute, true, ObjectId::Data, 0x08)];
    let t = encode_fixups(&rs, &text, 1, &Vec::new(), &data, 1);
    assert_eq!(t.records, vec![0x07u8, 0x00, 0x02, 0x00, 0x02, 0x08, 0x00]);
    assert_eq!(t.page_offsets, vec![0u32, 7, 7, 7]);
}

#[test]
fn cross_page_text_fixups() {
    // relocations at 0x40 (page 0) and 0x1010 (page 1) of a 0x1800-byte text
    let text = vec![0u8; 0x1800];
    let rs = vec![
        fixup(0x0040, RelocKind::Absolute, true, ObjectId::Text, 0x04),
        fixup(0x1010, RelocKind::Absolute, true, ObjectId::Text, 0x08),
    ];
    let t = encode_fixups(&rs, &text, 2, &Vec::new(), &Vec::new(), 0);
    assert_eq!(t.records.len(), 14);
    assert_eq!(t.page_offsets, vec![0u32, 7, 14, 14]);
    // the second record's in-page source offset is 0x010
    assert_eq!(t.records[7 + 2], 0x10);
    assert_eq!(t.records[7 + 3], 0x00);
}

#[test]
fn wide_target_offset() {
    // a target address at or above 0x10000 switches to a 9-byte record
    let text = vec![0u8; 0x10];
    let rs = vec![fixup(0x00, RelocKind::Absolute, false, ObjectId::Text, 0x12345)];
    let t = encode_fixups(&rs, &text, 1, &Vec::new(), &Vec::new(), 0);
    assert_eq!(t.records, vec![0x07u8, 0x10, 0x00, 0x00, 0x01, 0x45, 0x23, 0x01, 0x00]);
    assert_eq!(t.page_offsets, vec![0u32, 9, 9]);
}

#[test]
fn relative_fixup_ignores_implicit_addend() {
    // a PC-relative relocation emits type 0x08 and leaves the inline bytes out
    let mut text = vec![0u8; 0x10];
    text[0] = 0x99;
    let rs = vec![fixup(0x00, RelocKind::PltRelative, true, ObjectId::Text, 0x06)];
    let t = encode_fixups(&rs, &text, 1, &Vec::new(), &Vec::new(), 0);
    assert_eq!(t.records, vec![0x08u8, 0x00, 0x00, 0x00, 0x01, 0x06, 0x00]);
}

#[test]
fn absolute_fixup_folds_implicit_addend() {
    // the u32 at the relocation site is added to the target offset
    let mut text = vec![0u8; 0x10];
    text[4] = 0x34;
    text[5] = 0x12;
    let rs = vec![fixup(0x04, RelocKind::Absolute, true, ObjectId::Data, 0x100)];
    let t = encode_fixups(&rs, &text, 1, &Vec::new(), &Vec::new(), 0);
    assert_eq!(t.records, vec![0x07u8, 0x00, 0x04, 0x00, 0x02, 0x34, 0x13]);
}

#[test]
fn unsupported_fixups_are_skipped() {
    let text = vec![0u8; 0x10];
    let rs = vec![
        fixup(0x00, RelocKind::Other, false, ObjectId::Text, 0x02),
        FixupInput {
            src_off: 0x04,
            kind: RelocKind::Absolute,
            size: 16,
            has_implicit_addend: false,
            target_obj: ObjectId::Text,
            target_addr: 0x02,
        },
    ];
    let t = encode_fixups(&rs, &text, 1, &Vec::new(), &Vec::new(), 0);
    assert_eq!(t.records, Vec::<u8>::new());
    assert_eq!(t.page_offsets, vec![0u32, 0, 0]);
}

#[test]
fn sort_is_stable_by_source_offset() {
    let a = fixup(0x10, RelocKind::Absolute, false, ObjectId::Text, 1);
    let b = fixup(0x04, RelocKind::Relative, false, ObjectId::Text, 2);
    let c = fixup(0x10, RelocKind::Relative, false, ObjectId::Data, 3);
    let sorted = sort_by_src_off(&vec![a, b, c]);
    assert_eq!(sorted.len(), 3);
    assert_eq!(sorted[0], b);
    assert_eq!(sorted[1], a);
    assert_eq!(sorted[2], c);
}

#[test]
fn consolidate_places_text_start_first() {
    // .text.start is placed at offset 0 even when it comes later
    let ss = vec![
        section(b".text.other", SectionKind::Text, vec![1, 2], 0),
        section(b".text.start", SectionKind::Text, vec![9, 9, 9], 0),
    ];
    let c = consolidate(&ss);
    assert_eq!(c.text, vec![9, 9, 9, 1, 2]);
    assert_eq!(c.placements[1], Some(Placement { obj: ObjectId::Text, base: 0 }));
    assert_eq!(c.placements[0], Some(Placement { obj: ObjectId::Text, base: 3 }));
}

#[test]
fn consolidate_zero_fills_uninitialized_data() {
    // 0x100 data bytes followed by a 0x200-byte zero-filled run
    let ss = vec![
        section(b".data", SectionKind::Data, vec![7u8; 0x100], 0),
        section(b".bss", SectionKind::UninitializedData, Vec::new(), 0x200),
    ];
    let c = consolidate(&ss);
    assert_eq!(c.data.len(), 0x300);
    assert!(c.data[..0x100].iter().all(|&b| b == 7));
    assert!(c.data[0x100..].iter().all(|&b| b == 0));
    assert_eq!(c.placements[1], Some(Placement { obj: ObjectId::Data, base: 0x100 }));
}

#[test]
fn consolidate_discards_other_sections() {
    let ss = vec![
        section(b".comment", SectionKind::Other, vec![1, 2, 3], 0),
        section(b".rodata", SectionKind::ReadOnlyData, vec![5], 0),
    ];
    let c = consolidate(&ss);
    assert!(c.text.is_empty());
    assert_eq!(c.data, vec![5]);
    assert_eq!(c.placements[0], None);
    assert_eq!(c.placements[1], Some(Placement { obj: ObjectId::Data, base: 0 }));
}

#[test]
fn find_text_start_reports_first_match() {
    let ss = vec![
        section(b".data", SectionKind::Data, Vec::new(), 0),
        section(b".text.start", SectionKind::Text, Vec::new(), 0),
    ];
    assert_eq!(find_text_start(&ss), Some(1));
    assert_eq!(find_text_start(&Vec::new()), None);
    assert_eq!(text_start_name(), b".text.start".to_vec());
}

#[test]
fn symtab_shifts_symbols_by_section_base() {
    // a symbol at address 4 of a section based at 3 gets value 7
    let ss = vec![
        section(b".text.start", SectionKind::Text, vec![0, 0, 0], 0),
        section(b".text.fn", SectionKind::Text, vec![0, 0], 0),
    ];
    let c = consolidate(&ss);
    let ys = vec![
        InputSymbol {
            name: b"entry".to_vec(),
            kind: SymbolKind::Text,
            section: Some(1),
            address: 1,
            size: 2,
        },
        InputSymbol {
            name: b"note".to_vec(),
            kind: SymbolKind::Label,
            section: None,
            address: 5,
            size: 0,
        },
    ];
    let syms = build_symtab(&ss, &c.placements, &ys);
    // section symbols: .text.start at 0, .text.fn at 3; then the one carried symbol
    assert_eq!(syms.len(), 3);
    assert_eq!(syms[0].name, b".text.start".to_vec());
    assert_eq!(syms[0].value, 0);
    assert_eq!(syms[1].name, b".text.fn".to_vec());
    assert_eq!(syms[1].value, 3);
    assert_eq!(syms[2].name, b"entry".to_vec());
    assert_eq!(syms[2].value, 3 + 1);
    assert_eq!(syms[2].object, ObjectId::Text);
    assert_eq!(syms[2].size, 2);
}

#[test]
fn symtab_keeps_unplaced_symbol_address() {
    let ss = vec![section(b".comment", SectionKind::Other, Vec::new(), 0)];
    let c = consolidate(&ss);
    let ys = vec![InputSymbol {
        name: b"abs".to_vec(),
        kind: SymbolKind::Data,
        section: Some(0),
        address: 0x44,
        size: 0,
    }];
    let syms = build_symtab(&ss, &c.placements, &ys);
    assert_eq!(syms.len(), 1);
    assert_eq!(syms[0].value, 0x44);
    assert_eq!(syms[0].object, ObjectId::Data);
}

#[test]
fn byte_helpers_round_values() {
    let v = vec![0x78u8, 0x56, 0x34, 0x12];
    assert_eq!(read_u32_le(&v, 0), 0x12345678);
    assert!(bytes_eq(&v, &v.clone()));
    assert!(!bytes_eq(&v, &vec![0x78u8, 0x56]));
    let mut buf = vec![1u8, 1];
    write_bytes_at(&mut buf, 4, &vec![9u8, 8]);
    assert_eq!(buf, vec![1, 1, 0, 0, 9, 8]);
}

#[test]
fn reloc_kinds_and_encodings_compare() {
    assert_ne!(RelocKind::Absolute, RelocKind::Relative);
    assert_eq!(RelocEncoding::Generic, RelocEncoding::Generic);
    assert_eq!(ObjectId::Text.number(), 1);
    assert_eq!(ObjectId::Data.number(), 2);
}

use elfle::fixup::FixupTables;
use elfle::header::{build_le_image, build_tables, fixup_section_length, page_count};
use elfle::rewrite::{find_last_symbol, rewrite_relocations};
use elfle::types::{ConvertError, InputReloc, NewSymbol};

fn reloc(src_off: u32, target: Option<usize>) -> InputReloc {
    InputReloc {
        src_off,
        kind: RelocKind::Absolute,
        encoding: RelocEncoding::Generic,
        size: 32,
        has_implicit_addend: true,
        addend: 0,
        target_symbol: target,
    }
}

#[test]
fn page_counts_round_up() {
    assert_eq!(page_count(0), 0);
    assert_eq!(page_count(1), 1);
    assert_eq!(page_count(0x1000), 1);
    assert_eq!(page_count(0x1001), 2);
}

#[test]
fn fixup_section_length_counts_entries_and_records() {
    let t = FixupTables { page_offsets: vec![0, 7, 7, 7], records: vec![0u8; 7] };
    assert_eq!(fixup_section_length(&t), 4 * 4 + 7);
}

#[test]
fn tables_layout() {
    let t = FixupTables { page_offsets: vec![0, 0, 0], records: Vec::new() };
    let out = build_tables(1, &t);
    assert_eq!(out.len(), 4 + 10 + 12);
    // page table entry for page 1: big-endian 1 << 8
    assert_eq!(&out[0..4], &[0u8, 0, 1, 0][..]);
    // resident name table and empty entry table
    assert_eq!(&out[4..12], &b"\x05ELFLE\0\0"[..]);
    assert_eq!(&out[12..14], &[0u8, 0][..]);
    // three zero page offsets
    assert!(out[14..].iter().all(|&b| b == 0));
}

#[test]
fn minimal_image() {
    // one text page, no data, no fixup records
    let stub = vec![0xabu8; 0x233];
    let t = FixupTables { page_offsets: vec![0, 0, 0], records: Vec::new() };
    let text = vec![0x90u8; 0x40];
    let (img, dpo) = build_le_image(&stub, 1, 0, &t, &text, &Vec::new());
    assert_eq!(dpo, 0x174 + 4 + 10 + 12);
    assert_eq!(img.len() as u32, dpo + 0x1000);
    // memory page count
    assert_eq!(&img[0x94..0x98], &[1u8, 0, 0, 0][..]);
    // fixup section length: three offset entries, no records
    assert_eq!(&img[0xb0..0xb4], &[12u8, 0, 0, 0][..]);
    // data pages offset
    assert_eq!(&img[0x100..0x104], &dpo.to_le_bytes()[..]);
    // object table: page map indexes and entry counts
    assert_eq!(&img[0x150..0x154], &[1u8, 0, 0, 0][..]);
    assert_eq!(&img[0x154..0x158], &[1u8, 0, 0, 0][..]);
    assert_eq!(&img[0x168..0x16c], &[2u8, 0, 0, 0][..]);
    assert_eq!(&img[0x16c..0x170], &[0u8, 0, 0, 0][..]);
    // unpatched stub bytes survive; page data follows the tables
    assert_eq!(img[0x80], 0xab);
    assert_eq!(img[dpo as usize], 0x90);
    assert_eq!(img[dpo as usize + 0x40], 0);
}

#[test]
fn rewrite_shifts_and_retargets() {
    let mut text_start = section(b".text.start", SectionKind::Text, vec![0u8; 8], 0);
    text_start.relocs.push(reloc(2, Some(0)));
    let data = section(b".data", SectionKind::Data, vec![0u8; 8], 0);
    let ss = vec![text_start, data];
    let ys = vec![InputSymbol {
        name: b"var".to_vec(),
        kind: SymbolKind::Data,
        section: Some(1),
        address: 4,
        size: 0,
    }];
    let c = consolidate(&ss);
    let syms = build_symtab(&ss, &c.placements, &ys);
    let out = rewrite_relocations(&ss, &c.placements, &ys, &syms).unwrap();
    assert_eq!(out.len(), 1);
    assert_eq!(out[0].object, ObjectId::Text);
    assert_eq!(out[0].off, 2);
    assert_eq!(out[0].kind, RelocKind::Absolute);
    // resolved to the carried symbol, which follows the two section symbols
    assert_eq!(out[0].symbol, 2);
    assert_eq!(syms[2].value, 4);
}

#[test]
fn rewrite_falls_back_to_section_symbol() {
    let mut text_start = section(b".text.start", SectionKind::Text, vec![0u8; 8], 0);
    text_start.relocs.push(reloc(0, Some(0)));
    let data = section(b".data", SectionKind::Data, vec![0u8; 8], 0);
    let ss = vec![text_start, data];
    // a Label symbol is not carried over, so resolution falls back to the
    // symbol of the section that holds it
    let ys = vec![InputSymbol {
        name: b"local".to_vec(),
        kind: SymbolKind::Label,
        section: Some(1),
        address: 0,
        size: 0,
    }];
    let c = consolidate(&ss);
    let syms = build_symtab(&ss, &c.placements, &ys);
    let out = rewrite_relocations(&ss, &c.placements, &ys, &syms).unwrap();
    assert_eq!(out.len(), 1);
    assert_eq!(out[0].symbol, 1);
    assert_eq!(syms[1].name, b".data".to_vec());
}

#[test]
fn rewrite_rejects_non_symbol_targets() {
    let mut sec = section(b".text.start", SectionKind::Text, vec![0u8; 8], 0);
    sec.relocs.push(reloc(0, None));
    let ss = vec![sec];
    let c = consolidate(&ss);
    let syms = build_symtab(&ss, &c.placements, &Vec::new());
    let r = rewrite_relocations(&ss, &c.placements, &Vec::new(), &syms);
    assert_eq!(r.unwrap_err(), ConvertError::UnsupportedRelocationTarget);

    let mut sec2 = section(b".text.start", SectionKind::Text, vec![0u8; 8], 0);
    sec2.relocs.push(reloc(0, Some(9)));
    let ss2 = vec![sec2];
    let c2 = consolidate(&ss2);
    let syms2 = build_symtab(&ss2, &c2.placements, &Vec::new());
    let r2 = rewrite_relocations(&ss2, &c2.placements, &Vec::new(), &syms2);
    assert_eq!(r2.unwrap_err(), ConvertError::MissingSymbol);
}

#[test]
fn rewrite_skips_sectionless_symbol_targets() {
    let mut sec = section(b".text.start", SectionKind::Text, vec![0u8; 8], 0);
    sec.relocs.push(reloc(0, Some(0)));
    let ss = vec![sec];
    let ys = vec![InputSymbol {
        name: b"ext".to_vec(),
        kind: SymbolKind::Text,
        section: None,
        address: 0,
        size: 0,
    }];
    let c = consolidate(&ss);
    let syms = build_symtab(&ss, &c.placements, &ys);
    let out = rewrite_relocations(&ss, &c.placements, &ys, &syms).unwrap();
    assert_eq!(out.len(), 0);
}

#[test]
fn find_last_symbol_prefers_later_entries() {
    let mk = |v: u64| NewSymbol { name: b"dup".to_vec(), object: ObjectId::Text, value: v, size: 0 };
    let syms = vec![mk(1), mk(2)];
    assert_eq!(find_last_symbol(&syms, &b"dup".to_vec()), Some(1));
    assert_eq!(find_last_symbol(&syms, &b"missing".to_vec()), None);
}

use elfle::rewrite::fixup_inputs_for_object;
use elfle::types::NewReloc;

fn new_reloc(obj: ObjectId, off: u64, symbol: usize) -> NewReloc {
    NewReloc {
        object: obj,
        off,
        kind: RelocKind::Absolute,
        encoding: RelocEncoding::Generic,
        size: 32,
        has_implicit_addend: true,
        addend: 0,
        symbol,
    }
}

#[test]
fn fixup_inputs_resolve_targets_per_object() {
    let syms = vec![
        NewSymbol { name: b".text.start".to_vec(), object: ObjectId::Text, value: 0, size: 0 },
        NewSymbol { name: b"var".to_vec(), object: ObjectId::Data, value: 8, size: 0 },
    ];
    let nrs = vec![
        new_reloc(ObjectId::Text, 2, 1),
        new_reloc(ObjectId::Data, 4, 0),
    ];
    let text_f = fixup_inputs_for_object(&nrs, &syms, ObjectId::Text).unwrap();
    assert_eq!(text_f.len(), 1);
    assert_eq!(text_f[0].src_off, 2);
    assert_eq!(text_f[0].target_obj, ObjectId::Data);
    assert_eq!(text_f[0].target_addr, 8);
    let data_f = fixup_inputs_for_object(&nrs, &syms, ObjectId::Data).unwrap();
    assert_eq!(data_f.len(), 1);
    assert_eq!(data_f[0].src_off, 4);
    assert_eq!(data_f[0].target_obj, ObjectId::Text);
    assert_eq!(data_f[0].target_addr, 0);
}

#[test]
fn fixup_inputs_reject_bad_relocations() {
    let syms = vec![
        NewSymbol { name: b"s".to_vec(), object: ObjectId::Text, value: 0, size: 0 },
    ];
    // symbol index out of range
    let bad_sym = vec![new_reloc(ObjectId::Text, 0, 3)];
    assert_eq!(
        fixup_inputs_for_object(&bad_sym, &syms, ObjectId::Text).unwrap_err(),
        ConvertError::MissingSymbol
    );
    // source offset past the format's 32 bits
    let bad_off = vec![new_reloc(ObjectId::Text, 0x1_0000_0000, 0)];
    assert_eq!(
        fixup_inputs_for_object(&bad_off, &syms, ObjectId::Text).unwrap_err(),
        ConvertError::OutputTooLarge
    );
    // a bad relocation of the other object does not matter here
    assert_eq!(fixup_inputs_for_object(&bad_off, &syms, ObjectId::Data).unwrap().len(), 0);
}
