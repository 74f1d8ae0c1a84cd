use dsd::data::{write_assembly, DataError};
use dsd::dis::{disassemble, dump_bytes, size_to_next_symbol, write_section, DisError};
use dsd::section::Sections;
use dsd::lookup::{LookupError, SymbolLookup};
use dsd::relocation::{Relocation, RelocationModule, Relocations};
use dsd::section::{Section, SectionKind};
use dsd::symbol::{
    InstructionMode, ModuleKind, SymBss, SymData, SymFunction, Symbol, SymbolKind, SymbolMap, SymbolMaps,
};

fn sym(name: &str, addr: u32, kind: SymbolKind) -> Symbol {
    Symbol { name: name.to_string(), kind, addr, ambiguous: false }
}

fn section(name: &str, kind: SectionKind, start: u32, end: u32) -> Section {
    match Section::new(name.to_string(), kind, start, end, 4) {
        Ok(s) => s,
        Err(_) => panic!("invalid section"),
    }
}

fn lookup<'a>(local: &'a SymbolMap, maps: &'a SymbolMaps, relocations: &'a Relocations) -> SymbolLookup<'a> {
    SymbolLookup { module_kind: ModuleKind::Arm9, symbol_map: local, symbol_maps: maps, relocations }
}

fn peers() -> SymbolMaps {
    let mut ov5 = SymbolMap::new();
    ov5.add(sym("foo", 0x02004000, SymbolKind::Data(SymData::Word { count: Some(1) })));
    let mut ov7 = SymbolMap::new();
    ov7.add(sym("bar", 0x02004000, SymbolKind::Data(SymData::Any)));
    let mut maps = SymbolMaps::new();
    maps.insert(ModuleKind::Overlay(5), ov5);
    maps.insert(ModuleKind::Overlay(7), ov7);
    maps
}

#[test]
fn single_function_section() {
    let text = section(".text", SectionKind::Code, 0x02000000, 0x02000008);
    let mut local = SymbolMap::new();
    local.add(sym(
        "func_02000000",
        0x02000000,
        SymbolKind::Function(SymFunction { mode: InstructionMode::Arm, size: 8, unknown: false }),
    ));
    let maps = SymbolMaps::new();
    let relocations = Relocations::new();
    let code = [0x00u8, 0x00, 0xa0, 0xe3, 0x1e, 0xff, 0x2f, 0xe1];
    let mut out = String::new();
    let r = write_section(&mut out, &text, Some(&code), local.iter_by_address(), &lookup(&local, &maps, &relocations));
    assert!(r.is_ok());
    let lines: Vec<&str> = out.lines().collect();
    assert_eq!(lines[0], "    .text");
    assert_eq!(lines[1], "func_02000000:");
    assert!(lines[2].trim_start().starts_with("mov r0"));
    assert_eq!(lines[3].trim(), "bx lr");
    assert_eq!(lines.len(), 5);
    assert_eq!(lines[4], "");
}

#[test]
fn relocated_pool_word() {
    let local = SymbolMap::new();
    let maps = peers();
    let mut relocations = Relocations::new();
    relocations.add(Relocation {
        from: 0x02000010,
        to: 0x02004000,
        addend: 0,
        module: RelocationModule::Module(ModuleKind::Overlay(5)),
    });
    let l = lookup(&local, &maps, &relocations);
    let mut out = String::new();
    let mut pending = false;
    assert_eq!(l.write_symbol(&mut out, 0x02000010, 0x02004000, &mut pending, "    "), Ok(true));
    assert_eq!(out, "    .word foo\n");
}

#[test]
fn ambiguous_pool_word_lists_peers() {
    let local = SymbolMap::new();
    let maps = peers();
    let mut relocations = Relocations::new();
    relocations.add(Relocation {
        from: 0x02000010,
        to: 0x02004000,
        addend: 0,
        module: RelocationModule::Candidates(vec![ModuleKind::Overlay(5), ModuleKind::Overlay(7)]),
    });
    let l = lookup(&local, &maps, &relocations);
    let mut out = String::new();
    let mut pending = true;
    assert_eq!(l.write_symbol(&mut out, 0x02000010, 0x02004000, &mut pending, "    "), Ok(true));
    assert_eq!(out, "\n    .word foo ; bar\n");
    assert!(!pending);
}

#[test]
fn addends_and_lookup_errors() {
    let local = SymbolMap::new();
    let maps = peers();
    let mut relocations = Relocations::new();
    relocations.add(Relocation { from: 0x10, to: 0x02004000, addend: 0x20, module: RelocationModule::Module(ModuleKind::Overlay(5)) });
    relocations.add(Relocation { from: 0x14, to: 0x02004000, addend: -4, module: RelocationModule::Module(ModuleKind::Overlay(5)) });
    relocations.add(Relocation { from: 0x18, to: 0x02004000, addend: 0, module: RelocationModule::Module(ModuleKind::Overlay(9)) });
    relocations.add(Relocation { from: 0x1c, to: 0x02005000, addend: 0, module: RelocationModule::Module(ModuleKind::Overlay(5)) });
    relocations.add(Relocation { from: 0x20, to: 0x02004000, addend: 0, module: RelocationModule::Local });
    let mut local = local;
    local.add(sym("near", 0x30, SymbolKind::PoolConstant));
    let l = lookup(&local, &maps, &relocations);
    let mut out = String::new();
    let mut pending = false;
    assert_eq!(l.write_symbol(&mut out, 0x10, 0x02004020, &mut pending, ""), Ok(true));
    assert_eq!(l.write_symbol(&mut out, 0x14, 0x02003ffc, &mut pending, ""), Ok(true));
    assert_eq!(out, ".word foo+0x20\n.word foo-0x4\n");
    assert_eq!(l.write_symbol(&mut out, 0x10, 0x02004000, &mut pending, ""), Err(LookupError::AddressMismatch));
    assert_eq!(l.write_symbol(&mut out, 0x18, 0x02004000, &mut pending, ""), Err(LookupError::NoSymbolMap));
    assert_eq!(l.write_symbol(&mut out, 0x1c, 0x02005000, &mut pending, ""), Err(LookupError::SymbolNotFound));
    assert_eq!(l.write_symbol(&mut out, 0x20, 0x02004000, &mut pending, ""), Ok(false));
    assert_eq!(out, ".word foo+0x20\n.word foo-0x4\n");
    assert_eq!(l.write_symbol(&mut out, 0x20, 0x30, &mut pending, ""), Ok(true));
    assert_eq!(out, ".word foo+0x20\n.word foo-0x4\n.word near\n");
}

#[test]
fn local_symbol_and_missing_peer() {
    let mut local = SymbolMap::new();
    local.add(sym("here", 0x100, SymbolKind::PoolConstant));
    let maps = peers();
    let mut relocations = Relocations::new();
    relocations.add(Relocation {
        from: 0x40,
        to: 0x02004000,
        addend: 0,
        module: RelocationModule::Candidates(vec![ModuleKind::Overlay(5), ModuleKind::Overlay(6), ModuleKind::Overlay(7)]),
    });
    let l = lookup(&local, &maps, &relocations);
    let mut out = String::new();
    let mut pending = false;
    assert_eq!(l.write_symbol(&mut out, 0x44, 0x100, &mut pending, "  "), Ok(true));
    assert_eq!(l.write_symbol(&mut out, 0x44, 0x104, &mut pending, "  "), Ok(false));
    assert_eq!(l.write_symbol(&mut out, 0x40, 0x02004000, &mut pending, "  "), Ok(true));
    assert_eq!(out, "  .word here\n  .word foo ; bar\n");
}

#[test]
fn data_rows_and_literals() {
    let local = SymbolMap::new();
    let maps = SymbolMaps::new();
    let relocations = Relocations::new();
    let l = lookup(&local, &maps, &relocations);
    let symbol = sym("table", 0x1000, SymbolKind::Data(SymData::Short { count: Some(3) }));
    let bytes = [0x34u8, 0x12, 0x00, 0x00, 0xff, 0xff];
    let mut out = String::new();
    assert_eq!(write_assembly(&SymData::Short { count: Some(3) }, &mut out, &symbol, &bytes, &l), Ok(()));
    assert_eq!(out, "    .short 0x1234, 0x0, 0xffff\n");

    let mut out = String::new();
    let data: Vec<u8> = (0u8..18).collect();
    assert_eq!(write_assembly(&SymData::Byte { count: None }, &mut out, &symbol, &data, &l), Ok(()));
    assert_eq!(
        out,
        "    .byte 0x00, 0x01, 0x02, 0x03, 0x04, 0x05, 0x06, 0x07, 0x08, 0x09, 0x0a, 0x0b, 0x0c, 0x0d, 0x0e, 0x0f\n    .byte 0x10, 0x11\n"
    );

    let mut out = String::new();
    assert_eq!(
        write_assembly(&SymData::Word { count: Some(2) }, &mut out, &symbol, &bytes, &l),
        Err(DataError::NotEnoughBytes)
    );
    assert_eq!(out, "");
}

#[test]
fn data_word_naming_a_symbol() {
    let mut local = SymbolMap::new();
    local.add(sym("target", 0x02001234, SymbolKind::Data(SymData::Any)));
    let maps = SymbolMaps::new();
    let relocations = Relocations::new();
    let l = lookup(&local, &maps, &relocations);
    let symbol = sym("ptrs", 0x1000, SymbolKind::Data(SymData::Word { count: Some(2) }));
    let bytes = [0x01u8, 0x00, 0x00, 0x00, 0x34, 0x12, 0x00, 0x02];
    let mut out = String::new();
    assert_eq!(write_assembly(&SymData::Word { count: Some(2) }, &mut out, &symbol, &bytes, &l), Ok(()));
    assert_eq!(out, "    .word 0x1\n    .word target\n");
}

#[test]
fn gap_bytes_are_dumped_sixteen_per_line() {
    let code: Vec<u8> = (0u8..20).collect();
    let mut out = String::new();
    dump_bytes(&code, 2, 20, &mut out);
    assert_eq!(
        out,
        "    .byte 0x02, 0x03, 0x04, 0x05, 0x06, 0x07, 0x08, 0x09, 0x0a, 0x0b, 0x0c, 0x0d, 0x0e, 0x0f, 0x10, 0x11\n    .byte 0x12, 0x13\n"
    );
    let mut empty = String::new();
    dump_bytes(&code, 5, 5, &mut empty);
    assert_eq!(empty, "");
}

#[test]
fn size_to_next_symbol_is_clamped() {
    let s = section(".data", SectionKind::Data, 0x100, 0x200);
    let a = sym("a", 0x180, SymbolKind::Data(SymData::Any));
    let b = sym("b", 0x190, SymbolKind::Data(SymData::Any));
    let c = sym("c", 0x300, SymbolKind::Data(SymData::Any));
    assert_eq!(size_to_next_symbol(&s, &a, Some(&b)), 0x10);
    assert_eq!(size_to_next_symbol(&s, &a, Some(&c)), 0x80);
    assert_eq!(size_to_next_symbol(&s, &a, None), 0x80);
}

#[test]
fn data_section_with_gaps_and_label() {
    let s = section(".data", SectionKind::Data, 0x100, 0x108);
    let mut local = SymbolMap::new();
    let mut d = sym("value", 0x104, SymbolKind::Data(SymData::Any));
    d.ambiguous = true;
    local.add(d);
    let maps = SymbolMaps::new();
    let relocations = Relocations::new();
    let code = [1u8, 2, 3, 4, 5, 6, 7, 8];
    let mut out = String::new();
    let r = write_section(&mut out, &s, Some(&code), local.iter_by_address(), &lookup(&local, &maps, &relocations));
    assert_eq!(r, Ok(()));
    assert_eq!(out, "    .section .data, 4, 1, 4\nvalue: ; ambiguous\n    .byte 0x05, 0x06, 0x07, 0x08\n\n");
}

#[test]
fn bss_section_uses_space() {
    let s = section(".bss", SectionKind::Bss, 0x200, 0x240);
    let mut local = SymbolMap::new();
    local.add(sym("buf", 0x200, SymbolKind::Bss(SymBss { size: Some(0x10) })));
    local.add(sym("tail", 0x220, SymbolKind::Bss(SymBss { size: None })));
    let maps = SymbolMaps::new();
    let relocations = Relocations::new();
    let mut out = String::new();
    let r = write_section(&mut out, &s, None, local.iter_by_address(), &lookup(&local, &maps, &relocations));
    assert_eq!(r, Ok(()));
    assert_eq!(out, "    .section .bss, 4, 1, 4\nbuf:\n    .space 0x10\ntail:\n    .space 0x20\n    .space 0x10\n");
}

#[test]
fn section_errors() {
    let s = section(".text", SectionKind::Code, 0x0, 0x8);
    let mut local = SymbolMap::new();
    local.add(sym("f", 0x4, SymbolKind::Function(SymFunction { mode: InstructionMode::Thumb, size: 8, unknown: false })));
    let maps = SymbolMaps::new();
    let relocations = Relocations::new();
    let code = [0u8; 8];
    let mut out = String::new();
    let l = lookup(&local, &maps, &relocations);
    assert_eq!(write_section(&mut out, &s, Some(&code), local.iter_by_address(), &l), Err(DisError::OutOfRange));
    assert_eq!(write_section(&mut out, &s, None, local.iter_by_address(), &l), Err(DisError::MissingCode));
}

#[test]
fn symbol_map_order_and_lookups() {
    let mut m = SymbolMap::new();
    m.add(sym("b", 0x20, SymbolKind::PoolConstant));
    m.add(sym("f", 0x10, SymbolKind::Function(SymFunction { mode: InstructionMode::Arm, size: 0x20, unknown: false })));
    m.add(sym("b2", 0x20, SymbolKind::PoolConstant));
    let names: Vec<&str> = m.iter_by_address().iter().map(|s| s.name.as_str()).collect();
    assert_eq!(names, vec!["f", "b", "b2"]);
    assert_eq!(m.by_address(0x20).unwrap().1.name, "b");
    assert_eq!(m.get_function(0x2c).unwrap().1.name, "f");
    assert!(m.get_function(0x30).is_none());
    let i = m.add_if_new_address(sym("again", 0x20, SymbolKind::PoolConstant));
    assert_eq!(i.0, 1);
    assert_eq!(m.len(), 3);
    assert_eq!(Symbol::new_function("g".to_string(), 0x0200_0001, true, 4).addr, 0x0200_0000);
    assert_eq!(sym("d", 0, SymbolKind::Data(SymData::Any)).mapping_symbol_name(), Some("$d"));
    assert_eq!(sym("t", 0, SymbolKind::Function(SymFunction { mode: InstructionMode::Thumb, size: 2, unknown: false })).mapping_symbol_name(), Some("$t"));
    assert_eq!(sym("z", 0, SymbolKind::Bss(SymBss { size: None })).mapping_symbol_name(), None);
}

#[test]
fn module_with_code_and_bss() {
    let mut sections = Sections::new();
    assert!(sections.add(section(".bss", SectionKind::Bss, 0x02000010, 0x02000020)).is_ok());
    assert!(sections.add(section(".text", SectionKind::Code, 0x02000000, 0x02000008)).is_ok());
    let local = SymbolMap::new();
    let maps = SymbolMaps::new();
    let relocations = Relocations::new();
    let code = [1u8, 2, 3, 4, 5, 6, 7, 8];
    let order = sections.sorted_by_address();
    let mut out = String::new();
    let r = disassemble(&mut out, &order, &code, 0x02000000, local.iter_by_address(), &lookup(&local, &maps, &relocations));
    assert_eq!(r, Ok(()));
    assert_eq!(
        out,
        "    .include \"macros/function.inc\"\n\n    .text\n    .byte 0x01, 0x02, 0x03, 0x04, 0x05, 0x06, 0x07, 0x08\n\n    .section .bss, 4, 1, 4\n    .space 0x10\n"
    );
    let mut out = String::new();
    let short = [1u8, 2, 3];
    let r = disassemble(&mut out, &order, &short, 0x02000000, local.iter_by_address(), &lookup(&local, &maps, &relocations));
    assert_eq!(r, Err(DisError::MissingCode));
}

#[test]
fn thumb_function_and_leading_gap() {
    let text = section(".text", SectionKind::Code, 0x02000000, 0x02000008);
    let mut local = SymbolMap::new();
    local.add(sym(
        "thumb_func",
        0x02000004,
        SymbolKind::Function(SymFunction { mode: InstructionMode::Thumb, size: 2, unknown: false }),
    ));
    let maps = SymbolMaps::new();
    let relocations = Relocations::new();
    let code = [0xaau8, 0xbb, 0xcc, 0xdd, 0x70, 0x47, 0x00, 0x00];
    let mut out = String::new();
    let r = write_section(&mut out, &text, Some(&code), local.iter_by_address(), &lookup(&local, &maps, &relocations));
    assert_eq!(r, Ok(()));
    let lines: Vec<&str> = out.lines().collect();
    assert_eq!(lines[1], "    .byte 0xaa, 0xbb, 0xcc, 0xdd");
    assert_eq!(lines[2], "");
    assert_eq!(lines[3], "thumb_func:");
    assert_eq!(lines[4].trim(), "bx lr");
    assert_eq!(lines[5], "");
    assert_eq!(lines[6], "    .byte 0x00, 0x00");
}

#[test]
fn resolution_is_repeatable() {
    let local = SymbolMap::new();
    let mut relocations = Relocations::new();
    relocations.add(Relocation {
        from: 0x02000010,
        to: 0x02004000,
        addend: 0,
        module: RelocationModule::Candidates(vec![ModuleKind::Overlay(5), ModuleKind::Overlay(7)]),
    });
    let maps_a = peers();
    let maps_b = peers();
    let mut a = String::new();
    let mut b = String::new();
    let mut pa = false;
    let mut pb = false;
    let ra = lookup(&local, &maps_a, &relocations).write_symbol(&mut a, 0x02000010, 0x02004000, &mut pa, "    ");
    let rb = lookup(&local, &maps_b, &relocations).write_symbol(&mut b, 0x02000010, 0x02004000, &mut pb, "    ");
    assert_eq!(ra, rb);
    assert_eq!(a, b);
}

fn function(name: &str, addr: u32, mode: InstructionMode, size: u32) -> Symbol {
    sym(name, addr, SymbolKind::Function(SymFunction { mode, size, unknown: false }))
}

#[test]
fn branch_targets_and_pool_words_by_name() {
    let text = section(".text", SectionKind::Code, 0x02000000, 0x02000014);
    let mut local = SymbolMap::new();
    local.add(function("caller", 0x02000000, InstructionMode::Arm, 0x10));
    local.add(sym("pool", 0x02000008, SymbolKind::PoolConstant));
    local.add(sym("raw", 0x0200000c, SymbolKind::PoolConstant));
    local.add(function("callee", 0x02000010, InstructionMode::Arm, 4));
    let maps = SymbolMaps::new();
    let relocations = Relocations::new();
    let code = [
        0x02u8, 0x00, 0x00, 0xeb, // bl callee
        0x1e, 0xff, 0x2f, 0xe1, // bx lr
        0x10, 0x00, 0x00, 0x02, // pool word pointing at callee
        0x78, 0x56, 0x34, 0x12, // pool word with no symbol
        0x1e, 0xff, 0x2f, 0xe1, // bx lr
    ];
    let mut out = String::new();
    let r = write_section(&mut out, &text, Some(&code), local.iter_by_address(), &lookup(&local, &maps, &relocations));
    assert_eq!(r, Ok(()));
    let lines: Vec<&str> = out.lines().collect();
    assert_eq!(lines[1], "caller:");
    assert_eq!(lines[2], "    bl callee");
    assert_eq!(lines[3].trim(), "bx lr");
    assert_eq!(lines[4], "    .word callee");
    assert_eq!(lines[5], "    .word 0x12345678");
    assert_eq!(lines[7], "callee:");
}

#[test]
fn thumb_call_is_one_instruction_and_tail_is_dumped() {
    let text = section(".text", SectionKind::Code, 0x02000000, 0x02000014);
    let mut local = SymbolMap::new();
    local.add(function("thumb_caller", 0x02000000, InstructionMode::Thumb, 6));
    local.add(function("target", 0x02000010, InstructionMode::Arm, 4));
    let maps = SymbolMaps::new();
    let relocations = Relocations::new();
    let code = [
        0x00u8, 0xf0, 0x06, 0xf8, // bl target
        0x70, 0x47, // bx lr
        0, 0, 0, 0, 0, 0, 0, 0, 0, 0,
        0x1e, 0xff, 0x2f, 0xe1,
    ];
    let mut out = String::new();
    let r = write_section(&mut out, &text, Some(&code), local.iter_by_address(), &lookup(&local, &maps, &relocations));
    assert_eq!(r, Ok(()));
    let lines: Vec<&str> = out.lines().collect();
    assert_eq!(lines[1], "thumb_caller:");
    assert_eq!(lines[2], "    bl target");
    assert_eq!(lines[3].trim(), "bx lr");
    assert_eq!(lines[4], "");

    let short = section(".text", SectionKind::Code, 0x02000000, 0x02000008);
    let mut local = SymbolMap::new();
    local.add(function("f", 0x02000000, InstructionMode::Arm, 6));
    let code = [0x1eu8, 0xff, 0x2f, 0xe1, 0xaa, 0xbb, 0xcc, 0xdd];
    let mut out = String::new();
    let r = write_section(&mut out, &short, Some(&code), local.iter_by_address(), &lookup(&local, &maps, &relocations));
    assert_eq!(r, Ok(()));
    let lines: Vec<&str> = out.lines().collect();
    assert_eq!(lines[2].trim(), "bx lr");
    assert_eq!(lines[3], "    .byte 0xaa, 0xbb");
    assert_eq!(lines[5], "    .byte 0xcc, 0xdd");
}

#[test]
fn decoder_names_come_from_local_then_relocated_module() {
    let mut local = SymbolMap::new();
    local.add(sym("here", 0x100, SymbolKind::PoolConstant));
    let maps = peers();
    let mut relocations = Relocations::new();
    relocations.add(Relocation { from: 0x40, to: 0x02004000, addend: 0, module: RelocationModule::Module(ModuleKind::Overlay(7)) });
    let l = lookup(&local, &maps, &relocations);
    assert_eq!(l.lookup_symbol_name(0x0, 0x100), Some("here"));
    assert_eq!(l.lookup_symbol_name(0x40, 0x02004000), Some("bar"));
    assert_eq!(l.lookup_symbol_name(0x44, 0x02004000), None);
    assert_eq!(l.lookup_symbol_name(0x40, 0x02004004), None);
}

#[test]
fn relocation_address_wraps() {
    let local = SymbolMap::new();
    let mut top = SymbolMap::new();
    top.add(sym("top", 0xFFFF_FFFC, SymbolKind::Data(SymData::Any)));
    let mut maps = SymbolMaps::new();
    maps.insert(ModuleKind::Arm9, top);
    let mut relocations = Relocations::new();
    relocations.add(Relocation { from: 0x10, to: 0xFFFF_FFFC, addend: 4, module: RelocationModule::Module(ModuleKind::Arm9) });
    let l = lookup(&local, &maps, &relocations);
    let mut out = String::new();
    let mut pending = false;
    assert_eq!(l.write_symbol(&mut out, 0x10, 0, &mut pending, ""), Ok(true));
    assert_eq!(out, ".word top+0x4\n");
}
