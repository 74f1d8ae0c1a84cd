use dsd::relocation::RelocationModule;
use dsd::relocations_file::{parse_relocation_line, RelocationParseError};
use dsd::symbol::{AutoloadKind, ModuleKind};
use dsd::symbol::{InstructionMode, SymBss, SymData, SymFunction, SymJumpTable, SymbolKind};
use dsd::symbols_file::{parse_symbol_line, SymbolParseError};

#[test]
fn symbol_lines() {
    let f = parse_symbol_line("func_02000001 kind:function mode:thumb size:0x38 addr:0x02000001").unwrap().unwrap();
    assert_eq!(f.name, "func_02000001");
    assert_eq!(f.addr, 0x02000000);
    assert_eq!(f.kind, SymbolKind::Function(SymFunction { mode: InstructionMode::Thumb, size: 0x38, unknown: false }));
    assert!(!f.ambiguous);

    let d = parse_symbol_line("data_1 kind:data type:word count:4 addr:0x10 ambiguous").unwrap().unwrap();
    assert_eq!(d.kind, SymbolKind::Data(SymData::Word { count: Some(4) }));
    assert_eq!(d.addr, 0x10);
    assert!(d.ambiguous);

    let j = parse_symbol_line("jt kind:jump_table size:16 code addr:0x21").unwrap().unwrap();
    assert_eq!(j.kind, SymbolKind::JumpTable(SymJumpTable { size: 16, code: true }));
    assert_eq!(j.addr, 0x21);

    let b = parse_symbol_line("  b  kind:bss addr:0x30  ").unwrap().unwrap();
    assert_eq!(b.kind, SymbolKind::Bss(SymBss { size: None }));
    assert_eq!(parse_symbol_line("a kind:data addr:0").unwrap().unwrap().kind, SymbolKind::Data(SymData::Any));
    assert!(parse_symbol_line("   ").unwrap().is_none());
}

#[test]
fn symbol_line_errors() {
    assert_eq!(parse_symbol_line("x addr:0x10").err(), Some(SymbolParseError::MissingKind));
    assert_eq!(parse_symbol_line("x kind:label").err(), Some(SymbolParseError::MissingAddress));
    assert_eq!(parse_symbol_line("x kind:function addr:0").err(), Some(SymbolParseError::MissingSize));
    assert_eq!(parse_symbol_line("x kind:thing addr:0").err(), Some(SymbolParseError::UnknownKind));
    assert_eq!(parse_symbol_line("x kind:label mode:mips addr:0").err(), Some(SymbolParseError::UnknownMode));
    assert_eq!(parse_symbol_line("x kind:data type:long addr:0").err(), Some(SymbolParseError::UnknownDataType));
    assert_eq!(parse_symbol_line("x kind:data addr:0xzz").err(), Some(SymbolParseError::BadNumber));
    assert_eq!(parse_symbol_line("x kind:data addr:0 colour:red").err(), Some(SymbolParseError::UnknownAttribute));
}

#[test]
fn relocation_lines() {
    let r = parse_relocation_line("from:0x02000010 kind:load to:0x02004000 add:0 module:5").unwrap().unwrap();
    assert_eq!((r.from, r.to, r.addend), (0x02000010, 0x02004000, 0));
    assert!(matches!(r.module, RelocationModule::Module(ModuleKind::Overlay(5))));
    let r = parse_relocation_line("from:0x10 to:0x20 add:-0x4 module:5 module:7").unwrap().unwrap();
    assert_eq!(r.addend, -4);
    match r.module {
        RelocationModule::Candidates(v) => assert_eq!(v, vec![ModuleKind::Overlay(5), ModuleKind::Overlay(7)]),
        _ => panic!("expected candidates"),
    }
    let r = parse_relocation_line("from:0x10 to:0x20").unwrap().unwrap();
    assert!(matches!(r.module, RelocationModule::Local));
    let r = parse_relocation_line("from:0x10 to:0x20 module:itcm").unwrap().unwrap();
    assert!(matches!(r.module, RelocationModule::Module(ModuleKind::Autoload(AutoloadKind::Itcm))));
    assert!(parse_relocation_line("").unwrap().is_none());
    assert_eq!(parse_relocation_line("to:0x20").err(), Some(RelocationParseError::MissingFrom));
    assert_eq!(parse_relocation_line("from:0x20").err(), Some(RelocationParseError::MissingTo));
    assert_eq!(parse_relocation_line("from:0x20 to:1 module:ov").err(), Some(RelocationParseError::UnknownModule));
    assert_eq!(parse_relocation_line("from:0x20 to:1 module:70000").err(), Some(RelocationParseError::UnknownModule));
    assert_eq!(parse_relocation_line("from:x to:1").err(), Some(RelocationParseError::BadNumber));
    assert_eq!(parse_relocation_line("from:1 to:1 add:-").err(), Some(RelocationParseError::BadNumber));
    assert_eq!(parse_relocation_line("from:1 to:1 size:4").err(), Some(RelocationParseError::UnknownAttribute));
}
