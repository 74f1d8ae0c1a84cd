use dsd::delinks::{file_stem_of, DelinksError, DelinksReader};
use dsd::section::{
    ParseContext, Section, SectionError, SectionInheritParseError, SectionKind, SectionKindError, SectionParseError,
    Sections, SectionsError,
};
use dsd::text::parse_u32;

fn ctx() -> ParseContext {
    ParseContext { file_path: "delinks.txt".to_string(), row: 3 }
}

fn section(name: &str, kind: SectionKind, start: u32, end: u32, align: u32) -> Section {
    match Section::new(name.to_string(), kind, start, end, align) {
        Ok(s) => s,
        Err(_) => panic!("invalid section"),
    }
}

#[test]
fn single_text_section() {
    let s = match Section::parse(".text kind:code start:0x02000000 end:0x02000010 align:0x4", &ctx()) {
        Ok(Some(s)) => s,
        _ => panic!("expected a section"),
    };
    assert_eq!(s.name(), ".text");
    assert!(s.kind() == SectionKind::Code);
    assert_eq!(s.size(), 16);
    let r = s.address_range();
    assert_eq!(r.start, 0x02000000);
    assert_eq!(r.end, 0x02000010);
    assert_eq!(s.alignment(), 4);
}

#[test]
fn parse_inherit_takes_header_attributes() {
    let mut header = Sections::new();
    let text = Section::parse(".text kind:code start:0x0 end:0x100 align:0x4", &ctx()).ok().unwrap().unwrap();
    assert!(header.add(text).is_ok());
    let s = match Section::parse_inherit(".text start:0x10 end:0x20", &ctx(), &header) {
        Ok(Some(s)) => s,
        _ => panic!("expected a section"),
    };
    assert_eq!(s.name(), ".text");
    assert!(s.kind() == SectionKind::Code);
    assert_eq!(s.alignment(), 4);
    assert_eq!(s.start_address(), 0x10);
    assert_eq!(s.end_address(), 0x20);
}

#[test]
fn alignment_must_be_power_of_two() {
    match Section::new("a".to_string(), SectionKind::Data, 0, 0x10, 3) {
        Err(SectionError::AlignmentPowerOfTwo { alignment, .. }) => assert_eq!(alignment, 3),
        _ => panic!("expected AlignmentPowerOfTwo"),
    }
}

#[test]
fn start_must_be_aligned() {
    match Section::new("a".to_string(), SectionKind::Data, 0x02, 0x10, 4) {
        Err(SectionError::MisalignedStart { start_address, alignment, .. }) => {
            assert_eq!(start_address, 2);
            assert_eq!(alignment, 4);
        }
        _ => panic!("expected MisalignedStart"),
    }
}

#[test]
fn end_before_start_fails() {
    match Section::new("a".to_string(), SectionKind::Bss, 0x20, 0x10, 4) {
        Err(SectionError::EndBeforeStart { name, .. }) => assert_eq!(name, "a"),
        _ => panic!("expected EndBeforeStart"),
    }
}

#[test]
fn overlapping_sections_fail() {
    let mut sections = Sections::new();
    assert!(sections.add(section("a", SectionKind::Code, 0x0, 0x100, 1)).is_ok());
    match sections.add(section("b", SectionKind::Data, 0xFF, 0x200, 1)) {
        Err(SectionsError::Overlapping { name, other_name }) => {
            assert_eq!(name, "b");
            assert_eq!(other_name, "a");
        }
        _ => panic!("expected Overlapping"),
    }
    assert_eq!(sections.len(), 1);
}

#[test]
fn duplicate_name_fails() {
    let mut sections = Sections::new();
    assert!(sections.add(section(".data", SectionKind::Data, 0x0, 0x10, 4)).is_ok());
    match sections.add(section(".data", SectionKind::Data, 0x20, 0x30, 4)) {
        Err(SectionsError::DuplicateName { name }) => assert_eq!(name, ".data"),
        _ => panic!("expected DuplicateName"),
    }
}

#[test]
fn by_name_and_containment() {
    let mut sections = Sections::new();
    assert_eq!(sections.add(section(".text", SectionKind::Code, 0x100, 0x200, 4)).ok().unwrap().0, 0);
    assert_eq!(sections.add(section(".data", SectionKind::Data, 0x0, 0x100, 4)).ok().unwrap().0, 1);
    assert_eq!(sections.add(section(".bss", SectionKind::Bss, 0x200, 0x240, 4)).ok().unwrap().0, 2);
    let (i, s) = sections.by_name(".data").unwrap();
    assert_eq!(i.0, 1);
    assert_eq!(s.start_address(), 0);
    assert!(sections.by_name(".rodata").is_none());
    for a in [0x100u32, 0x150, 0x1ff] {
        let (i, s) = sections.get_by_contained_address(a).unwrap();
        assert_eq!(i.0, 0);
        assert_eq!(s.name(), ".text");
    }
    assert!(sections.get_by_contained_address(0x240).is_none());
    let sorted: Vec<&str> = sections.sorted_by_address().iter().map(|s| s.name()).collect();
    assert_eq!(sorted, vec![".data", ".text", ".bss"]);
    assert_eq!(sections.base_address(), Some(0));
    assert_eq!(sections.end_address(), Some(0x240));
    assert_eq!(sections.bss_size(), 0x40);
    let r = sections.bss_range().unwrap();
    assert_eq!((r.start, r.end), (0x200, 0x240));
}

#[test]
fn empty_table_has_no_range() {
    let sections = Sections::new();
    assert_eq!(sections.base_address(), None);
    assert_eq!(sections.end_address(), None);
    assert_eq!(sections.bss_size(), 0);
    assert!(sections.bss_range().is_none());
}

#[test]
fn parse_errors() {
    match Section::parse(".text kind:code start:0x0 end:0x10", &ctx()) {
        Err(SectionParseError::MissingAttribute { attribute, context }) => {
            assert_eq!(attribute, "align");
            assert_eq!(context.row, 3);
        }
        _ => panic!("expected MissingAttribute"),
    }
    match Section::parse(".text kind:code start:0x0 end:0x10 align:4 size:3", &ctx()) {
        Err(SectionParseError::UnknownAttribute { key, .. }) => assert_eq!(key, "size"),
        _ => panic!("expected UnknownAttribute"),
    }
    match Section::parse(".text kind:text start:0x0 end:0x10 align:4", &ctx()) {
        Err(SectionParseError::SectionKind { source: SectionKindError::UnknownKind { value, .. } }) => {
            assert_eq!(value, "text")
        }
        _ => panic!("expected UnknownKind"),
    }
    match Section::parse(".text kind:code start:zz end:0x10 align:4", &ctx()) {
        Err(SectionParseError::ParseStartAddress { value, .. }) => assert_eq!(value, "zz"),
        _ => panic!("expected ParseStartAddress"),
    }
    match Section::parse(".text kind:code start:0 end:0x1g align:4", &ctx()) {
        Err(SectionParseError::ParseEndAddress { value, .. }) => assert_eq!(value, "0x1g"),
        _ => panic!("expected ParseEndAddress"),
    }
    match Section::parse(".text kind:code start:0 end:16 align:", &ctx()) {
        Err(SectionParseError::ParseAlignment { value, .. }) => assert_eq!(value, ""),
        _ => panic!("expected ParseAlignment"),
    }
    match Section::parse(".text kind:code start:0 end:16 align:3", &ctx()) {
        Err(SectionParseError::Section { error: SectionError::AlignmentPowerOfTwo { .. }, .. }) => {}
        _ => panic!("expected an invalid section"),
    }
    assert!(matches!(Section::parse("   ", &ctx()), Ok(None)));
    assert!(matches!(Section::parse("", &ctx()), Ok(None)));
}

#[test]
fn parse_inherit_errors() {
    let mut header = Sections::new();
    assert!(header.add(section(".text", SectionKind::Code, 0, 0x100, 4)).is_ok());
    match Section::parse_inherit(".data start:0 end:4", &ctx(), &header) {
        Err(SectionInheritParseError::NotInHeader { name, .. }) => assert_eq!(name, ".data"),
        _ => panic!("expected NotInHeader"),
    }
    match Section::parse_inherit(".text start:0 end:4 kind:code", &ctx(), &header) {
        Err(SectionInheritParseError::InheritedAttribute { attribute, .. }) => assert_eq!(attribute, "kind"),
        _ => panic!("expected InheritedAttribute"),
    }
    match Section::parse_inherit(".text align:4 start:0 end:4", &ctx(), &header) {
        Err(SectionInheritParseError::InheritedAttribute { attribute, .. }) => assert_eq!(attribute, "align"),
        _ => panic!("expected InheritedAttribute"),
    }
    match Section::parse_inherit(".text start:0x10", &ctx(), &header) {
        Err(SectionInheritParseError::SectionParse { source: SectionParseError::MissingAttribute { attribute, .. } }) => {
            assert_eq!(attribute, "end")
        }
        _ => panic!("expected MissingAttribute"),
    }
    match Section::parse_inherit(".text start:0x12 end:0x20", &ctx(), &header) {
        Err(SectionInheritParseError::SectionParse {
            source: SectionParseError::Section { error: SectionError::MisalignedStart { .. }, .. },
        }) => {}
        _ => panic!("expected MisalignedStart"),
    }
}

#[test]
fn integers_in_hex_and_decimal() {
    assert_eq!(parse_u32("0x10"), Some(16));
    assert_eq!(parse_u32("16"), Some(16));
    assert_eq!(parse_u32("0xFFFFFFFF"), Some(u32::MAX));
    assert_eq!(parse_u32("4294967295"), Some(u32::MAX));
    assert_eq!(parse_u32("4294967296"), None);
    assert_eq!(parse_u32("0x100000000"), None);
    assert_eq!(parse_u32("0x"), None);
    assert_eq!(parse_u32(""), None);
    assert_eq!(parse_u32("12a"), None);
}

#[test]
fn kinds_and_overlap() {
    assert!(SectionKind::Code.is_initialized());
    assert!(SectionKind::Data.is_initialized());
    assert!(!SectionKind::Bss.is_initialized());
    let a = section("a", SectionKind::Code, 0, 0x10, 1);
    let b = section("b", SectionKind::Code, 0x10, 0x20, 1);
    let c = section("c", SectionKind::Code, 0x8, 0x18, 1);
    assert!(!a.overlaps_with(&b));
    assert!(a.overlaps_with(&c));
    assert!(c.overlaps_with(&b));
    let d = match Section::inherit(&a, 0x40, 0x48) {
        Ok(d) => d,
        Err(_) => panic!("expected a section"),
    };
    assert_eq!(d.name(), "a");
    assert_eq!(d.size(), 8);
}

#[test]
fn delinks_lines() {
    let mut reader = DelinksReader::new();
    let lines = [
        ".text       kind:code start:0x02000000 end:0x02000100 align:32",
        ".data       kind:data start:0x02000100 end:0x02000140 align:4",
        "",
        "src/main.c complete",
        "    .text start:0x02000000 end:0x02000080",
        "    .data start:0x02000100 end:0x02000120",
        "",
        "lib/util.s",
        "    .text start:0x02000080 end:0x02000100",
    ];
    for (row, line) in lines.iter().enumerate() {
        let c = ParseContext { file_path: "delinks.txt".to_string(), row };
        assert!(reader.read_line(line, &c).is_ok(), "line {}", row);
    }
    assert!(!reader.in_header);
    assert_eq!(reader.sections.len(), 2);
    assert_eq!(reader.files.len(), 2);
    assert_eq!(reader.files[0].path, "src/main");
    assert!(reader.files[0].complete);
    assert_eq!(reader.files[0].sections.len(), 2);
    assert_eq!(reader.files[1].path, "lib/util");
    assert!(!reader.files[1].complete);
    assert_eq!(reader.files[1].sections.by_name(".text").unwrap().1.alignment(), 32);

    let c = ParseContext { file_path: "delinks.txt".to_string(), row: 9 };
    assert!(matches!(reader.read_line("    .bss start:0x0 end:0x4", &c), Err(DelinksError::Inherit { .. })));
    assert!(matches!(
        reader.read_line("    .text start:0x020000a0 end:0x020000c0", &c),
        Err(DelinksError::Sections { row: 9, .. })
    ));

    let mut fresh = DelinksReader::new();
    assert!(fresh.read_line("", &c).is_ok());
    assert!(matches!(fresh.read_line("    .text start:0 end:4", &c), Err(DelinksError::SectionBeforeFile { row: 9 })));
    let mut header = DelinksReader::new();
    assert!(matches!(header.read_line(".text kind:code", &c), Err(DelinksError::Section { .. })));

    assert_eq!(file_stem_of("dir.v2/file"), "dir.v2/file");
    assert_eq!(file_stem_of("a/b.c"), "a/b");
    assert_eq!(file_stem_of("x.tar.gz"), "x.tar");
}

#[test]
fn unicode_whitespace_separates_words() {
    assert!(matches!(Section::parse("\u{a0}\u{3000}", &ctx()), Ok(None)));
    match Section::parse(".text\u{a0}kind:code\u{2003}start:0x0 end:0x10\u{85}align:4", &ctx()) {
        Ok(Some(s)) => {
            assert_eq!(s.name(), ".text");
            assert_eq!(s.size(), 0x10);
        }
        _ => panic!("expected a section"),
    }
    match Section::parse("a\u{a0}foo:1", &ctx()) {
        Err(SectionParseError::UnknownAttribute { key, .. }) => assert_eq!(key, "foo"),
        _ => panic!("expected UnknownAttribute"),
    }
}
