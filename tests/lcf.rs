use dsd::lcf::{
    write_keep_section_section, write_memory_section, write_module_section, write_objects, AutoloadMemory,
    DelinkFile, LcfError, OverlayObject,
};
use dsd::overlay_groups::{analyze, OverlayInfo};
use dsd::section::{Section, SectionKind, Sections};
use dsd::symbol::{AutoloadKind, ModuleKind};

fn section(name: &str, start: u32, end: u32, align: u32) -> Section {
    match Section::new(name.to_string(), SectionKind::Code, start, end, align) {
        Ok(s) => s,
        Err(_) => panic!("invalid section"),
    }
}

#[test]
fn keep_section_block() {
    let mut out = String::new();
    write_keep_section_section(&mut out);
    assert_eq!(out, "KEEP_SECTION {\n    .init,\n    .ctor\n}\n\n");
}

#[test]
fn overlay_groups_by_base_address() {
    let ovs = [
        OverlayInfo { id: 0, base_address: 0x0210_0000, code_size: 0x100 },
        OverlayInfo { id: 1, base_address: 0x020f_ff00, code_size: 0x100 },
        OverlayInfo { id: 2, base_address: 0x0210_0000, code_size: 0x80 },
        OverlayInfo { id: 3, base_address: 0x0210_0100, code_size: 0x80 },
        OverlayInfo { id: 4, base_address: 0x0220_0000, code_size: 0x80 },
    ];
    let groups = analyze(&ovs);
    assert_eq!(groups.len(), 4);
    assert_eq!(groups[0].overlays, vec![1]);
    assert!(groups[0].after.is_empty());
    assert_eq!(groups[1].overlays, vec![0, 2]);
    assert_eq!(groups[1].after, vec![1]);
    assert_eq!(groups[2].overlays, vec![3]);
    assert_eq!(groups[2].after, vec![0]);
    assert_eq!(groups[3].overlays, vec![4]);
    assert!(groups[3].after.is_empty());
    assert!(analyze(&[]).is_empty());
}

#[test]
fn memory_block() {
    let ovs = [
        OverlayInfo { id: 0, base_address: 0x0210_0000, code_size: 0x100 },
        OverlayInfo { id: 1, base_address: 0x0210_0000, code_size: 0x100 },
        OverlayInfo { id: 12, base_address: 0x0210_0100, code_size: 0x100 },
    ];
    let groups = analyze(&ovs);
    let autoloads = [
        AutoloadMemory { kind: AutoloadKind::Itcm, base_address: 0x0100_0000, object: "itcm.bin".to_string() },
        AutoloadMemory { kind: AutoloadKind::Dtcm, base_address: 0x027e_0000, object: "dtcm.bin".to_string() },
    ];
    let objects = [
        OverlayObject { id: 0, object: "ov000.bin".to_string() },
        OverlayObject { id: 1, object: "ov001.bin".to_string() },
        OverlayObject { id: 12, object: "ov012.bin".to_string() },
    ];
    let mut out = String::new();
    assert_eq!(write_memory_section(&mut out, 0x0200_0000, "arm9.bin", &autoloads, &groups, &objects), Ok(()));
    assert_eq!(
        out,
        "MEMORY {\n    ARM9 : ORIGIN = 0x2000000 > arm9.bin\n    ITCM : ORIGIN = 0x1000000 > itcm.bin\n    DTCM : ORIGIN = 0x27e0000 > dtcm.bin\n    OV000 : ORIGIN = AFTER(ARM9) > ov000.bin\n    OV001 : ORIGIN = AFTER(ARM9) > ov001.bin\n    OV012 : ORIGIN = AFTER(OV000,OV001) > ov012.bin\n}\n\n"
    );
}

#[test]
fn memory_block_errors() {
    let groups = analyze(&[OverlayInfo { id: 4, base_address: 0x0210_0000, code_size: 0x10 }]);
    let mut out = String::new();
    assert_eq!(write_memory_section(&mut out, 0x0200_0000, "arm9.bin", &[], &groups, &[]), Err(LcfError::MissingOverlay));
    let autoloads = [AutoloadMemory { kind: AutoloadKind::Unknown(3), base_address: 0, object: "x".to_string() }];
    let mut out = String::new();
    assert_eq!(
        write_memory_section(&mut out, 0x0200_0000, "arm9.bin", &autoloads, &[], &[]),
        Err(LcfError::UnknownAutoloadKind)
    );
}

#[test]
fn module_sections_block_and_objects() {
    let mut header = Sections::new();
    assert!(header.add(section(".data", 0x0200_1000, 0x0200_1100, 4)).is_ok());
    assert!(header.add(section(".text", 0x0200_0000, 0x0200_1000, 32)).is_ok());
    let mut main_sections = Sections::new();
    assert!(main_sections.add(section(".text", 0x0200_0000, 0x0200_0800, 32)).is_ok());
    assert!(main_sections.add(section(".data", 0x0200_1000, 0x0200_1040, 4)).is_ok());
    let mut other_sections = Sections::new();
    assert!(other_sections.add(section(".text", 0x0200_0800, 0x0200_1000, 32)).is_ok());
    let files = [
        DelinkFile { path: "src/main".to_string(), complete: true, sections: main_sections },
        DelinkFile { path: "lib/other".to_string(), complete: false, sections: other_sections },
    ];
    let order = header.sorted_by_address();
    let mut out = String::new();
    assert_eq!(write_module_section(&mut out, ModuleKind::Overlay(3), &order, &files), Ok(()));
    assert_eq!(
        out,
        "    .ov003 : {\n        . = ALIGN(32);\n        OV003_text_START = .;\n        main.o(.text)\n        other.o(.text)\n        OV003_text_END = .;\n        . = ALIGN(4);\n        OV003_data_START = .;\n        main.o(.data)\n        OV003_data_END = .;\n    } > OV003\n\n"
    );
    let mut objects = String::new();
    write_objects(&mut objects, &files, "build", "delinks");
    assert_eq!(objects, "build/src/main.o\ndelinks/lib/other.o\n");
    let mut out = String::new();
    assert_eq!(
        write_module_section(&mut out, ModuleKind::Autoload(AutoloadKind::Unknown(9)), &order, &files),
        Err(LcfError::UnknownAutoloadKind)
    );
    let mut out = String::new();
    assert_eq!(write_module_section(&mut out, ModuleKind::Arm9, &[], &[]), Ok(()));
    assert_eq!(out, "    .arm9 : {\n    } > ARM9\n\n");
}

#[test]
fn linker_script_is_repeatable() {
    let ovs = [
        OverlayInfo { id: 2, base_address: 0x0210_0000, code_size: 0x100 },
        OverlayInfo { id: 1, base_address: 0x0210_0000, code_size: 0x100 },
    ];
    let objects = [
        OverlayObject { id: 1, object: "ov001.bin".to_string() },
        OverlayObject { id: 2, object: "ov002.bin".to_string() },
    ];
    let mut first = String::new();
    let mut second = String::new();
    assert!(write_memory_section(&mut first, 0x0200_0000, "arm9.bin", &[], &analyze(&ovs), &objects).is_ok());
    assert!(write_memory_section(&mut second, 0x0200_0000, "arm9.bin", &[], &analyze(&ovs), &objects).is_ok());
    write_keep_section_section(&mut first);
    write_keep_section_section(&mut second);
    assert_eq!(first, second);
    assert!(first.contains("    OV002 : ORIGIN = AFTER(ARM9) > ov002.bin\n    OV001 : ORIGIN = AFTER(ARM9) > ov001.bin\n"));
}
