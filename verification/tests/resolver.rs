use py_spy_core::binary_parser::BinaryInfo;
use py_spy_core::binary_parser::ElfImage;
use py_spy_core::binary_parser::ElfSectionRec;
use py_spy_core::binary_parser::ElfSegmentRec;
use py_spy_core::binary_parser::ElfSymbolRec;
use py_spy_core::binary_parser::FatArchRec;
use py_spy_core::binary_parser::MachImage;
use py_spy_core::binary_parser::MachSectionRec;
use py_spy_core::binary_parser::MachSymbolRec;
use py_spy_core::binary_parser::ParsedImage;
use py_spy_core::binary_parser::PeExportRec;
use py_spy_core::binary_parser::PeImage;
use py_spy_core::binary_parser::PeSectionRec;
use py_spy_core::binary_parser::ResolveError;
use py_spy_core::binary_parser::resolve_elf;
use py_spy_core::binary_parser::resolve_elf_with_page;
use py_spy_core::binary_parser::resolve_image_with_page;
use py_spy_core::binary_parser::resolve_mach;
use py_spy_core::binary_parser::resolve_pe;
use py_spy_core::binary_parser::select_fat_arch;
use py_spy_core::binary_parser::strip_llvm_suffix;
use py_spy_core::symbols::SymbolTable;

fn nobits_bss(addr: u64, size: u64) -> ElfSectionRec {
    ElfSectionRec { sh_type: 8, name: Some(String::from(".bss")), sh_addr: addr, sh_size: size }
}

fn exec_segment(vaddr: u64) -> ElfSegmentRec {
    ElfSegmentRec { p_type: 1, p_flags: 1, p_vaddr: vaddr }
}

fn sym(name: &str, value: u64) -> ElfSymbolRec {
    ElfSymbolRec { name: String::from(name), section_index: 3, value }
}

#[test]
fn elf_picks_largest_bss() {
    let img = ElfImage {
        sections: vec![
            nobits_bss(0x100, 16),
            ElfSectionRec {
                sh_type: 1,
                name: Some(String::from(".bss")),
                sh_addr: 0x900,
                sh_size: 4096,
            },
            nobits_bss(0x200, 512),
            nobits_bss(0x300, 64),
        ],
        segments: vec![exec_segment(0)],
        syms: vec![],
        dynsyms: vec![],
    };
    let info = resolve_elf_with_page(&img, 0, 4096).unwrap();
    assert_eq!(info.bss_addr, 0x200);
    assert_eq!(info.bss_size, 512);
}

#[test]
fn elf_unnamed_nobits_is_no_bss_candidate() {
    // A NOBITS section whose name the string table does not yield is not
    // the BSS region, and a large one never outranks the `.bss`-named ones.
    let img = ElfImage {
        sections: vec![ElfSectionRec { sh_type: 8, name: None, sh_addr: 0x40, sh_size: 8 }],
        segments: vec![exec_segment(0)],
        syms: vec![],
        dynsyms: vec![],
    };
    assert_eq!(resolve_elf_with_page(&img, 0, 4096).unwrap_err(), ResolveError::MissingBssSection);
    let img2 = ElfImage {
        sections: vec![
            ElfSectionRec { sh_type: 8, name: None, sh_addr: 0x40, sh_size: 9999 },
            nobits_bss(0x200, 12),
        ],
        segments: vec![exec_segment(0)],
        syms: vec![],
        dynsyms: vec![],
    };
    let info = resolve_elf_with_page(&img2, 0, 4096).unwrap();
    assert_eq!(info.bss_addr, 0x200);
    assert_eq!(info.bss_size, 12);
}

#[test]
fn elf_missing_bss_error() {
    let img = ElfImage {
        sections: vec![ElfSectionRec {
            sh_type: 1,
            name: Some(String::from(".text")),
            sh_addr: 0,
            sh_size: 10,
        }],
        segments: vec![exec_segment(0)],
        syms: vec![],
        dynsyms: vec![],
    };
    assert_eq!(resolve_elf_with_page(&img, 0, 4096).unwrap_err(), ResolveError::MissingBssSection);
}

#[test]
fn elf_missing_exec_segment_error() {
    let img = ElfImage {
        sections: vec![nobits_bss(0x100, 16)],
        segments: vec![ElfSegmentRec { p_type: 1, p_flags: 6, p_vaddr: 0 }],
        syms: vec![],
        dynsyms: vec![],
    };
    assert_eq!(
        resolve_elf_with_page(&img, 0, 4096).unwrap_err(),
        ResolveError::MissingExecutableSegment
    );
}

#[test]
fn elf_offset_arithmetic() {
    // Program header vaddr 0x1234 aligns down to 0x1000 with a 0x1000 page;
    // with load address 0x7f0000002000 every symbol shifts by their
    // difference.
    let img = ElfImage {
        sections: vec![nobits_bss(0x5000, 32)],
        segments: vec![
            ElfSegmentRec { p_type: 6, p_flags: 1, p_vaddr: 0 },
            ElfSegmentRec { p_type: 1, p_flags: 4, p_vaddr: 0x9000 },
            ElfSegmentRec { p_type: 1, p_flags: 5, p_vaddr: 0x1234 },
        ],
        syms: vec![sym("PyRuntime", 0x2000)],
        dynsyms: vec![],
    };
    let load: u64 = 0x7f0000002000;
    let info = resolve_elf_with_page(&img, load, 0x1000).unwrap();
    let offset = load - 0x1000;
    assert_eq!(info.symbols.get(&String::from("PyRuntime")), Some(0x2000 + offset));
    assert_eq!(info.bss_addr, 0x5000 + offset);
}

#[test]
fn elf_strips_llvm_suffix() {
    let img = ElfImage {
        sections: vec![nobits_bss(0, 1)],
        segments: vec![exec_segment(0)],
        syms: vec![
            sym("Py_GetVersion.version.llvm.1990823568301052423", 0x100),
            sym("plain", 0x200),
        ],
        dynsyms: vec![],
    };
    let info = resolve_elf_with_page(&img, 0, 4096).unwrap();
    assert_eq!(info.symbols.get(&String::from("Py_GetVersion.version")), Some(0x100));
    assert_eq!(
        info.symbols.get(&String::from("Py_GetVersion.version.llvm.1990823568301052423")),
        None
    );
    assert_eq!(info.symbols.get(&String::from("plain")), Some(0x200));
}

#[test]
fn elf_dynamic_symbols_keep_suffix_and_overwrite() {
    let img = ElfImage {
        sections: vec![nobits_bss(0, 1)],
        segments: vec![exec_segment(0)],
        syms: vec![sym("shared", 0x100)],
        dynsyms: vec![sym("shared", 0x300), sym("dyn.llvm.7", 0x400)],
    };
    let info = resolve_elf_with_page(&img, 0, 4096).unwrap();
    assert_eq!(info.symbols.get(&String::from("shared")), Some(0x300));
    assert_eq!(info.symbols.get(&String::from("dyn.llvm.7")), Some(0x400));
    assert_eq!(info.symbols.get(&String::from("dyn")), None);
}

#[test]
fn elf_skips_undefined_symbols() {
    let img = ElfImage {
        sections: vec![nobits_bss(0, 1)],
        segments: vec![exec_segment(0)],
        syms: vec![ElfSymbolRec { name: String::from("undef"), section_index: 0, value: 0x1 }],
        dynsyms: vec![],
    };
    let info = resolve_elf_with_page(&img, 0, 4096).unwrap();
    assert_eq!(info.symbols.get(&String::from("undef")), None);
}

#[test]
fn strip_suffix_shapes() {
    assert_eq!(strip_llvm_suffix("foo.llvm.123"), "foo");
    assert_eq!(strip_llvm_suffix("foo"), "foo");
    assert_eq!(strip_llvm_suffix("foo.llvm."), "foo.llvm.");
    assert_eq!(strip_llvm_suffix("foo.llvm.12x"), "foo.llvm.12x");
    assert_eq!(strip_llvm_suffix(".llvm.9"), "");
    assert_eq!(strip_llvm_suffix("a.llvm.12.llvm.34"), "a.llvm.12");
}

#[test]
fn mach_strips_one_underscore() {
    let img = MachImage {
        sections: vec![],
        symbols: vec![
            MachSymbolRec { name: String::from("_main"), value: 0x10 },
            MachSymbolRec { name: String::from("__double"), value: 0x20 },
            MachSymbolRec { name: String::from("noprefix"), value: 0x30 },
        ],
    };
    let info = resolve_mach(&img, 0x1000);
    assert_eq!(info.symbols.get(&String::from("main")), Some(0x1010));
    assert_eq!(info.symbols.get(&String::from("_double")), Some(0x1020));
    assert_eq!(info.symbols.get(&String::from("noprefix")), None);
    assert_eq!(info.symbols.get(&String::from("_main")), None);
}

#[test]
fn mach_last_bss_wins() {
    let img = MachImage {
        sections: vec![
            MachSectionRec { name: String::from("__bss"), addr: 0x100, size: 8 },
            MachSectionRec { name: String::from("__text"), addr: 0x200, size: 16 },
            MachSectionRec { name: String::from("__bss"), addr: 0x300, size: 4 },
        ],
        symbols: vec![],
    };
    let info = resolve_mach(&img, 0x1000);
    assert_eq!(info.bss_addr, 0x1300);
    assert_eq!(info.bss_size, 4);
}

#[test]
fn mach_without_bss_leaves_zeroes() {
    let img = MachImage { sections: vec![], symbols: vec![] };
    let info = resolve_mach(&img, 0x1000);
    assert_eq!(info.bss_addr, 0);
    assert_eq!(info.bss_size, 0);
}

#[test]
fn fat_archive_takes_first_64_bit_slice() {
    let arches = vec![
        FatArchRec { is_64: false, offset: 0x100, size: 0x10 },
        FatArchRec { is_64: true, offset: 0x200, size: 0x20 },
        FatArchRec { is_64: true, offset: 0x300, size: 0x30 },
    ];
    assert_eq!(select_fat_arch(&arches), Ok(1));
}

#[test]
fn fat_archive_without_64_bit_slice_errors() {
    let arches = vec![FatArchRec { is_64: false, offset: 0x100, size: 0x10 }];
    assert_eq!(select_fat_arch(&arches), Err(ResolveError::NoFatArch64));
}

#[test]
fn pe_exports_and_data_section() {
    let img = PeImage {
        exports: vec![
            PeExportRec { name: Some(String::from("PyRuntime")), offset: Some(0x40) },
            PeExportRec { name: None, offset: Some(0x50) },
            PeExportRec { name: Some(String::from("NoOffset")), offset: None },
        ],
        sections: vec![
            PeSectionRec { name: b".text\0\0\0".to_vec(), virtual_address: 0x100, virtual_size: 1 },
            PeSectionRec { name: b".data\0\0\0".to_vec(), virtual_address: 0x900, virtual_size: 0x77 },
            PeSectionRec { name: b".datax\0\0".to_vec(), virtual_address: 0xa00, virtual_size: 2 },
        ],
    };
    let info = resolve_pe(&img, 0x10000).unwrap();
    assert_eq!(info.symbols.get(&String::from("PyRuntime")), Some(0x10040));
    assert_eq!(info.symbols.get(&String::from("NoOffset")), None);
    assert_eq!(info.bss_addr, 0x10900);
    assert_eq!(info.bss_size, 0x77);
}

#[test]
fn pe_without_data_section_errors() {
    let img = PeImage {
        exports: vec![],
        sections: vec![PeSectionRec {
            name: b".text\0\0\0".to_vec(),
            virtual_address: 0x100,
            virtual_size: 1,
        }],
    };
    assert_eq!(resolve_pe(&img, 0).unwrap_err(), ResolveError::MissingDataSection);
}

#[test]
fn unknown_format_errors() {
    let r = resolve_image_with_page(&ParsedImage::Unknown, 0, 4096);
    assert_eq!(r.unwrap_err(), ResolveError::UnsupportedBinaryType);
}

#[test]
fn dispatch_by_format() {
    let mach = ParsedImage::Mach(MachImage { sections: vec![], symbols: vec![] });
    assert!(resolve_image_with_page(&mach, 0, 4096).is_ok());
}

#[test]
fn symbol_table_overwrites_on_same_name() {
    let mut t = SymbolTable::new();
    t.insert(String::from("a"), 1);
    t.insert(String::from("b"), 2);
    t.insert(String::from("a"), 3);
    assert_eq!(t.len(), 2);
    assert_eq!(t.get(&String::from("a")), Some(3));
    assert_eq!(t.get(&String::from("b")), Some(2));
    assert_eq!(t.get(&String::from("c")), None);
}

#[test]
fn contains_checks_mapped_range() {
    let info = BinaryInfo {
        symbols: SymbolTable::new(),
        bss_addr: 0,
        bss_size: 0,
        addr: 0x1000,
        size: 0x100,
    };
    assert!(info.contains(0x1000));
    assert!(info.contains(0x10ff));
    assert!(!info.contains(0x1100));
    assert!(!info.contains(0xfff));
}

#[test]
fn resolve_with_system_page_size() {
    // A zero segment address aligns down to zero for every page size, so
    // the offset equals the load address whatever this machine's page is.
    let img = ElfImage {
        sections: vec![nobits_bss(0x80, 16)],
        segments: vec![exec_segment(0)],
        syms: vec![sym("PyRuntime", 0x10)],
        dynsyms: vec![],
    };
    let info = resolve_elf(&img, 0x1000).unwrap();
    assert_eq!(info.symbols.get(&String::from("PyRuntime")), Some(0x1010));
    assert_eq!(info.bss_addr, 0x1080);
}
