use mcu_debug_helper::demangle::{choose_name, demangle};
use mcu_debug_helper::elf_items::{sort_by_name, AddrtoLineInfo, LineInfoEntry, ObjectInfo, StaticFileMapping};
use mcu_debug_helper::helper_requests::HelperEvent;
use mcu_debug_helper::instr::Instruction;
use mcu_debug_helper::instrdb::InstructionDb;
use mcu_debug_helper::loader::{
    ingest, join_file_path, load_elf_info, unit_source_path, CompilationUnit, DebugEntry, DieTag,
    HighPc, LineRow, ObjSection, ObjSymbol, ObjSymbolKind, ObjectFile, UnitFile,
};
use mcu_debug_helper::service::{find_symbol_by_name, get_statics_for_file};
use mcu_debug_helper::symbols::{Symbol, SymbolScope, SymbolType};
use mcu_debug_helper::utils::{CanonicalPath, PathStyle};
use std::sync::Arc;

fn data(name: &str, address: u64, size: u64, global: bool) -> ObjSymbol {
    ObjSymbol {
        name: Some(name.to_string()),
        kind: ObjSymbolKind::Data,
        is_global: global,
        is_local: !global,
        address,
        size,
    }
}

fn text(name: &str, address: u64, size: u64) -> ObjSymbol {
    ObjSymbol {
        name: Some(name.to_string()),
        kind: ObjSymbolKind::Text,
        is_global: true,
        is_local: false,
        address,
        size,
    }
}

fn variable(linkage: Option<&str>, name: Option<&str>) -> DebugEntry {
    DebugEntry {
        tag: DieTag::Variable,
        linkage_name: linkage.map(|s| s.to_string()),
        name: name.map(|s| s.to_string()),
        low_pc: None,
        high_pc: None,
    }
}

fn subprogram(name: &str, low: Option<u64>, high: Option<HighPc>) -> DebugEntry {
    DebugEntry {
        tag: DieTag::Subprogram,
        linkage_name: None,
        name: Some(name.to_string()),
        low_pc: low,
        high_pc: high,
    }
}

fn unit(source: &str, entries: Vec<DebugEntry>) -> CompilationUnit {
    CompilationUnit { source_file: source.to_string(), files: Vec::new(), rows: Vec::new(), entries }
}

fn object(symbols: Vec<ObjSymbol>, units: Vec<CompilationUnit>) -> ObjectFile {
    ObjectFile { sections: Vec::new(), symbols, units }
}

#[test]
fn scenario_c_rtt_block_is_found_and_announced_before_the_symbols_are_ready() {
    let obj = object(
        vec![text("main", 0x800_0000, 0x40), data("_SEGGER_RTT", 0x2000_4000, 0xa8, true)],
        Vec::new(),
    );
    let (info, events) = ingest(&obj, PathStyle::Posix, "local-session", "0.1.0");
    assert_eq!(info.rtt_symbol_address, Some(0x2000_4000));
    assert_eq!(events.len(), 2);
    assert!(matches!(
        &events[0],
        HelperEvent::RTTFound { session_id, address }
            if session_id == "local-session" && address == "0x20004000"
    ));
    assert!(matches!(
        &events[1],
        HelperEvent::SymbolTableReady { session_id, version }
            if session_id == "local-session" && version == "0.1.0"
    ));
    assert_eq!(find_symbol_by_name(&info, "_SEGGER_RTT"), Some(0x2000_4000));
    assert_eq!(find_symbol_by_name(&info, "SEGGER_RTT"), None);
}

#[test]
fn rtt_block_must_be_data_and_may_go_without_underscore() {
    let obj = object(vec![text("_SEGGER_RTT", 0x100, 4)], Vec::new());
    let (info, events) = load_elf_info(&obj, PathStyle::Posix, "s");
    assert_eq!(info.rtt_symbol_address, None);
    assert!(events.is_empty());
    let obj = object(
        vec![data("SEGGER_RTT", 0x2000_0000, 4, false), data("other", 0x2000_0100, 4, true)],
        Vec::new(),
    );
    let (info, events) = load_elf_info(&obj, PathStyle::Posix, "s");
    assert_eq!(info.rtt_symbol_address, Some(0x2000_0000));
    assert_eq!(events.len(), 1);
    assert!(matches!(&events[0], HelperEvent::RTTFound { address, .. } if address == "0x20000000"));
}

#[test]
fn scenario_d_global_variable_joins_the_globals_only() {
    let obj = object(
        vec![data("g_buffer", 0x2000_1000, 64, true)],
        vec![unit("/src/main.c", vec![variable(Some("g_buffer"), Some("ignored"))])],
    );
    let (info, _) = ingest(&obj, PathStyle::Posix, "s", "v");
    assert_eq!(info.global_symbols.len(), 1);
    assert_eq!(info.global_symbols[0].name, "g_buffer");
    assert_eq!(info.global_symbols[0].address, 0x2000_1000);
    assert_eq!(info.static_file_mapping.file_map.len(), 0);
    assert_eq!(info.dwarf_symbols.get_by_name("g_buffer").map(|s| s.address), Some(0x2000_1000));
}

#[test]
fn static_variable_joins_the_statics_of_its_file() {
    let obj = object(
        vec![data("counter", 0x2000_0010, 4, false), data("flag", 0x2000_0020, 1, false)],
        vec![
            unit("/src\\a.c", vec![variable(None, Some("counter"))]),
            unit("/src/b.c", vec![variable(None, Some("flag")), variable(None, Some("gone"))]),
        ],
    );
    let (info, _) = ingest(&obj, PathStyle::Posix, "s", "v");
    assert!(info.global_symbols.is_empty());
    let a = get_statics_for_file(&info, &CanonicalPath::new("/src/a.c", PathStyle::Posix));
    assert_eq!(a.iter().map(|s| s.name.as_str()).collect::<Vec<_>>(), vec!["counter"]);
    let b = get_statics_for_file(&info, &CanonicalPath::new("/src/b.c", PathStyle::Posix));
    assert_eq!(b.iter().map(|s| s.name.as_str()).collect::<Vec<_>>(), vec!["flag"]);
    let none = get_statics_for_file(&info, &CanonicalPath::new("/src/c.c", PathStyle::Posix));
    assert!(none.is_empty());
    assert!(info.dwarf_symbols.get_by_name("gone").is_none());
}

#[test]
fn variable_without_a_data_symbol_is_passed_over() {
    let mut odd = data("odd", 0x2000_0000, 4, false);
    odd.is_local = false;
    let obj = object(
        vec![text("func", 0x100, 8), odd],
        vec![unit("/src/a.c", vec![variable(None, Some("func")), variable(None, Some("odd"))])],
    );
    let (info, _) = ingest(&obj, PathStyle::Posix, "s", "v");
    assert!(info.global_symbols.is_empty());
    assert_eq!(info.static_file_mapping.file_map.len(), 0);
    assert!(info.dwarf_symbols.get_by_name("func").is_none());
    assert_eq!(
        info.dwarf_symbols.get_by_name("odd").map(|s| s.scope),
        Some(SymbolScope::Unknown)
    );
}

#[test]
fn subprogram_takes_the_symbol_of_the_object_file_or_makes_its_own() {
    let obj = object(
        vec![text("known", 0x1000, 0x20)],
        vec![unit(
            "/src/a.c",
            vec![
                subprogram("dwarf_name_of_known", Some(0x1000), Some(HighPc::Offset(4))),
                subprogram("inside_known", Some(0x1010), None),
                subprogram("by_offset", Some(0x2000), Some(HighPc::Offset(0x30))),
                subprogram("by_address", Some(0x3000), Some(HighPc::Address(0x3008))),
                subprogram("empty", Some(0x4000), Some(HighPc::Address(0x4000))),
                subprogram("backwards", Some(0x5000), Some(HighPc::Address(0x4000))),
                subprogram("no_high", Some(0x6000), None),
                subprogram("no_low", None, Some(HighPc::Offset(8))),
            ],
        )],
    );
    let (info, _) = load_elf_info(&obj, PathStyle::Posix, "s");
    let dwarf = &info.dwarf_symbols;
    assert_eq!(dwarf.lookup(0x1000).map(|s| (s.name.as_str(), s.size)), Some(("known", 0x20)));
    assert!(dwarf.get_by_name("dwarf_name_of_known").is_none());
    assert!(dwarf.get_by_name("inside_known").is_none());
    let by_offset = dwarf.get_by_name("by_offset").expect("made");
    assert_eq!((by_offset.address, by_offset.size), (0x2000, 0x30));
    assert_eq!(by_offset.kind, SymbolType::Function);
    assert_eq!(by_offset.scope, SymbolScope::Global);
    assert_eq!(dwarf.get_by_name("by_address").map(|s| s.size), Some(8));
    assert!(dwarf.get_by_name("empty").is_none());
    assert!(dwarf.get_by_name("backwards").is_none());
    assert!(dwarf.get_by_name("no_high").is_none());
    assert!(dwarf.get_by_name("no_low").is_none());
}

#[test]
fn symbols_of_other_kinds_and_without_names_are_passed_over() {
    let mut other = text("section", 0x10, 0);
    other.kind = ObjSymbolKind::Other;
    let mut nameless = text("x", 0x20, 4);
    nameless.name = None;
    let mut neither = data("neither", 0x30, 4, false);
    neither.is_local = false;
    let obj = object(vec![other, nameless, neither, data("local", 0x40, 4, false)], Vec::new());
    let (info, _) = load_elf_info(&obj, PathStyle::Posix, "s");
    assert!(!info.elf_symbols.has_symbol_by_addr(0x10));
    assert!(!info.elf_symbols.has_symbol_by_addr(0x20));
    assert_eq!(info.elf_symbols.get_by_name("neither").map(|s| s.scope), Some(SymbolScope::Unknown));
    assert_eq!(info.elf_symbols.get_by_name("local").map(|s| s.scope), Some(SymbolScope::Static));
    assert_eq!(info.elf_symbols.get_by_name("local").map(|s| s.kind), Some(SymbolType::Data));
}

#[test]
fn sections_without_size_make_no_region() {
    let obj = ObjectFile {
        sections: vec![
            ObjSection { name: ".text".to_string(), address: 0x800_0000, size: 0x1000, align: 4 },
            ObjSection { name: ".comment".to_string(), address: 0, size: 0, align: 1 },
            ObjSection { name: ".bss".to_string(), address: 0x2000_0000, size: 0x200, align: 8 },
        ],
        symbols: Vec::new(),
        units: Vec::new(),
    };
    let (info, events) = load_elf_info(&obj, PathStyle::Posix, "s");
    assert!(events.is_empty());
    assert_eq!(info.memory_ranges.len(), 2);
    assert_eq!(info.memory_ranges[0].name, ".text");
    assert_eq!(info.memory_ranges[1].name, ".bss");
    assert_eq!(
        (info.memory_ranges[1].start, info.memory_ranges[1].size, info.memory_ranges[1].align),
        (0x2000_0000, 0x200, 8)
    );
}

#[test]
fn line_rows_fill_the_index_and_intern_their_files() {
    let row = |address: u64, file_index: u64, line: u64, is_stmt: bool| LineRow {
        address,
        file_index,
        line,
        is_stmt,
    };
    let unit = CompilationUnit {
        source_file: "/src/a.c".to_string(),
        files: vec![
            UnitFile { index: 1, resolved_path: "/src/a.c".to_string() },
            UnitFile { index: 2, resolved_path: "/inc\\a.h".to_string() },
        ],
        rows: vec![
            row(0x100, 2, 7, true),
            row(0x100, 1, 12, true),
            row(0x100, 1, 12, true),
            row(0x104, 1, 13, false),
            row(0x108, 1, 0, true),
            row(0x10c, 9, 20, true),
            row(0x110, 1, 3, true),
        ],
        entries: Vec::new(),
    };
    let obj = object(Vec::new(), vec![unit]);
    let (info, _) = load_elf_info(&obj, PathStyle::Posix, "s");
    let first = info.addr_to_line.get_entry(0x100).expect("entry");
    assert_eq!(first.file_id, 1);
    assert_eq!(first.line, vec![7, 12, 12]);
    assert!(info.addr_to_line.get_entry(0x104).is_none());
    assert!(info.addr_to_line.get_entry(0x108).is_none());
    let unknown = info.addr_to_line.get_entry(0x10c).expect("entry");
    assert_eq!((unknown.file_id, unknown.line.clone()), (0, vec![20]));
    assert_eq!(info.addr_to_line.get_entry(0x110).map(|e| e.file_id), Some(2));
    assert_eq!(info.file_table.get_by_id(1).map(|s| s.as_str()), Some("/inc/a.h"));
    assert_eq!(info.file_table.get_by_id(2).map(|s| s.as_str()), Some("/src/a.c"));
    assert!(info.file_table.get_by_id(3).is_none());
}

#[test]
fn append_or_insert_keeps_the_first_file_of_an_address() {
    let mut index = AddrtoLineInfo::new();
    index.append_or_insert(0x10, 3, 5);
    index.append_or_insert(0x10, 4, 9);
    index.append_or_insert(0x20, 4, 1);
    let entry = index.get_entry(0x10).expect("entry");
    assert_eq!((entry.file_id, entry.line.clone()), (3, vec![5, 9]));
    index.add_entry(0x10, 8, 2);
    let entry = index.get_entry(0x10).expect("entry");
    assert_eq!((entry.file_id, entry.line.clone()), (8, vec![2]));
    assert!(index.get_entry(0x30).is_none());
    let mut single = LineInfoEntry::new(1, 4);
    single.add_line(4);
    assert_eq!(single.line, vec![4, 4]);
}

fn shared(name: &str, address: u64) -> Arc<Symbol> {
    Arc::new(Symbol {
        name: name.to_string(),
        address,
        size: 4,
        kind: SymbolType::Data,
        scope: SymbolScope::Global,
    })
}

#[test]
fn sorting_by_name_is_lexicographic_and_keeps_equal_names_in_order() {
    let mut list = vec![
        shared("zeta", 1),
        shared("alpha", 2),
        shared("Beta", 3),
        shared("alpha", 4),
        shared("alp", 5),
        shared("", 6),
        shared("\u{e9}t\u{e9}", 7),
    ];
    sort_by_name(&mut list);
    let got: Vec<(String, u64)> = list.iter().map(|s| (s.name.clone(), s.address)).collect();
    let want: Vec<(String, u64)> = vec![
        ("".to_string(), 6),
        ("Beta".to_string(), 3),
        ("alp".to_string(), 5),
        ("alpha".to_string(), 2),
        ("alpha".to_string(), 4),
        ("zeta".to_string(), 1),
        ("\u{e9}t\u{e9}".to_string(), 7),
    ];
    assert_eq!(got, want);
}

#[test]
fn globals_and_statics_come_out_sorted() {
    let mut info = ObjectInfo::new();
    for (i, name) in ["m", "c", "x", "a"].iter().enumerate() {
        info.global_symbols.push(shared(name, i as u64));
    }
    let file = CanonicalPath::new("/src/a.c", PathStyle::Posix);
    let mut mapping = StaticFileMapping::new();
    mapping.insert(&file, shared("s2", 0));
    mapping.insert(&file, shared("s1", 1));
    info.static_file_mapping = mapping;
    info.sort_globals_and_statics();
    let names: Vec<&str> = info.global_symbols.iter().map(|s| s.name.as_str()).collect();
    assert_eq!(names, vec!["a", "c", "m", "x"]);
    let statics = info.static_file_mapping.get_statics_for_file(&file);
    assert_eq!(statics.iter().map(|s| s.name.as_str()).collect::<Vec<_>>(), vec!["s1", "s2"]);
}

#[test]
fn demangle_tries_rust_then_cpp_then_keeps_the_name() {
    assert_eq!(demangle(Some("_ZN3foo3barE".to_string())), "foo::bar");
    assert_eq!(demangle(Some("_ZN5space3fooEibc".to_string())), "space::foo(int, bool, char)");
    assert_eq!(demangle(Some("plain_c_name".to_string())), "plain_c_name");
    assert_eq!(demangle(None), "unknown");
}

#[test]
fn choose_name_prefers_a_changed_rust_form() {
    assert_eq!(choose_name("raw".to_string(), "rusty".to_string(), Some("cpp".to_string())), "rusty");
    assert_eq!(choose_name("raw".to_string(), "raw".to_string(), Some("cpp".to_string())), "cpp");
    assert_eq!(choose_name("raw".to_string(), "raw".to_string(), None), "raw");
}

#[test]
fn loaded_names_are_demangled() {
    let obj = object(vec![text("_ZN3foo3barE", 0x100, 8)], Vec::new());
    let (info, _) = load_elf_info(&obj, PathStyle::Posix, "s");
    assert_eq!(info.elf_symbols.lookup(0x104).map(|s| s.name.as_str()), Some("foo::bar"));
    assert!(info.elf_symbols.get_by_name("foo::bar").is_some());
}

#[test]
fn file_names_are_joined_with_their_directories() {
    assert_eq!(join_file_path(Some("/src"), Some("a.c")), "/src/a.c");
    assert_eq!(join_file_path(None, Some("a.c")), "a.c");
    assert_eq!(join_file_path(Some("/src"), None), "/src/");
    assert_eq!(join_file_path(None, None), "");
    assert_eq!(unit_source_path(Some("/build"), Some("src/main.c")), "/build/src/main.c");
    assert_eq!(unit_source_path(Some("/build"), Some("/abs/main.c")), "/abs/main.c");
    assert_eq!(unit_source_path(Some("/build"), Some("C:\\proj\\main.c")), "C:\\proj\\main.c");
    assert_eq!(unit_source_path(None, Some("main.c")), "main.c");
    assert_eq!(unit_source_path(Some("/build"), None), "/build/");
}

#[test]
fn test_elf_ingestion_and_lookups() {
    let obj = object(
        vec![
            text("main", 0x0800_0100, 0x40),
            data("_SEGGER_RTT", 0x2000_4000, 0xa8, true),
            data("tick_count", 0x2000_0010, 4, false),
        ],
        vec![unit("/proj/src/main.c", vec![variable(None, Some("tick_count"))])],
    );
    let (info, _) = ingest(&obj, PathStyle::Posix, "local-session", "0.1.0");
    let mut db = InstructionDb::new();
    for i in 0..64u64 {
        let address = 0x2000_4000 - 64 + 2 * i;
        db.map.insert(
            address,
            Instruction {
                address,
                bytes: "bf00".to_string(),
                text: "nop".to_string(),
                function_name: None,
                file_id: 0,
                line: 0,
            },
        );
    }

    let rtt_addr = find_symbol_by_name(&info, "_SEGGER_RTT");
    assert!(rtt_addr.is_some(), "Could not find _SEGGER_RTT");

    let test_file = CanonicalPath::new("/proj/src/main.c", PathStyle::Posix);
    let statics = get_statics_for_file(&info, &test_file);
    assert!(!statics.is_empty(), "No statics found for {}", test_file.as_str());

    let window = db.get_window(rtt_addr.unwrap(), 5, 5);
    assert_eq!(window.len(), 11);
}
