use mcu_debug_helper::disasm_worker::build_disasm_response;
use mcu_debug_helper::elf_items::{FileTable, ObjectInfo};
use mcu_debug_helper::get_assembly::{AssemblyLine, AssemblyListing};
use mcu_debug_helper::helper_requests::{
    DisassembleArguments, DisassembleRequest, GlobalsRequest, StaticsRequest,
    SymbolLookupAddressRequest, SymbolLookupNameRequest,
};
use mcu_debug_helper::loader::{
    ingest, CompilationUnit, DebugEntry, DieTag, ObjSymbol, ObjSymbolKind, ObjectFile,
};
use mcu_debug_helper::protocol::DisasmRequest;
use mcu_debug_helper::request_handler::{
    classify_request, convert_to_internal_disasm_request, dispatch_request,
    handle_disassemble_request, handle_globals_request, handle_statics_request,
    handle_symbol_lookup_request, parse_hex_address, Outcome, Request, RequestKind,
};
use mcu_debug_helper::utils::PathStyle;

fn two_line_listing() -> AssemblyListing {
    let mut listing = AssemblyListing::new();
    listing.insert_line(AssemblyLine::new(
        0x1000,
        "00 20".to_string(),
        "movs r0,#0".to_string(),
        " 1000: 00 20 movs r0,#0".to_string(),
        -1,
        0,
    ));
    listing.insert_line(AssemblyLine::new(
        0x1002,
        "01 30".to_string(),
        "adds r0,r1".to_string(),
        " 1002: 01 30 adds r0,r1".to_string(),
        -1,
        0,
    ));
    listing
}

fn disassemble(reference: &str, offset: Option<i32>, instr_offset: Option<i32>, count: i32) -> DisassembleRequest {
    DisassembleRequest {
        req: "disasm".to_string(),
        seq: 11,
        arguments: DisassembleArguments {
            memoryReference: reference.to_string(),
            offset,
            instructionOffset: instr_offset,
            instructionCount: count,
            resolveSymbols: None,
        },
    }
}

fn sample_info() -> ObjectInfo {
    let data = |name: &str, address: u64, global: bool| ObjSymbol {
        name: Some(name.to_string()),
        kind: ObjSymbolKind::Data,
        is_global: global,
        is_local: !global,
        address,
        size: 4,
    };
    let variable = |name: &str| DebugEntry {
        tag: DieTag::Variable,
        linkage_name: None,
        name: Some(name.to_string()),
        low_pc: None,
        high_pc: None,
    };
    let obj = ObjectFile {
        sections: Vec::new(),
        symbols: vec![
            data("g_two", 0x2000_0008, true),
            data("g_one", 0x2000_0004, true),
            data("s_b", 0x2000_0020, false),
            data("s_a", 0x2000_0010, false),
            data("s_other", 0x2000_0030, false),
        ],
        units: vec![
            CompilationUnit {
                source_file: "/proj/src\\main.c".to_string(),
                files: Vec::new(),
                rows: Vec::new(),
                entries: vec![variable("g_two"), variable("s_b"), variable("g_one"), variable("s_a")],
            },
            CompilationUnit {
                source_file: "/proj/src/other.c".to_string(),
                files: Vec::new(),
                rows: Vec::new(),
                entries: vec![variable("s_other")],
            },
        ],
    };
    ingest(&obj, PathStyle::Posix, "s", "v").0
}

fn pairs(v: &[(String, String)]) -> Vec<(&str, &str)> {
    v.iter().map(|(a, b)| (a.as_str(), b.as_str())).collect()
}

#[test]
fn scenario_e_disassembly_request_on_the_two_line_listing() {
    let request = disassemble("0x1002", None, Some(-1), 2);
    let internal = convert_to_internal_disasm_request(&request).expect("an address");
    assert_eq!(internal.memory_reference, 0x1002);
    assert_eq!(internal.start_addr, 0x1002);
    assert_eq!(internal.instr_offset, -1);
    assert_eq!(internal.instr_count, 2);
    assert_eq!(internal.seq_id, 11);
    let listing = two_line_listing();
    let response = build_disasm_response(&listing, None, &internal).expect("a window");
    assert_eq!(response.req, "disasm");
    assert_eq!(response.seq, 11);
    assert!(response.file_table.is_empty());
    assert!(response.func_table.is_empty());
    assert_eq!(response.instructions.len(), 3);
    assert_eq!(response.instructions[0].a, "1000");
    assert_eq!(response.instructions[0].b, "00 20");
    assert_eq!(response.instructions[0].i, "movs r0,#0");
    assert_eq!(response.instructions[1].a, "1002");
    assert_eq!(response.instructions[1].i, "adds r0,r1");
    assert_eq!(response.instructions[2].a, "1004");
    assert_eq!(response.instructions[2].i, "<invalid instr>");
    assert_eq!(
        (response.instructions[0].f, response.instructions[0].o, response.instructions[0].F),
        (-1, 0, -1)
    );
    assert_eq!((response.instructions[0].sl, response.instructions[0].el), (-1, -1));
}

#[test]
fn scenario_f_statics_of_a_known_file_and_of_any_other() {
    let info = sample_info();
    let request = StaticsRequest { req: "statics".to_string(), seq: 5, file_name: "src/main.c".to_string() };
    let known = handle_statics_request(&request, "/proj/src/main.c", PathStyle::Posix, &info);
    assert_eq!(known.req, "statics");
    assert_eq!(known.seq, 5);
    assert_eq!(pairs(&known.statics), vec![("s_a", "0x20000010"), ("s_b", "0x20000020")]);
    let same = handle_statics_request(&request, "/proj\\src\\main.c", PathStyle::Posix, &info);
    assert_eq!(pairs(&same.statics), vec![("s_a", "0x20000010"), ("s_b", "0x20000020")]);
    let other = handle_statics_request(&request, "/proj/src/missing.c", PathStyle::Posix, &info);
    assert!(other.statics.is_empty());
}

#[test]
fn globals_are_listed_in_name_order() {
    let info = sample_info();
    let response = handle_globals_request(&GlobalsRequest { req: "globals".to_string(), seq: 9 }, &info);
    assert_eq!(response.req, "globals");
    assert_eq!(response.seq, 9);
    assert_eq!(pairs(&response.globals), vec![("g_one", "0x20000004"), ("g_two", "0x20000008")]);
}

#[test]
fn symbol_lookup_by_name_answers_for_known_names_only() {
    let info = sample_info();
    let request = |name: &str| SymbolLookupNameRequest {
        req: "symbolLookup".to_string(),
        seq: 3,
        name: name.to_string(),
        file_name: None,
    };
    let found = handle_symbol_lookup_request(&request("s_other"), &info).expect("known");
    assert_eq!(found.req, "symbolLookup");
    assert_eq!(found.seq, 3);
    assert_eq!(pairs(&found.symbols), vec![("s_other", "0x20000030")]);
    assert!(handle_symbol_lookup_request(&request("nobody"), &info).is_none());
}

#[test]
fn parse_hex_address_reads_base_sixteen() {
    assert_eq!(parse_hex_address("0x1002"), Some(0x1002));
    assert_eq!(parse_hex_address("  0x1F\t"), Some(0x1f));
    assert_eq!(parse_hex_address("deadBEEF"), Some(0xdead_beef));
    assert_eq!(parse_hex_address("0"), Some(0));
    assert_eq!(parse_hex_address("+ff"), Some(0xff));
    assert_eq!(parse_hex_address("0x+ff"), Some(0xff));
    assert_eq!(parse_hex_address("0xffffffffffffffff"), Some(u64::MAX));
    assert_eq!(parse_hex_address("0x0000000000000000000001"), Some(1));
    assert_eq!(parse_hex_address("0x10000000000000000"), None);
    assert_eq!(parse_hex_address(""), None);
    assert_eq!(parse_hex_address("0x"), None);
    assert_eq!(parse_hex_address("+"), None);
    assert_eq!(parse_hex_address("-1"), None);
    assert_eq!(parse_hex_address("0X10"), None);
    assert_eq!(parse_hex_address("0x0x10"), None);
    assert_eq!(parse_hex_address("12 34"), None);
    assert_eq!(parse_hex_address("1g"), None);
}

#[test]
fn conversion_moves_the_address_within_bounds() {
    let start = |reference: &str, offset: Option<i32>| {
        convert_to_internal_disasm_request(&disassemble(reference, offset, None, 1)).map(|r| r.start_addr)
    };
    assert_eq!(start("0x1000", Some(16)), Some(0x1010));
    assert_eq!(start("0x1000", Some(-16)), Some(0xff0));
    assert_eq!(start("0x8", Some(-16)), Some(0));
    assert_eq!(start("0x0", Some(i32::MIN)), Some(0));
    assert_eq!(start("0x100000000", Some(i32::MIN)), Some(0x8000_0000));
    assert_eq!(start("0xfffffffffffffff0", Some(32)), Some(u64::MAX));
    assert_eq!(start("0x1000", None), Some(0x1000));
    assert_eq!(start("nothing", Some(1)), None);
}

#[test]
fn conversion_takes_offset_and_count() {
    let r = convert_to_internal_disasm_request(&disassemble("0x20", None, None, 400)).expect("ok");
    assert_eq!((r.instr_offset, r.instr_count), (0, 400));
    let r = convert_to_internal_disasm_request(&disassemble("0x20", Some(2), Some(-200), 400)).expect("ok");
    assert_eq!((r.memory_reference, r.start_addr, r.instr_offset, r.instr_count), (0x20, 0x22, -200, 400));
    let r = convert_to_internal_disasm_request(&disassemble("0x20", None, Some(7), -5)).expect("ok");
    assert_eq!((r.instr_offset, r.instr_count), (7, 0));
    assert!(handle_disassemble_request(&disassemble("", None, None, 1)).is_none());
}

#[test]
fn requests_are_classified_by_req_or_command() {
    assert_eq!(classify_request(Some("disasm"), None), RequestKind::Disassemble);
    assert_eq!(classify_request(Some("disassemble"), None), RequestKind::Disassemble);
    assert_eq!(classify_request(Some("globals"), None), RequestKind::Globals);
    assert_eq!(classify_request(Some("statics"), None), RequestKind::Statics);
    assert_eq!(classify_request(Some("symbolLookup"), None), RequestKind::SymbolLookup);
    assert_eq!(classify_request(None, Some("disassemble")), RequestKind::Disassemble);
    assert_eq!(classify_request(Some("nonsense"), Some("globals")), RequestKind::Unknown);
    assert_eq!(classify_request(Some("Globals"), None), RequestKind::Unknown);
    assert_eq!(classify_request(None, None), RequestKind::Unknown);
}

#[test]
fn dispatch_decides_for_each_kind_of_request() {
    let info = sample_info();
    let style = PathStyle::Posix;
    let forward = dispatch_request(&Request::Disassemble(disassemble("0x10", None, Some(-2), 4)), &info, style);
    assert!(matches!(
        forward,
        Outcome::Forward(DisasmRequest { start_addr: 0x10, instr_offset: -2, instr_count: 4, seq_id: 11, .. })
    ));
    let bad = dispatch_request(&Request::Disassemble(disassemble("xyz", None, None, 4)), &info, style);
    assert!(matches!(bad, Outcome::Nothing { handled: false }));
    let globals = dispatch_request(&Request::Globals(GlobalsRequest { req: "globals".to_string(), seq: 1 }), &info, style);
    assert!(matches!(&globals, Outcome::Globals(r) if r.globals.len() == 2 && r.seq == 1));
    let statics = dispatch_request(
        &Request::Statics {
            request: StaticsRequest { req: "statics".to_string(), seq: 2, file_name: "other.c".to_string() },
            resolved_file_name: "/proj/src/other.c".to_string(),
        },
        &info,
        style,
    );
    assert!(matches!(&statics, Outcome::Statics(r) if r.statics.len() == 1 && r.statics[0].0 == "s_other"));
    let by_name = |name: &str| Request::SymbolLookupByName(SymbolLookupNameRequest {
        req: "symbolLookup".to_string(),
        seq: 3,
        name: name.to_string(),
        file_name: None,
    });
    assert!(matches!(
        &dispatch_request(&by_name("g_one"), &info, style),
        Outcome::Symbols(r) if r.symbols.len() == 1 && r.symbols[0].1 == "0x20000004"
    ));
    assert!(matches!(dispatch_request(&by_name("none"), &info, style), Outcome::Nothing { handled: true }));
    let by_address = Request::SymbolLookupByAddress(SymbolLookupAddressRequest {
        req: "symbolLookup".to_string(),
        seq: 4,
        address: "0x20000004".to_string(),
    });
    assert!(matches!(dispatch_request(&by_address, &info, style), Outcome::Nothing { handled: true }));
    assert!(matches!(dispatch_request(&Request::Unknown, &info, style), Outcome::Nothing { handled: false }));
}

#[test]
fn response_names_files_and_functions_of_its_window() {
    let mut listing = AssemblyListing::new();
    listing.insert_line(AssemblyLine::new(0x100, "aa".to_string(), "one".to_string(), String::new(), 0, 0));
    listing.insert_line(AssemblyLine::new(0x102, "bb".to_string(), "two".to_string(), String::new(), 0, 2));
    listing.insert_line(AssemblyLine::new(0x104, "cc".to_string(), "three".to_string(), String::new(), 5, 0));
    listing.push_block(mcu_debug_helper::get_assembly::AssemblyBlock::new("first".to_string(), 0x100, 0));
    listing.set_source_info_at(0x100, 1, 10, -1, 12, -1);
    listing.set_source_info_at(0x102, 7, 13, -1, 13, -1);
    let mut files = FileTable::new();
    files.intern("/src/main.c", PathStyle::Posix);
    let request = DisasmRequest { memory_reference: 0x102, start_addr: 0x102, instr_offset: -1, instr_count: 2, seq_id: 1 };
    let response = build_disasm_response(&listing, Some(&files), &request).expect("a window");
    assert_eq!(response.instructions.len(), 3);
    assert_eq!(response.func_table.len(), 1);
    assert_eq!(response.func_table.get(&0).map(|s| s.as_str()), Some("first"));
    assert_eq!(response.file_table.len(), 2);
    assert_eq!(response.file_table.get(&1).map(|s| s.as_str()), Some("/src/main.c"));
    assert_eq!(response.file_table.get(&7).map(|s| s.as_str()), Some("file_7"));
    assert_eq!((response.instructions[0].F, response.instructions[0].sl, response.instructions[0].el), (1, 10, 12));
    assert_eq!(response.instructions[1].o, 2);
    assert_eq!(response.instructions[2].f, 5);
    let without = build_disasm_response(&listing, None, &request).expect("a window");
    assert_eq!(without.file_table.get(&1).map(|s| s.as_str()), Some("file_1"));
}

#[test]
fn response_window_follows_offset_and_count() {
    let listing = two_line_listing();
    let request = |instr_offset: i64, instr_count: u64| DisasmRequest {
        memory_reference: 0x1002,
        start_addr: 0x1002,
        instr_offset,
        instr_count,
        seq_id: 1,
    };
    let len = |instr_offset: i64, instr_count: u64| {
        build_disasm_response(&listing, None, &request(instr_offset, instr_count)).map(|r| r.instructions.len())
    };
    assert_eq!(len(0, 4), Some(4));
    assert_eq!(len(-3, 10), Some(11));
    assert_eq!(len(-3, 2), Some(4));
    assert_eq!(len(5, 2), Some(2));
    assert_eq!(len(0, 0), Some(1));
    assert_eq!(len(0, u64::MAX), None);
    assert_eq!(len(i64::MIN, u64::MAX), None);
}
