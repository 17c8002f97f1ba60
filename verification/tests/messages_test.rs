use mcu_debug_helper::debug::{is_debug, set_debug, DebugFlag};
use mcu_debug_helper::helper_requests::{
    DisasmResponse, DisassembleArguments, DisassembleRequest, HelperEvent, SerInstruction,
};
use mcu_debug_helper::memory::MemoryRegion;
use mcu_debug_helper::protocol::{
    disassembly_ready_notification, rtt_found_notification, symbol_table_ready_notification,
    wrap_event_as_notification,
};
use std::collections::HashMap;

#[test]
fn ensure_ts_exports() {
    let request = DisassembleRequest {
        req: "disasm".to_string(),
        seq: 1,
        arguments: DisassembleArguments {
            memoryReference: "0x0".to_string(),
            offset: None,
            instructionOffset: None,
            instructionCount: 1,
            resolveSymbols: None,
        },
    };
    assert_eq!(request.arguments.instructionCount, 1);
    let response = DisasmResponse::new(1, HashMap::new(), HashMap::new(), Vec::<SerInstruction>::new());
    assert_eq!(response.req, "disasm");
}

#[test]
fn notifications_carry_the_envelope() {
    let ready = symbol_table_ready_notification("local-session", "0.1.0");
    assert_eq!(ready.jsonrpc, "2.0");
    assert_eq!(ready.method, "HelperEvent");
    assert!(matches!(
        &ready.args,
        HelperEvent::SymbolTableReady { session_id, version }
            if session_id == "local-session" && version == "0.1.0"
    ));
    let disasm = disassembly_ready_notification("s", 1234);
    assert!(matches!(
        &disasm.args,
        HelperEvent::DisassemblyReady { session_id, instruction_count: 1234 } if session_id == "s"
    ));
    let rtt = rtt_found_notification("s", "0x20004000");
    assert!(matches!(
        &rtt.args,
        HelperEvent::RTTFound { session_id, address } if session_id == "s" && address == "0x20004000"
    ));
    let wrapped = wrap_event_as_notification(HelperEvent::Log {
        session_id: "s".to_string(),
        level: "info".to_string(),
        message: "m".to_string(),
    });
    assert_eq!(wrapped.method, "HelperEvent");
    assert!(matches!(&wrapped.args, HelperEvent::Log { message, .. } if message == "m"));
}

#[test]
fn debug_flag_keeps_what_was_set_first() {
    let mut flag = DebugFlag::new();
    assert!(!is_debug(&flag));
    set_debug(&mut flag, true);
    assert!(is_debug(&flag));
    set_debug(&mut flag, false);
    assert!(is_debug(&flag));
    let mut off = DebugFlag::new();
    set_debug(&mut off, false);
    set_debug(&mut off, true);
    assert!(!is_debug(&off));
}

#[test]
fn memory_region_contains_end_and_clip() {
    let region = MemoryRegion::new(".text".to_string(), 0x1000, 0x100, 4);
    assert!(region.contains(0x1000));
    assert!(region.contains(0x10ff));
    assert!(!region.contains(0x1100));
    assert!(!region.contains(0xfff));
    assert_eq!(region.end(), 0x1100);
    assert_eq!(region.checked_end(), Some(0x1100));
    let clipped = region.clip_region(0x1080, 0x2000).expect("overlap");
    assert_eq!((clipped.start, clipped.size, clipped.align), (0x1080, 0x80, 4));
    assert_eq!(clipped.name, ".text");
    let inner = region.clip_region(0x1010, 0x1020).expect("overlap");
    assert_eq!((inner.start, inner.size), (0x1010, 0x10));
    assert!(region.clip_region(0x1100, 0x2000).is_none());
    assert!(region.clip_region(0, 0x1000).is_none());
    let top = MemoryRegion::new("top".to_string(), u64::MAX - 1, 16, 1);
    assert!(top.contains(u64::MAX));
    assert_eq!(top.checked_end(), None);
    let rest = top.clip_region(0, u64::MAX).expect("overlap");
    assert_eq!((rest.start, rest.size), (u64::MAX - 1, 1));
}

#[test]
fn memory_region_report_is_in_base_sixteen() {
    let region = MemoryRegion::new(".data".to_string(), 0x2000_0000, 0x1f0, 8);
    let report = region.to_json();
    assert_eq!(report.name, ".data");
    assert_eq!(report.start, "0x20000000");
    assert_eq!(report.size, "0x1f0");
    assert_eq!(report.align, "0x8");
}
