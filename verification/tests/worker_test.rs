use mcu_debug_helper::disasm_serializer::serialize_compact_disasm;
use mcu_debug_helper::disasm_worker::{
    annotate_listing, name_tables, source_span, worker_step, WorkerAction, WorkerEvent, WorkerState,
};
use mcu_debug_helper::elf_items::{AddrtoLineInfo, LineInfoEntry};
use mcu_debug_helper::get_assembly::{AssemblyLine, AssemblyListing};
use mcu_debug_helper::helper_requests::{DisasmResponse, SerInstruction};
use mcu_debug_helper::transport::{frame_header_text, header_step, parse_header_line, HeaderLine, HeaderStep};
use std::collections::HashMap;

fn two_line_listing() -> AssemblyListing {
    let mut listing = AssemblyListing::new();
    let l1 = AssemblyLine::new(
        0x1000,
        "00 20".to_string(),
        "movs r0,#0".to_string(),
        " 1000: 00 20 movs r0,#0".to_string(),
        -1,
        0,
    );
    let l2 = AssemblyLine::new(
        0x1002,
        "01 30".to_string(),
        "adds r0,r1".to_string(),
        " 1002: 01 30 adds r0,r1".to_string(),
        -1,
        0,
    );
    listing.insert_line(l1);
    listing.insert_line(l2);
    listing
}

#[test]
fn disasm_serializer_serialize_compact_basic() {
    let listing = two_line_listing();
    let v = serialize_compact_disasm(&listing, 7, true);
    assert_eq!(v.t, "disasm_chunk");
    assert_eq!(v.id, 7);
    assert_eq!(v.final_chunk, true);
    let lines = &v.lines;
    assert_eq!(lines.len(), 2);
    let first = &lines[0];
    assert!(first.0.starts_with("0x"));
    assert_eq!(first.0, "0x1000");
    assert_eq!(first.1, "00 20");
    assert_eq!(first.2, "movs r0,#0");
    assert_eq!(v.start, "0x1000");
    let empty = serialize_compact_disasm(&AssemblyListing::new(), 1, false);
    assert_eq!(empty.start, "0x0");
    assert!(empty.lines.is_empty());
    assert_eq!(empty.final_chunk, false);
}

#[test]
fn disasm_worker_serialize_compact_basic() {
    let listing = two_line_listing();
    let s = DisasmResponse::new(
        42,
        HashMap::from([(1, "file1.c".to_string())]),
        HashMap::from([(2, "func1".to_string())]),
        vec![
            SerInstruction::from_assembly_line(&listing.lines()[0]),
            SerInstruction::from_assembly_line(&listing.lines()[1]),
        ],
    );
    assert_eq!(s.req, "disasm");
    assert_eq!(s.seq, 42);
    assert_eq!(s.file_table.get(&1).map(|n| n.as_str()), Some("file1.c"));
    assert_eq!(s.func_table.get(&2).map(|n| n.as_str()), Some("func1"));
    assert_eq!(s.instructions.len(), 2);
    assert_eq!(s.instructions[0].a, "1000");
    assert_eq!(s.instructions[0].b, "00 20");
    assert_eq!(s.instructions[0].i, "movs r0,#0");
    assert_eq!(s.instructions[1].a, "1002");
    assert_eq!(s.instructions[1].f, -1);
}

#[test]
fn worker_goes_through_its_states_in_order() {
    let mut state = WorkerState::Loading;
    let mut actions = Vec::new();
    for event in [
        WorkerEvent::RequestReceived,
        WorkerEvent::ListingReady,
        WorkerEvent::AnnotationDone,
        WorkerEvent::InfoReceived,
        WorkerEvent::InfoReceived,
        WorkerEvent::AnnotationDone,
        WorkerEvent::RequestReceived,
        WorkerEvent::ListingReady,
        WorkerEvent::RequestReceived,
        WorkerEvent::ChannelClosed,
        WorkerEvent::RequestReceived,
    ] {
        let (next, action) = worker_step(state, event);
        state = next;
        actions.push(action);
    }
    assert_eq!(state, WorkerState::Terminated);
    assert_eq!(
        actions,
        vec![
            WorkerAction::Nothing,
            WorkerAction::AwaitInfo,
            WorkerAction::Nothing,
            WorkerAction::Annotate,
            WorkerAction::Nothing,
            WorkerAction::AnnounceReady,
            WorkerAction::Respond,
            WorkerAction::Nothing,
            WorkerAction::Respond,
            WorkerAction::Stop,
            WorkerAction::Nothing,
        ]
    );
}

#[test]
fn worker_ends_when_the_listing_fails_and_serves_without_object_info() {
    assert_eq!(
        worker_step(WorkerState::Loading, WorkerEvent::ListingFailed),
        (WorkerState::Terminated, WorkerAction::Stop)
    );
    assert_eq!(
        worker_step(WorkerState::AwaitingInfo, WorkerEvent::InfoUnavailable),
        (WorkerState::Annotating, WorkerAction::Annotate)
    );
    assert_eq!(
        worker_step(WorkerState::AwaitingInfo, WorkerEvent::ChannelClosed),
        (WorkerState::AwaitingInfo, WorkerAction::Nothing)
    );
    assert_eq!(
        worker_step(WorkerState::Terminated, WorkerEvent::ListingReady),
        (WorkerState::Terminated, WorkerAction::Nothing)
    );
}

#[test]
fn annotation_writes_file_and_first_and_last_line() {
    let mut listing = two_line_listing();
    listing.insert_line(AssemblyLine::new(0x1000, String::new(), "later".to_string(), String::new(), -1, 0));
    let mut info = AddrtoLineInfo::new();
    info.append_or_insert(0x1000, 3, 42);
    info.append_or_insert(0x1000, 3, 17);
    info.append_or_insert(0x1000, 3, 99);
    info.append_or_insert(0x1001, 4, 5);
    info.append_or_insert(0x3000, 4, 6);
    annotate_listing(&mut listing, &info);
    let first = &listing.lines()[0];
    assert_eq!((first.file_id, first.start_line, first.end_line), (-1, -1, -1));
    let second = &listing.lines()[1];
    assert_eq!((second.file_id, second.start_line, second.end_line), (-1, -1, -1));
    let indexed = &listing.lines()[2];
    assert_eq!(indexed.address, 0x1000);
    assert_eq!((indexed.file_id, indexed.start_line, indexed.end_line), (3, 17, 99));
    assert_eq!((indexed.start_column, indexed.end_column), (-1, -1));
    assert_eq!(indexed.instruction, "later");
}

#[test]
fn source_span_keeps_within_what_a_line_holds() {
    let mut entry = LineInfoEntry::new(7, 30);
    entry.add_line(10);
    entry.add_line(20);
    assert_eq!(source_span(&entry), (7, 10, 30));
    let big = LineInfoEntry::new(u32::MAX, u64::MAX);
    assert_eq!(source_span(&big), (-1, i32::MAX, i32::MAX));
    let edge = LineInfoEntry::new(0x7fff_ffff, 0x7fff_ffff);
    assert_eq!(source_span(&edge), (i32::MAX, i32::MAX, i32::MAX));
}

#[test]
fn name_tables_skip_negative_ids_and_functions_without_block() {
    let mut a = AssemblyLine::new(0x10, String::new(), "a".to_string(), String::new(), 3, 0);
    a.set_source_info(-1, -1, -1, -1, -1);
    let mut b = AssemblyLine::new(0x12, String::new(), "b".to_string(), String::new(), -1, 0);
    b.set_source_info(0, 1, -1, 1, -1);
    let window = vec![a, b];
    let (files, funcs) = name_tables(&window, &Vec::new(), None);
    assert!(funcs.is_empty());
    assert_eq!(files.len(), 1);
    assert_eq!(files.get(&0).map(|s| s.as_str()), Some("file_0"));
}

#[test]
fn frame_header_gives_the_length_and_ends_the_headers() {
    assert_eq!(frame_header_text(0), "Content-Length: 0\r\n\r\n");
    assert_eq!(frame_header_text(1234), "Content-Length: 1234\r\n\r\n");
}

#[test]
fn header_lines_are_understood() {
    assert_eq!(parse_header_line("Content-Length: 42\r\n"), HeaderLine::ContentLength(42));
    assert_eq!(parse_header_line("content-length:7"), HeaderLine::ContentLength(7));
    assert_eq!(parse_header_line("  CONTENT-LENGTH :  +19  "), HeaderLine::ContentLength(19));
    assert_eq!(parse_header_line("Content-Length: 12a"), HeaderLine::Malformed);
    assert_eq!(parse_header_line("Content-Length: "), HeaderLine::Malformed);
    assert_eq!(parse_header_line("Content-Length: -1"), HeaderLine::Malformed);
    assert_eq!(parse_header_line("Content-Length: 99999999999999999999999"), HeaderLine::Malformed);
    assert_eq!(parse_header_line("Content-Length 12"), HeaderLine::Other);
    assert_eq!(parse_header_line("Content-Type: application/json"), HeaderLine::Other);
    assert_eq!(parse_header_line("\r\n"), HeaderLine::End);
    assert_eq!(parse_header_line(""), HeaderLine::End);
}

#[test]
fn headers_are_read_line_by_line() {
    assert_eq!(header_step(None, "Content-Type: x\r\n"), HeaderStep::Continue(None));
    assert_eq!(header_step(None, "Content-Length: 5\r\n"), HeaderStep::Continue(Some(5)));
    assert_eq!(header_step(Some(5), "Content-Length: 6\r\n"), HeaderStep::Continue(Some(6)));
    assert_eq!(header_step(Some(5), "X: y\r\n"), HeaderStep::Continue(Some(5)));
    assert_eq!(header_step(Some(5), "\r\n"), HeaderStep::Body(5));
    assert_eq!(header_step(None, "\r\n"), HeaderStep::MissingLength);
    assert_eq!(header_step(Some(5), "Content-Length: x\r\n"), HeaderStep::BadLength);
    let header = frame_header_text(77);
    let mut lines = header.split_inclusive('\n');
    let first = header_step(None, lines.next().expect("a line"));
    assert_eq!(first, HeaderStep::Continue(Some(77)));
    assert_eq!(header_step(Some(77), lines.next().expect("a line")), HeaderStep::Body(77));
}
