use mcu_debug_helper::get_assembly::{AssemblyBlock, AssemblyLine, AssemblyListing};
use mcu_debug_helper::instr::Instruction;
use mcu_debug_helper::instrdb::InstructionDb;
use mcu_debug_helper::objdump::parse_listing;

fn two_line_listing() -> AssemblyListing {
    let mut listing = AssemblyListing::new();
    listing.insert_line(AssemblyLine::new(
        0x1000,
        "00 20".to_string(),
        "movs r0,#0".to_string(),
        " 1000: 00 20 movs r0,#0".to_string(),
        -1,
        0,
    ));
    listing.insert_line(AssemblyLine::new(
        0x1002,
        "01 30".to_string(),
        "adds r0,r1".to_string(),
        " 1002: 01 30 adds r0,r1".to_string(),
        -1,
        0,
    ));
    listing
}

fn listing_with_main(lines_in_main: u64) -> (AssemblyListing, u64) {
    let mut text: Vec<String> = Vec::new();
    text.push("00008000 <start>:".to_string());
    for i in 0..300u64 {
        text.push(format!("    {:x}:\t4770      \tbx\tlr", 0x8000 + 2 * i));
    }
    text.push(String::new());
    text.push("00009000 <main>:".to_string());
    for i in 0..lines_in_main {
        text.push(format!("    {:x}:\tbf00      \tnop", 0x9000 + 2 * i));
    }
    text.push(String::new());
    text.push("0000a000 <tail>:".to_string());
    for i in 0..300u64 {
        text.push(format!("    {:x}:\t4770      \tbx\tlr", 0xa000 + 2 * i));
    }
    let listing = parse_listing(&text);
    let main_index = listing
        .blocks()
        .iter()
        .position(|b| b.name == "main")
        .expect("Failed to find 'main' function");
    let at = listing.blocks()[main_index].lines[10];
    let reference = listing.lines()[at].address;
    (listing, reference)
}

fn strictly_increasing(window: &[AssemblyLine]) -> bool {
    window.windows(2).all(|w| w[0].address < w[1].address)
}

#[test]
fn scenario_a_window_pads_behind_the_last_line() {
    let listing = two_line_listing();
    let window = listing.get_window(0x1002, 1, 1);
    assert_eq!(window.len(), 3);
    assert_eq!(window[0].address, 0x1000);
    assert_eq!(window[0].instruction, "movs r0,#0");
    assert_eq!(window[1].address, 0x1002);
    assert_eq!(window[1].instruction, "adds r0,r1");
    assert_eq!(window[2].address, 0x1004);
    assert_eq!(window[2].instruction, "<invalid instr>");
    assert_eq!(window[2].bytes, "");
    assert_eq!(window[2].function_id, -1);
}

#[test]
fn scenario_a_window_pads_in_front_of_the_first_line() {
    let listing = two_line_listing();
    let window = listing.get_window(0x1000, 2, 0);
    assert_eq!(window.len(), 3);
    assert_eq!(window[0].address, 0x0ffc);
    assert_eq!(window[0].instruction, "<invalid instr>");
    assert_eq!(window[1].address, 0x0ffe);
    assert_eq!(window[1].instruction, "<invalid instr>");
    assert_eq!(window[2].address, 0x1000);
    assert_eq!(window[2].instruction, "movs r0,#0");
}

#[test]
fn window_without_anchor_is_empty() {
    let listing = two_line_listing();
    assert!(listing.get_window(0x0fff, 3, 3).is_empty());
    assert!(AssemblyListing::new().get_window(0x1000, 1, 1).is_empty());
}

#[test]
fn window_of_nothing_is_the_anchor_alone() {
    let listing = two_line_listing();
    let window = listing.get_window(0x1003, 0, 0);
    assert_eq!(window.len(), 1);
    assert_eq!(window[0].address, 0x1002);
}

#[test]
fn window_forward_starts_behind_the_anchor() {
    let listing = two_line_listing();
    let window = listing.get_window(0x1000, 0, 3);
    assert_eq!(window.len(), 3);
    assert_eq!(window[0].address, 0x1002);
    assert_eq!(window[1].address, 0x1004);
    assert_eq!(window[1].instruction, "<invalid instr>");
    assert_eq!(window[2].address, 0x1006);
}

#[test]
fn window_anchor_is_largest_address_at_or_before_target() {
    let listing = two_line_listing();
    let window = listing.get_window(0x1001, 1, 0);
    assert_eq!(window.len(), 2);
    assert_eq!(window[0].address, 0x0ffe);
    assert_eq!(window[1].address, 0x1000);
}

#[test]
fn window_lines_are_copies() {
    let listing = two_line_listing();
    let mut window = listing.get_window(0x1000, 1, 1);
    window[1].set_source_info(7, 1, 2, 3, 4);
    assert_eq!(listing.lines()[0].file_id, -1);
    assert_eq!(window[1].file_id, 7);
}

#[test]
fn window_filler_addresses_wrap_around() {
    let mut listing = AssemblyListing::new();
    listing.insert_line(AssemblyLine::new(
        1,
        String::new(),
        "nop".to_string(),
        String::new(),
        -1,
        0,
    ));
    let window = listing.get_window(1, 1, 0);
    assert_eq!(window.len(), 2);
    assert_eq!(window[0].address, u64::MAX);
    assert_eq!(window[1].address, 1);
}

#[test]
fn scenario_b_windows_in_the_middle_of_main() {
    let (listing, anchor) = listing_with_main(24);
    let forward = listing.get_window(anchor, 0, 50);
    assert_eq!(forward.len(), 50);
    assert!(forward[0].address > anchor);
    assert!(strictly_increasing(&forward));
    let around = listing.get_window(anchor, 200, 200);
    assert_eq!(around.len(), 401);
    assert_eq!(around[200].address, anchor);
    assert!(strictly_increasing(&around));
}

#[test]
fn test_get_window_instruction_offset() {
    let (listing, reference_addr) = listing_with_main(40);
    {
        let window = listing.get_window(reference_addr, 200, 200);
        assert_eq!(window.len(), 401);
        assert_eq!(window[200].address, reference_addr);
        assert!(strictly_increasing(&window));
    }
    {
        let window = listing.get_window(reference_addr, 0, 50);
        assert_eq!(window.len(), 50);
        assert!(window[0].address > reference_addr);
        assert!(strictly_increasing(&window));
    }
    {
        let window = listing.get_window(reference_addr, 10, 10);
        assert_eq!(window.len(), 21);
        assert_eq!(window[10].address, reference_addr);
        assert!(strictly_increasing(&window));
    }
    {
        let window = listing.get_window(reference_addr, 0, 1);
        assert_eq!(window.len(), 1);
        assert!(window[0].address > reference_addr);
    }
    {
        let window = listing.get_window(reference_addr, 25, 0);
        assert_eq!(window.len(), 26);
        assert_eq!(window[25].address, reference_addr);
    }
}

#[test]
fn get_line_by_addr_finds_only_listed_addresses() {
    let listing = two_line_listing();
    assert_eq!(
        listing.get_line_by_addr(0x1002).map(|l| l.instruction.as_str()),
        Some("adds r0,r1")
    );
    assert!(listing.get_line_by_addr(0x1001).is_none());
}

#[test]
fn index_points_to_the_line_inserted_last_at_an_address() {
    let mut listing = two_line_listing();
    listing.insert_line(AssemblyLine::new(
        0x1000,
        String::new(),
        "nop".to_string(),
        String::new(),
        -1,
        0,
    ));
    assert_eq!(listing.lines().len(), 3);
    assert_eq!(
        listing.get_line_by_addr(0x1000).map(|l| l.instruction.as_str()),
        Some("nop")
    );
    let window = listing.get_window(0x1002, 1, 0);
    assert_eq!(window[0].instruction, "nop");
}

#[test]
fn format_bytes_shows_function_and_offset() {
    let plain = AssemblyLine::new(
        0x1a2b,
        "0020".to_string(),
        "movs\tr0, #0".to_string(),
        String::new(),
        -1,
        0,
    );
    assert_eq!(plain.format_bytes(), "1a2b:\t0020\tmovs\tr0, #0");
    let inside = AssemblyLine::new(
        0x1a2b,
        "0020".to_string(),
        "nop".to_string(),
        String::new(),
        12,
        0x2b,
    );
    assert_eq!(inside.format_bytes(), "1a2b: <12+0x2b>\t0020\tnop");
}

#[test]
fn block_line_count_counts_lines() {
    let mut block = AssemblyBlock::new("f".to_string(), 0x100, 3);
    assert_eq!(block.line_count(), 0);
    block.lines.push(0);
    block.lines.push(1);
    assert_eq!(block.line_count(), 2);
    assert_eq!(block.id, 3);
    assert_eq!(block.start_address, 0x100);
}

#[test]
fn clone_of_a_line_is_equal_in_every_field() {
    let mut line = AssemblyLine::new(
        0x20,
        "aa".to_string(),
        "bx lr".to_string(),
        "raw".to_string(),
        4,
        8,
    );
    line.set_source_info(1, 2, 3, 4, 5);
    let copy = line.clone();
    assert_eq!(copy.address, 0x20);
    assert_eq!(copy.bytes, "aa");
    assert_eq!(copy.instruction, "bx lr");
    assert_eq!(copy.raw_line, "raw");
    assert_eq!(copy.function_id, 4);
    assert_eq!(copy.offset_in_function, 8);
    assert_eq!(
        (copy.file_id, copy.start_line, copy.start_column, copy.end_line, copy.end_column),
        (1, 2, 3, 4, 5)
    );
}

fn instruction(address: u64) -> Instruction {
    Instruction {
        address,
        bytes: "00".to_string(),
        text: format!("i{}", address),
        function_name: None,
        file_id: 0,
        line: 0,
    }
}

#[test]
fn instruction_db_window_has_no_fillers() {
    let mut db = InstructionDb::new();
    for a in [10u64, 20, 30, 40, 50, 60, 70, 80, 90, 100, 110, 120] {
        db.map.insert(a, instruction(a));
    }
    let window = db.get_window(65, 5, 5);
    assert_eq!(window.len(), 11);
    assert_eq!(window[5].address, 60);
    assert_eq!(window[0].address, 10);
    assert_eq!(window[10].address, 110);
    let clipped = db.get_window(25, 5, 100);
    assert_eq!(clipped.len(), 12);
    assert_eq!(clipped[0].address, 10);
    assert!(db.get_window(5, 1, 1).is_empty());
}
