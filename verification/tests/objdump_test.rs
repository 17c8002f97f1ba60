use mcu_debug_helper::objdump::{parse_line, parse_listing, ListingBuilder, ParsedLine};

fn lines(text: &[&str]) -> Vec<String> {
    text.iter().map(|s| s.to_string()).collect()
}

#[test]
fn header_line_gives_name_and_address() {
    match parse_line("08000130 <main>:\n") {
        ParsedLine::Header { name, address } => {
            assert_eq!(name, "main");
            assert_eq!(address, 0x0800_0130);
        }
        other => panic!("not a header: {:?}", other),
    }
    match parse_line("08000130 <ns::func<int>(char)>:") {
        ParsedLine::Header { name, address } => {
            assert_eq!(name, "ns::func<int>(char)");
            assert_eq!(address, 0x0800_0130);
        }
        other => panic!("not a header: {:?}", other),
    }
    match parse_line("10 <operator new(unsigned int)>:") {
        ParsedLine::Header { name, address } => {
            assert_eq!(name, "operator");
            assert_eq!(address, 0x10);
        }
        other => panic!("not a header: {:?}", other),
    }
    assert!(matches!(parse_line("1000<x>:"), ParsedLine::Other));
}

#[test]
fn instruction_line_gives_address_bytes_and_text() {
    match parse_line(" 8000130:\tb580      \tpush\t{r7, lr}\r\n") {
        ParsedLine::Instruction { address, bytes, text, raw } => {
            assert_eq!(address, 0x0800_0130);
            assert_eq!(bytes, "b580");
            assert_eq!(text, "push\t{r7, lr}");
            assert_eq!(raw, "8000130:\tb580      \tpush\t{r7, lr}");
        }
        other => panic!("not an instruction: {:?}", other),
    }
    match parse_line("8000134:\tf000 f802 \tbl\t800013c <helper>") {
        ParsedLine::Instruction { address, bytes, text, .. } => {
            assert_eq!(address, 0x0800_0134);
            assert_eq!(bytes, "f000f802");
            assert_eq!(text, "bl\t800013c <helper>");
        }
        other => panic!("not an instruction: {:?}", other),
    }
    match parse_line("zz:\tab\tnop") {
        ParsedLine::Other => {}
        other => panic!("not passed over: {:?}", other),
    }
    match parse_line("ag:\tab\tnop") {
        ParsedLine::Instruction { address, .. } => assert_eq!(address, 0),
        other => panic!("not an instruction: {:?}", other),
    }
}

#[test]
fn other_lines_are_passed_over_and_empty_lines_are_blank() {
    assert!(matches!(parse_line(""), ParsedLine::Blank));
    assert!(matches!(parse_line("\r\n"), ParsedLine::Blank));
    assert!(matches!(parse_line("   \n"), ParsedLine::Other));
    assert!(matches!(parse_line("Disassembly of section .text:"), ParsedLine::Other));
    assert!(matches!(parse_line("firmware.elf:     file format elf32-littlearm"), ParsedLine::Other));
    assert!(matches!(parse_line("ABCD:\t00\tnop"), ParsedLine::Other));
    assert!(matches!(parse_line("1000:\t4770"), ParsedLine::Other));
    assert!(matches!(parse_line("1000\t4770\tbx lr"), ParsedLine::Other));
    assert!(matches!(parse_line("\t..."), ParsedLine::Other));
}

#[test]
fn listing_is_built_block_by_block() {
    let listing = parse_listing(&lines(&[
        "firmware.elf:     file format elf32-littlearm",
        "",
        "Disassembly of section .text:",
        "",
        "08000000 <reset>:",
        " 8000000:\t4770      \tbx\tlr",
        " 8000002:\tbf00      \tnop",
        "",
        "08000004 <empty>:",
        "08000004 <main>:",
        " 8000004:\tb580      \tpush\t{r7, lr}",
        " 8000006:\taf00      \tadd\tr7, sp, #0",
        " 800000a:\tbd80      \tpop\t{r7, pc}",
        "",
        " 8000010:\t0000      \tmovs\tr0, r0",
    ]));
    assert_eq!(listing.lines().len(), 6);
    assert_eq!(listing.blocks().len(), 3);
    let names: Vec<&str> = listing.blocks().iter().map(|b| b.name.as_str()).collect();
    assert_eq!(names, vec!["reset", "main", ""]);
    let ids: Vec<i32> = listing.blocks().iter().map(|b| b.id).collect();
    assert_eq!(ids, vec![0, 1, -1]);
    assert_eq!(listing.blocks()[1].start_address, 0x0800_0004);
    assert_eq!(listing.blocks()[1].lines, vec![2, 3, 4]);
    assert_eq!(listing.blocks()[2].start_address, 0);
    let main_last = &listing.lines()[4];
    assert_eq!(main_last.address, 0x0800_000a);
    assert_eq!(main_last.function_id, 1);
    assert_eq!(main_last.offset_in_function, 6);
    assert_eq!(main_last.bytes, "bd80");
    assert_eq!(main_last.instruction, "pop\t{r7, pc}");
    assert_eq!(main_last.file_id, -1);
    let loose = &listing.lines()[5];
    assert_eq!(loose.function_id, -1);
    assert_eq!(loose.offset_in_function, 0x0800_0010);
}

#[test]
fn listing_lines_are_indexed_and_belong_to_their_blocks() {
    let mut text: Vec<String> = Vec::new();
    for f in 0..5u64 {
        text.push(format!("{:08x} <func_{}>:", 0x1000 * (f + 1), f));
        for i in 0..7u64 {
            text.push(format!("    {:x}:\tbf00      \tnop", 0x1000 * (f + 1) + 2 * i));
        }
        text.push(String::new());
    }
    let listing = parse_listing(&text);
    assert_eq!(listing.lines().len(), 35);
    for (i, line) in listing.lines().iter().enumerate() {
        if i > 0 {
            assert!(listing.lines()[i - 1].address < line.address);
        }
        let found = listing.get_line_by_addr(line.address).expect("indexed");
        assert_eq!(found.address, line.address);
        assert_eq!(found.raw_line, line.raw_line);
        assert!(line.function_id >= 0);
        let block = &listing.blocks()[line.function_id as usize];
        assert_eq!(block.id, line.function_id);
        assert!(block.lines.contains(&i));
        assert!(line.address >= block.start_address);
        assert_eq!(line.offset_in_function as u64, line.address - block.start_address);
    }
    let owned: usize = listing.blocks().iter().map(|b| b.lines.len()).sum();
    assert_eq!(owned, 35);
}

#[test]
fn instruction_before_the_block_start_opens_a_nameless_block_and_is_dropped() {
    let listing = parse_listing(&lines(&[
        "00002000 <high>:",
        "    2000:\tbf00      \tnop",
        "    1000:\tbf00      \tnop",
        "    1002:\t4770      \tbx\tlr",
    ]));
    assert_eq!(listing.lines().len(), 2);
    assert_eq!(listing.lines()[1].address, 0x1002);
    assert_eq!(listing.blocks().len(), 2);
    assert_eq!(listing.blocks()[1].name, "");
    assert_eq!(listing.blocks()[1].start_address, 0x1000);
    assert_eq!(listing.blocks()[1].id, 1);
    assert_eq!(listing.lines()[1].function_id, 1);
    assert_eq!(listing.lines()[1].offset_in_function, 2);
}

#[test]
fn builder_takes_lines_one_by_one() {
    let mut builder = ListingBuilder::new();
    builder.feed_line("00000100 <f>:");
    builder.feed_line(" 100:\t4770\tbx\tlr");
    builder.feed(ParsedLine::Instruction {
        address: 0x102,
        bytes: "bf00".to_string(),
        text: "nop".to_string(),
        raw: "102:\tbf00\tnop".to_string(),
    });
    builder.feed(ParsedLine::Other);
    let listing = builder.finish();
    assert_eq!(listing.lines().len(), 2);
    assert_eq!(listing.blocks().len(), 1);
    assert_eq!(listing.blocks()[0].lines, vec![0, 1]);
    assert_eq!(listing.lines()[1].offset_in_function, 2);
    let empty = ListingBuilder::new().finish();
    assert!(empty.lines().is_empty());
    assert!(empty.blocks().is_empty());
}

#[test]
fn short_header_form_gives_name_and_address() {
    match parse_line("1000:\tmain:") {
        ParsedLine::Header { name, address } => {
            assert_eq!(name, "main");
            assert_eq!(address, 0x1000);
        }
        other => panic!("not a header: {:?}", other),
    }
    match parse_line("  2000:\t<handler>:\n") {
        ParsedLine::Header { name, address } => {
            assert_eq!(name, "handler");
            assert_eq!(address, 0x2000);
        }
        other => panic!("not a header: {:?}", other),
    }
    assert!(matches!(parse_line("1000:\tmain"), ParsedLine::Other));
    let listing = parse_listing(&lines(&[
        "1000:\tfirst:",
        "1000:\t4770\tbx\tlr",
        "2000:\tsecond:",
        "2000:\tbf00\tnop",
        "2002:\tbf00\tnop",
    ]));
    assert_eq!(listing.blocks().len(), 2);
    assert_eq!(listing.blocks()[0].name, "first");
    assert_eq!(listing.blocks()[1].name, "second");
    assert_eq!(listing.blocks()[1].lines, vec![1, 2]);
    assert_eq!(listing.lines()[2].offset_in_function, 2);
    assert_eq!(listing.lines()[2].function_id, 1);
}
