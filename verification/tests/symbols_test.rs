use mcu_debug_helper::symbols::{Symbol, SymbolScope, SymbolTable, SymbolType};

fn sym(name: &str, address: u64, size: u64) -> Symbol {
    Symbol {
        name: name.to_string(),
        address,
        size,
        kind: SymbolType::Function,
        scope: SymbolScope::Global,
    }
}

#[test]
fn lookup_finds_symbol_within_extent() {
    let mut table = SymbolTable::new();
    table.insert(sym("alpha", 0x100, 0x20));
    table.insert(sym("beta", 0x200, 0x10));
    assert_eq!(table.lookup(0x100).map(|s| s.name.as_str()), Some("alpha"));
    assert_eq!(table.lookup(0x11f).map(|s| s.name.as_str()), Some("alpha"));
    assert!(table.lookup(0x120).is_none());
    assert!(table.lookup(0xff).is_none());
    assert_eq!(table.lookup(0x20f).map(|s| s.name.as_str()), Some("beta"));
    assert!(table.lookup(0x210).is_none());
}

#[test]
fn marker_symbol_matches_its_start_only() {
    let mut table = SymbolTable::new();
    table.insert(sym("marker", 0x300, 0));
    assert_eq!(table.lookup(0x300).map(|s| s.name.as_str()), Some("marker"));
    assert!(table.lookup(0x301).is_none());
}

#[test]
fn lookup_goes_by_the_largest_start_at_or_before_the_address() {
    let mut table = SymbolTable::new();
    table.insert(sym("outer", 0x100, 0x100));
    table.insert(sym("inner", 0x150, 0x10));
    assert_eq!(table.lookup(0x14f).map(|s| s.name.as_str()), Some("outer"));
    assert_eq!(table.lookup(0x155).map(|s| s.name.as_str()), Some("inner"));
    assert!(table.lookup(0x170).is_none());
}

#[test]
fn later_symbol_wins_the_address_and_both_stay_by_name() {
    let mut table = SymbolTable::new();
    table.insert(sym("first", 0x100, 4));
    table.insert(sym("alias", 0x100, 8));
    assert_eq!(table.lookup(0x100).map(|s| s.name.as_str()), Some("alias"));
    assert_eq!(table.get_by_name("first").map(|s| s.size), Some(4));
    assert_eq!(table.get_by_name("alias").map(|s| s.size), Some(8));
    assert!(table.has_symbol_by_name("first"));
    assert!(!table.has_symbol_by_name("second"));
    assert!(table.has_symbol_by_addr(0x100));
    assert!(!table.has_symbol_by_addr(0x104));
}

#[test]
fn name_index_keeps_the_latest_symbol_of_a_name() {
    let mut table = SymbolTable::new();
    table.insert(sym("twice", 0x100, 4));
    table.insert(sym("twice", 0x200, 4));
    assert_eq!(table.get_by_name("twice").map(|s| s.address), Some(0x200));
    assert_eq!(table.lookup(0x100).map(|s| s.name.as_str()), Some("twice"));
}

#[test]
fn lookup_range_lists_the_holder_of_the_start_and_the_starts_inside() {
    let mut table = SymbolTable::new();
    table.insert(sym("a", 0x100, 0x40));
    table.insert(sym("b", 0x140, 0x40));
    table.insert(sym("c", 0x180, 0x40));
    table.insert(sym("d", 0x200, 0x40));
    let names = |v: Vec<&Symbol>| v.iter().map(|s| s.name.clone()).collect::<Vec<_>>();
    assert_eq!(names(table.lookup_range(0x120, 0x1c0)), vec!["a", "b", "c"]);
    assert_eq!(names(table.lookup_range(0x140, 0x180)), vec!["b"]);
    assert_eq!(names(table.lookup_range(0x1c0, 0x200)), Vec::<String>::new());
    assert_eq!(names(table.lookup_range(0x1c0, 0x201)), vec!["d"]);
    assert_eq!(names(table.lookup_range(0x150, 0x150)), vec!["b"]);
    assert_eq!(names(table.lookup_range(0, 0x100)), Vec::<String>::new());
    assert_eq!(names(table.lookup_range(0, u64::MAX)), vec!["a", "b", "c", "d"]);
}

#[test]
fn lookup_handles_extents_that_reach_the_top_of_memory() {
    let mut table = SymbolTable::new();
    table.insert(sym("top", u64::MAX - 1, 16));
    assert_eq!(table.lookup(u64::MAX).map(|s| s.name.as_str()), Some("top"));
}

#[test]
fn names_are_found_among_many() {
    let mut table = SymbolTable::new();
    for i in 0..200u64 {
        table.insert(sym(&format!("sym_{}", (i * 37) % 200), 0x1000 + 8 * i, 8));
    }
    for i in 0..200u64 {
        let name = format!("sym_{}", i);
        assert_eq!(table.get_by_name(&name).map(|s| s.name.clone()), Some(name));
    }
    assert!(table.get_by_name("sym_200").is_none());
    assert_eq!(table.lookup(0x1000 + 8 * 57 + 3).map(|s| s.address), Some(0x1000 + 8 * 57));
}
