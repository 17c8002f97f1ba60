//! Loading: from what an object file holds, given as plain records, to the
//! symbol stores, the index of source lines and the lists of globals and
//! statics.
//!
//! Whoever reads the object file fills the records. A name of a source file
//! comes in them as the file system resolved it; its written form is taken
//! here.

use crate::demangle::{demangle, demangled};
use crate::elf_items::{
    appended, id_in, in_name_order, interned, lemma_intern_again, sorted_by_name, statics_with,
    table_with, InfoModel, ObjectInfo,
};
use crate::helper_requests::{EventModel, HelperEvent};
use crate::memory::{MemoryRegion, RegionModel};
use crate::symbols::{lookup_in, share, Symbol, SymbolModel, SymbolScope, SymbolType};
use crate::text::{chars_of, hex_address, hex_address_text, push_all, str_equal, string_of};
use crate::utils::{finished, CanonicalPath, PathStyle};
use std::collections::HashMap;
use std::sync::Arc;
use vstd::prelude::*;

verus! {

broadcast use vstd::std_specs::hash::group_hash_axioms;

/// A section of the object file.
#[derive(Debug)]
pub struct ObjSection {
    pub name: String,
    pub address: u64,
    pub size: u64,
    pub align: u64,
}

/// What a symbol of the object file stands for.
#[derive(Clone, Copy, PartialEq, Eq, Structural, Debug)]
pub enum ObjSymbolKind {
    Text,
    Data,
    Other,
}

/// A symbol of the object file's own table. `name` is `None` where the
/// name cannot be read.
#[derive(Debug)]
pub struct ObjSymbol {
    pub name: Option<String>,
    pub kind: ObjSymbolKind,
    pub is_global: bool,
    pub is_local: bool,
    pub address: u64,
    pub size: u64,
}

/// A file of the file table of a compilation unit: its number in the unit,
/// and its name, directory and file joined, as the file system resolved it.
#[derive(Debug)]
pub struct UnitFile {
    pub index: u64,
    pub resolved_path: String,
}

/// A row of the line program of a compilation unit. A `line` of zero says
/// that the row has no line.
#[derive(Debug)]
pub struct LineRow {
    pub address: u64,
    pub file_index: u64,
    pub line: u64,
    pub is_stmt: bool,
}

/// The tag of an entry of the debug information.
#[derive(Clone, Copy, PartialEq, Eq, Structural, Debug)]
pub enum DieTag {
    Subprogram,
    Variable,
    Other,
}

/// The upper end of a function: an address, or a size from the lower end.
#[derive(Clone, Copy, PartialEq, Eq, Structural, Debug)]
pub enum HighPc {
    Address(u64),
    Offset(u64),
}

/// A top-level entry of the debug information of a compilation unit. A
/// name that is absent or cannot be read is `None`.
#[derive(Debug)]
pub struct DebugEntry {
    pub tag: DieTag,
    pub linkage_name: Option<String>,
    pub name: Option<String>,
    pub low_pc: Option<u64>,
    pub high_pc: Option<HighPc>,
}

/// A compilation unit: the name of its source file as the file system
/// resolved it, its file table, the rows of its line program and its
/// top-level entries.
#[derive(Debug)]
pub struct CompilationUnit {
    pub source_file: String,
    pub files: Vec<UnitFile>,
    pub rows: Vec<LineRow>,
    pub entries: Vec<DebugEntry>,
}

/// What an object file holds.
#[derive(Debug)]
pub struct ObjectFile {
    pub sections: Vec<ObjSection>,
    pub symbols: Vec<ObjSymbol>,
    pub units: Vec<CompilationUnit>,
}

/// An optional text as a mathematical value.
pub open spec fn text_of(t: Option<String>) -> Option<Seq<char>> {
    match t {
        Some(s) => Some(s@),
        None => None,
    }
}

/// The region that a section makes.
pub open spec fn region_of(s: ObjSection) -> RegionModel {
    RegionModel { name: s.name@, start: s.address, size: s.size, align: s.align }
}

/// The regions of the sections that take up memory, in order.
pub open spec fn regions_of(sections: Seq<ObjSection>) -> Seq<RegionModel>
    decreases sections.len(),
{
    if sections.len() == 0 {
        Seq::empty()
    } else if sections.last().size > 0 {
        regions_of(sections.drop_last()).push(region_of(sections.last()))
    } else {
        regions_of(sections.drop_last())
    }
}

/// The symbol that a symbol of the object file makes: a function for text,
/// data for data, none for anything else and for a symbol whose name cannot
/// be read. A global symbol has global scope, a local one static scope.
pub open spec fn symbol_of(s: ObjSymbol) -> Option<SymbolModel> {
    match (s.name, s.kind) {
        (Some(name), ObjSymbolKind::Text) => Some(
            SymbolModel {
                name: demangled(Some(name@)),
                address: s.address,
                size: s.size,
                kind: SymbolType::Function,
                scope: scope_of(s),
            },
        ),
        (Some(name), ObjSymbolKind::Data) => Some(
            SymbolModel {
                name: demangled(Some(name@)),
                address: s.address,
                size: s.size,
                kind: SymbolType::Data,
                scope: scope_of(s),
            },
        ),
        _ => None,
    }
}

/// The scope of a symbol of the object file.
pub open spec fn scope_of(s: ObjSymbol) -> SymbolScope {
    if s.is_global {
        SymbolScope::Global
    } else if s.is_local {
        SymbolScope::Static
    } else {
        SymbolScope::Unknown
    }
}

/// Whether a symbol is the RTT control block: a data symbol named
/// `_SEGGER_RTT` or `SEGGER_RTT`.
pub open spec fn is_rtt(s: SymbolModel) -> bool {
    s.kind == SymbolType::Data && (s.name == "_SEGGER_RTT"@ || s.name == "SEGGER_RTT"@)
}

/// What a symbol of the object file does to what was learned: its symbol
/// joins the store of the object file's symbols, and where it is the RTT
/// control block, its address is noted.
pub open spec fn symbol_step(m: InfoModel, s: ObjSymbol) -> InfoModel {
    match symbol_of(s) {
        Some(sym) => InfoModel {
            elf: table_with(m.elf, sym),
            rtt: if is_rtt(sym) {
                Some(sym.address)
            } else {
                m.rtt
            },
            ..m
        },
        None => m,
    }
}

/// What was learned after the symbols of the object file, read in order.
pub open spec fn symbols_loaded(m: InfoModel, symbols: Seq<ObjSymbol>) -> InfoModel
    decreases symbols.len(),
{
    if symbols.len() == 0 {
        m
    } else {
        symbol_step(symbols_loaded(m, symbols.drop_last()), symbols.last())
    }
}

/// The events that the symbols of the object file give rise to, in order:
/// one for each that is the RTT control block.
pub open spec fn rtt_events(symbols: Seq<ObjSymbol>, session_id: Seq<char>) -> Seq<EventModel>
    decreases symbols.len(),
{
    if symbols.len() == 0 {
        Seq::empty()
    } else {
        let before = rtt_events(symbols.drop_last(), session_id);
        match symbol_of(symbols.last()) {
            Some(sym) => if is_rtt(sym) {
                before.push(
                    EventModel::RTTFound { session_id, address: hex_address(sym.address) },
                )
            } else {
                before
            },
            None => before,
        }
    }
}

/// The resolved name of the file with the number `index` in a file table:
/// that of the first file with this number.
pub open spec fn file_entry(files: Seq<UnitFile>, index: u64) -> Option<Seq<char>>
    decreases files.len(),
{
    if files.len() == 0 {
        None
    } else if files[0].index == index {
        Some(files[0].resolved_path@)
    } else {
        file_entry(files.skip(1), index)
    }
}

/// What a row of a line program does to what was learned. A row that is a
/// statement and has a line adds the line to its address, under the id of
/// its file; the file is interned on the way. The id is zero where the file
/// table of the unit has no file of that number.
pub open spec fn row_step(m: InfoModel, files: Seq<UnitFile>, row: LineRow, style: PathStyle) -> InfoModel {
    if row.is_stmt && row.line > 0 {
        match file_entry(files, row.file_index) {
            Some(path) => {
                let table = interned(m.files, finished(path, style));
                InfoModel {
                    files: table,
                    lines: appended(
                        m.lines,
                        row.address,
                        id_in(table, finished(path, style)),
                        row.line,
                    ),
                    ..m
                }
            },
            None => InfoModel { lines: appended(m.lines, row.address, 0, row.line), ..m },
        }
    } else {
        m
    }
}

/// What was learned after the rows of a line program, read in order.
pub open spec fn rows_loaded(
    m: InfoModel,
    files: Seq<UnitFile>,
    rows: Seq<LineRow>,
    style: PathStyle,
) -> InfoModel
    decreases rows.len(),
{
    if rows.len() == 0 {
        m
    } else {
        row_step(rows_loaded(m, files, rows.drop_last(), style), files, rows.last(), style)
    }
}

/// The name of an entry: the linkage name where there is one, else the
/// plain name, in readable form.
pub open spec fn entry_name(e: DebugEntry) -> Seq<char> {
    demangled(
        match e.linkage_name {
            Some(n) => Some(n@),
            None => text_of(e.name),
        },
    )
}

/// The size of a function from its two ends; zero where the upper end is
/// absent or not above the lower.
pub open spec fn extent(low: u64, high: Option<HighPc>) -> u64 {
    match high {
        Some(HighPc::Address(h)) => if h > low {
            (h - low) as u64
        } else {
            0
        },
        Some(HighPc::Offset(size)) => size,
        None => 0,
    }
}

/// What the entry of a function does to what was learned. Where a symbol of
/// the object file holds the lower end, that symbol joins the symbols of
/// the debug information. Else the entry makes a symbol of its own, if its
/// size is not zero. An entry without a lower end does nothing.
pub open spec fn subprogram_step(m: InfoModel, e: DebugEntry) -> InfoModel {
    match e.low_pc {
        Some(low) => match lookup_in(m.elf.by_addr, low) {
            Some(sym) => InfoModel { dwarf: table_with(m.dwarf, sym), ..m },
            None => if extent(low, e.high_pc) > 0 {
                InfoModel {
                    dwarf: table_with(
                        m.dwarf,
                        SymbolModel {
                            name: entry_name(e),
                            address: low,
                            size: extent(low, e.high_pc),
                            kind: SymbolType::Function,
                            scope: SymbolScope::Global,
                        },
                    ),
                    ..m
                }
            } else {
                m
            },
        },
        None => m,
    }
}

/// What the entry of a variable does to what was learned. Where the object
/// file has a data symbol of the entry's name, that symbol joins the
/// symbols of the debug information, and, by its scope, the globals or the
/// statics of the unit's source file. Any other entry does nothing.
pub open spec fn variable_step(m: InfoModel, e: DebugEntry, source_file: Seq<char>) -> InfoModel {
    if m.elf.by_name.dom().contains(entry_name(e)) && m.elf.by_name[entry_name(e)].kind
        == SymbolType::Data {
        let sym = m.elf.by_name[entry_name(e)];
        let dwarf = table_with(m.dwarf, sym);
        match sym.scope {
            SymbolScope::Global => InfoModel { dwarf, globals: m.globals.push(sym), ..m },
            SymbolScope::Static => InfoModel {
                dwarf,
                statics: statics_with(m.statics, source_file, sym),
                ..m
            },
            SymbolScope::Unknown => InfoModel { dwarf, ..m },
        }
    } else {
        m
    }
}

/// What an entry of the debug information does to what was learned.
/// `source_file` is the written form of the name of the unit's source file.
pub open spec fn entry_step(m: InfoModel, e: DebugEntry, source_file: Seq<char>) -> InfoModel {
    match e.tag {
        DieTag::Subprogram => subprogram_step(m, e),
        DieTag::Variable => variable_step(m, e, source_file),
        DieTag::Other => m,
    }
}

/// What was learned after the entries of a unit, read in order.
pub open spec fn entries_loaded(m: InfoModel, entries: Seq<DebugEntry>, source_file: Seq<char>) -> InfoModel
    decreases entries.len(),
{
    if entries.len() == 0 {
        m
    } else {
        entry_step(entries_loaded(m, entries.drop_last(), source_file), entries.last(), source_file)
    }
}

/// What a compilation unit does to what was learned: first its line
/// program, then its entries.
pub open spec fn unit_step(m: InfoModel, unit: CompilationUnit, style: PathStyle) -> InfoModel {
    entries_loaded(
        rows_loaded(m, unit.files@, unit.rows@, style),
        unit.entries@,
        finished(unit.source_file@, style),
    )
}

/// What was learned after the units, read in order.
pub open spec fn units_loaded(m: InfoModel, units: Seq<CompilationUnit>, style: PathStyle) -> InfoModel
    decreases units.len(),
{
    if units.len() == 0 {
        m
    } else {
        unit_step(units_loaded(m, units.drop_last(), style), units.last(), style)
    }
}

/// Nothing learned yet.
pub open spec fn empty_info() -> InfoModel {
    InfoModel {
        lines: Map::empty(),
        dwarf: crate::elf_items::TableModel { by_addr: Map::empty(), by_name: Map::empty() },
        elf: crate::elf_items::TableModel { by_addr: Map::empty(), by_name: Map::empty() },
        files: Seq::empty(),
        regions: Seq::empty(),
        statics: Map::empty(),
        globals: Seq::empty(),
        rtt: None,
    }
}

/// What is learned from an object file: the regions of its sections, then
/// its symbols, then its compilation units.
pub open spec fn loaded(obj: ObjectFile, style: PathStyle) -> InfoModel {
    units_loaded(
        symbols_loaded(
            InfoModel { regions: regions_of(obj.sections@), ..empty_info() },
            obj.symbols@,
        ),
        obj.units@,
        style,
    )
}

/// The events of one symbol: one event if it is the RTT control block.
pub proof fn lemma_rtt_events_one(symbol: ObjSymbol, session_id: Seq<char>)
    ensures
        rtt_events(seq![symbol], session_id) == match symbol_of(symbol) {
            Some(sym) => if is_rtt(sym) {
                seq![EventModel::RTTFound { session_id, address: hex_address(sym.address) }]
            } else {
                Seq::empty()
            },
            None => Seq::empty(),
        },
{
    reveal_with_fuel(rtt_events, 2);
    let one = seq![symbol];
    assert(one.drop_last() =~= Seq::<ObjSymbol>::empty());
    assert(one.last() == symbol);
    assert(rtt_events(one.drop_last(), session_id) =~= Seq::<EventModel>::empty());
    match symbol_of(symbol) {
        Some(sym) => {
            if is_rtt(sym) {
                let e = EventModel::RTTFound { session_id, address: hex_address(sym.address) };
                assert(Seq::<EventModel>::empty().push(e) =~= seq![e]);
            }
        },
        None => {},
    }
}

/// The events as mathematical values.
pub open spec fn event_models(events: Seq<HelperEvent>) -> Seq<EventModel> {
    events.map_values(|e: HelperEvent| e@)
}

/// Adds the regions of the sections that take up memory.
pub fn load_sections(info: &mut ObjectInfo, sections: &Vec<ObjSection>)
    requires
        old(info).wf(),
    ensures
        final(info).wf(),
        final(info).model() == (InfoModel {
            regions: old(info).model().regions + regions_of(sections@),
            ..old(info).model()
        }),
{
    let ghost before = info.model();
    let mut i: usize = 0;
    assert(sections@.take(0) =~= Seq::<ObjSection>::empty());
    assert(before.regions + regions_of(sections@.take(0)) =~= before.regions);
    while i < sections.len()
        invariant
            i <= sections.len(),
            info.wf(),
            info.model() == (InfoModel {
                regions: before.regions + regions_of(sections@.take(i as int)),
                ..before
            }),
        decreases sections.len() - i,
    {
        let section = &sections[i];
        proof {
            assert(sections@.take(i + 1).drop_last() =~= sections@.take(i as int));
            assert(sections@.take(i + 1).last() == sections@[i as int]);
        }
        if section.size > 0 {
            let ghost old_regions = info.regions();
            let region = MemoryRegion::new(
                section.name.clone(),
                section.address,
                section.size,
                section.align,
            );
            info.memory_ranges.push(region);
            proof {
                assert(info.regions() =~= old_regions.push(region_of(*section)));
                assert(before.regions + regions_of(sections@.take(i + 1)) =~= (before.regions
                    + regions_of(sections@.take(i as int))).push(region_of(*section)));
            }
        }
        i += 1;
    }
    assert(sections@.take(sections.len() as int) =~= sections@);
}

fn rtt_name(name: &str) -> (r: bool)
    ensures
        r == (name@ == "_SEGGER_RTT"@ || name@ == "SEGGER_RTT"@),
{
    str_equal(name, "_SEGGER_RTT") || str_equal(name, "SEGGER_RTT")
}

/// Takes in one symbol of the object file, and adds the event that it
/// gives rise to, if any, to `events`.
pub fn load_symbol(
    info: &mut ObjectInfo,
    symbol: &ObjSymbol,
    session_id: &str,
    events: &mut Vec<HelperEvent>,
)
    requires
        old(info).wf(),
    ensures
        final(info).wf(),
        final(info).model() == symbol_step(old(info).model(), *symbol),
        event_models(final(events)@) == event_models(old(events)@) + rtt_events(
            seq![*symbol],
            session_id@,
        ),
{
    let ghost one = seq![*symbol];
    proof {
        lemma_rtt_events_one(*symbol, session_id@);
        assert(event_models(events@) + Seq::<EventModel>::empty() =~= event_models(events@));
    }
    let kind = match symbol.kind {
        ObjSymbolKind::Text => SymbolType::Function,
        ObjSymbolKind::Data => SymbolType::Data,
        ObjSymbolKind::Other => {
            return ;
        },
    };
    let raw: String = match &symbol.name {
        Some(name) => name.clone(),
        None => {
            return ;
        },
    };
    let scope = if symbol.is_global {
        SymbolScope::Global
    } else if symbol.is_local {
        SymbolScope::Static
    } else {
        SymbolScope::Unknown
    };
    let dname = demangle(Some(raw));
    let found = kind == SymbolType::Data && rtt_name(dname.as_str());
    info.elf_symbols.insert(
        Symbol { name: dname, address: symbol.address, size: symbol.size, kind, scope },
    );
    if found {
        info.rtt_symbol_address = Some(symbol.address);
        let ghost old_events = events@;
        let event = HelperEvent::RTTFound {
            session_id: session_id.to_owned(),
            address: hex_address_text(symbol.address),
        };
        events.push(event);
        proof {
            assert(event_models(events@) =~= event_models(old_events).push(event@));
            assert(event_models(old_events) + seq![event@] =~= event_models(old_events).push(
                event@,
            ));
        }
    }
}

fn unit_file<'a>(files: &'a Vec<UnitFile>, index: u64) -> (r: Option<&'a String>)
    ensures
        match r {
            Some(p) => file_entry(files@, index) == Some(p@),
            None => file_entry(files@, index) is None,
        },
{
    let mut i: usize = 0;
    assert(files@.skip(0) =~= files@);
    while i < files.len()
        invariant
            i <= files.len(),
            file_entry(files@, index) == file_entry(files@.skip(i as int), index),
        decreases files.len() - i,
    {
        assert(files@.skip(i as int)[0] == files@[i as int]);
        assert(files@.skip(i as int).skip(1) =~= files@.skip(i + 1));
        if files[i].index == index {
            return Some(&files[i].resolved_path);
        }
        i += 1;
    }
    None
}

/// The id that a row with the file number `index` gets, given the table
/// of source files as it stands: that of the file's written name once it
/// is interned, or zero where the unit has no file of that number.
pub open spec fn file_id_for(
    files: Seq<UnitFile>,
    index: u64,
    paths: Seq<Seq<char>>,
    style: PathStyle,
) -> u32 {
    match file_entry(files, index) {
        Some(path) => id_in(interned(paths, finished(path, style)), finished(path, style)),
        None => 0,
    }
}

/// Whether the ids that a unit remembers for its file numbers are those
/// that the table of source files gives, and the table holds their files
/// as far as it can.
pub open spec fn cache_valid(
    cache: Map<u64, u32>,
    files: Seq<UnitFile>,
    paths: Seq<Seq<char>>,
    style: PathStyle,
) -> bool {
    forall|index: u64| #[trigger]
        cache.dom().contains(index) ==> {
            &&& cache[index] == file_id_for(files, index, paths, style)
            &&& match file_entry(files, index) {
                Some(path) => interned(paths, finished(path, style)) == paths,
                None => true,
            }
        }
}

/// Takes in one row of a line program. `cache` holds the ids of the file
/// numbers of the unit that were resolved before; a file is interned when
/// its number comes first.
pub fn load_line_row(
    info: &mut ObjectInfo,
    files: &Vec<UnitFile>,
    row: &LineRow,
    style: PathStyle,
    cache: &mut HashMap<u64, u32>,
)
    requires
        old(info).wf(),
        cache_valid(old(cache)@, files@, old(info).file_table.paths(), style),
    ensures
        final(info).wf(),
        final(info).model() == row_step(old(info).model(), files@, *row, style),
        cache_valid(final(cache)@, files@, final(info).file_table.paths(), style),
{
    if row.is_stmt && row.line > 0 {
        let ghost old_paths = info.file_table.paths();
        let ghost old_cache = cache@;
        let known: Option<u32> = match cache.get(&row.file_index) {
            Some(id) => Some(*id),
            None => None,
        };
        let id: u32 = match known {
            Some(id) => {
                assert(old_cache.dom().contains(row.file_index));
                id
            },
            None => {
                let id: u32 = match unit_file(files, row.file_index) {
                    Some(path) => {
                        let id = info.file_table.intern(path.as_str(), style);
                        proof {
                            old(info).file_table.lemma_distinct();
                            let c = finished(path@, style);
                            lemma_intern_again(old_paths, c);
                            let new_paths = info.file_table.paths();
                            assert forall|index: u64| #[trigger]
                                old_cache.dom().contains(index) implies {
                                &&& old_cache[index] == file_id_for(files@, index, new_paths, style)
                                &&& match file_entry(files@, index) {
                                    Some(p) => interned(new_paths, finished(p, style)) == new_paths,
                                    None => true,
                                }
                            } by {
                                match file_entry(files@, index) {
                                    Some(p) => {
                                        let d = finished(p, style);
                                        assert(interned(old_paths, d) == old_paths);
                                        if old_paths.contains(d) {
                                            assert(new_paths.contains(d)) by {
                                                let k = old_paths.index_of(d);
                                                assert(new_paths[k] == d);
                                            }
                                        }
                                    },
                                    None => {},
                                }
                            }
                        }
                        id
                    },
                    None => 0,
                };
                cache.insert(row.file_index, id);
                id
            },
        };
        info.addr_to_line.append_or_insert(row.address, id, row.line);
    }
}

fn entry_name_text(entry: &DebugEntry) -> (r: String)
    ensures
        r@ == entry_name(*entry),
{
    let raw: Option<String> = match &entry.linkage_name {
        Some(n) => Some(n.clone()),
        None => match &entry.name {
            Some(n) => Some(n.clone()),
            None => None,
        },
    };
    demangle(raw)
}

/// Takes in one entry of the debug information of a unit whose source file
/// is `source_file`.
pub fn process_dwarf_entry(entry: &DebugEntry, source_file: &CanonicalPath, info: &mut ObjectInfo)
    requires
        old(info).wf(),
    ensures
        final(info).wf(),
        final(info).model() == entry_step(old(info).model(), *entry, source_file@),
{
    match entry.tag {
        DieTag::Subprogram => {
            let low: u64 = match entry.low_pc {
                Some(low) => low,
                None => {
                    return ;
                },
            };
            let existing: Option<Arc<Symbol>> = match info.elf_symbols.lookup_shared(low) {
                Some(s) => Some(share(s)),
                None => None,
            };
            match existing {
                Some(s) => {
                    info.dwarf_symbols.insert_shared(s);
                },
                None => {
                    let size: u64 = match entry.high_pc {
                        Some(HighPc::Address(h)) => if h > low {
                            h - low
                        } else {
                            0
                        },
                        Some(HighPc::Offset(size)) => size,
                        None => 0,
                    };
                    if size > 0 {
                        let name = entry_name_text(entry);
                        info.dwarf_symbols.insert(
                            Symbol {
                                name,
                                address: low,
                                size,
                                kind: SymbolType::Function,
                                scope: SymbolScope::Global,
                            },
                        );
                    }
                },
            }
        },
        DieTag::Variable => {
            let name = entry_name_text(entry);
            let existing: Option<Arc<Symbol>> = match info.elf_symbols.get_shared_by_name(
                name.as_str(),
            ) {
                Some(s) => Some(share(s)),
                None => None,
            };
            match existing {
                Some(s) => {
                    if s.kind == SymbolType::Data {
                        let ghost old_globals = info.globals();
                        info.dwarf_symbols.insert_shared(share(&s));
                        match s.scope {
                            SymbolScope::Global => {
                                info.global_symbols.push(s);
                                assert(info.globals() =~= old_globals.push(s@));
                            },
                            SymbolScope::Static => {
                                info.static_file_mapping.insert(source_file, s);
                            },
                            SymbolScope::Unknown => {},
                        }
                    }
                },
                None => {},
            }
        },
        DieTag::Other => {},
    }
}

/// Takes in one compilation unit: its line program, then its entries.
pub fn load_unit(info: &mut ObjectInfo, unit: &CompilationUnit, style: PathStyle)
    requires
        old(info).wf(),
    ensures
        final(info).wf(),
        final(info).model() == unit_step(old(info).model(), *unit, style),
{
    let ghost before = info.model();
    let mut cache: HashMap<u64, u32> = HashMap::new();
    let mut i: usize = 0;
    assert(unit.rows@.take(0) =~= Seq::<LineRow>::empty());
    while i < unit.rows.len()
        invariant
            i <= unit.rows.len(),
            info.wf(),
            cache_valid(cache@, unit.files@, info.file_table.paths(), style),
            info.model() == rows_loaded(before, unit.files@, unit.rows@.take(i as int), style),
        decreases unit.rows.len() - i,
    {
        proof {
            assert(unit.rows@.take(i + 1).drop_last() =~= unit.rows@.take(i as int));
            assert(unit.rows@.take(i + 1).last() == unit.rows@[i as int]);
        }
        load_line_row(info, &unit.files, &unit.rows[i], style, &mut cache);
        i += 1;
    }
    assert(unit.rows@.take(unit.rows.len() as int) =~= unit.rows@);
    let source_file = CanonicalPath::new(unit.source_file.as_str(), style);
    let ghost middle = info.model();
    let mut j: usize = 0;
    assert(unit.entries@.take(0) =~= Seq::<DebugEntry>::empty());
    while j < unit.entries.len()
        invariant
            j <= unit.entries.len(),
            info.wf(),
            source_file@ == finished(unit.source_file@, style),
            info.model() == entries_loaded(middle, unit.entries@.take(j as int), source_file@),
        decreases unit.entries.len() - j,
    {
        proof {
            assert(unit.entries@.take(j + 1).drop_last() =~= unit.entries@.take(j as int));
            assert(unit.entries@.take(j + 1).last() == unit.entries@[j as int]);
        }
        process_dwarf_entry(&unit.entries[j], &source_file, info);
        j += 1;
    }
    assert(unit.entries@.take(unit.entries.len() as int) =~= unit.entries@);
}

/// One event after the other, the events of reading the last symbol come
/// after those of the symbols before it.
pub proof fn lemma_rtt_events_push(symbols: Seq<ObjSymbol>, last: ObjSymbol, session_id: Seq<char>)
    ensures
        rtt_events(symbols.push(last), session_id) == rtt_events(symbols, session_id) + rtt_events(
            seq![last],
            session_id,
        ),
{
    let all = symbols.push(last);
    assert(all.drop_last() =~= symbols);
    assert(all.last() == last);
    lemma_rtt_events_one(last, session_id);
    assert(rtt_events(symbols, session_id) + Seq::<EventModel>::empty() =~= rtt_events(
        symbols,
        session_id,
    ));
    match symbol_of(last) {
        Some(sym) => {
            if is_rtt(sym) {
                let e = EventModel::RTTFound { session_id, address: hex_address(sym.address) };
                assert(rtt_events(symbols, session_id) + seq![e] =~= rtt_events(
                    symbols,
                    session_id,
                ).push(e));
            }
        },
        None => {},
    }
}

/// Loads what an object file holds: the regions of its sections, its
/// symbols, and its compilation units, in this order. The events name each
/// RTT control block among the symbols, in the order of the symbols.
pub fn load_elf_info(obj: &ObjectFile, style: PathStyle, session_id: &str) -> (r: (
    ObjectInfo,
    Vec<HelperEvent>,
))
    ensures
        r.0.wf(),
        r.0.model() == loaded(*obj, style),
        event_models(r.1@) == rtt_events(obj.symbols@, session_id@),
{
    let mut info = ObjectInfo::new();
    let mut events: Vec<HelperEvent> = Vec::new();
    assert(info.model() == empty_info());
    load_sections(&mut info, &obj.sections);
    let ghost start = info.model();
    assert(start.regions =~= regions_of(obj.sections@));
    let mut i: usize = 0;
    assert(obj.symbols@.take(0) =~= Seq::<ObjSymbol>::empty());
    assert(event_models(events@) =~= rtt_events(obj.symbols@.take(0), session_id@));
    while i < obj.symbols.len()
        invariant
            i <= obj.symbols.len(),
            info.wf(),
            info.model() == symbols_loaded(start, obj.symbols@.take(i as int)),
            event_models(events@) == rtt_events(obj.symbols@.take(i as int), session_id@),
        decreases obj.symbols.len() - i,
    {
        proof {
            assert(obj.symbols@.take(i + 1).drop_last() =~= obj.symbols@.take(i as int));
            assert(obj.symbols@.take(i + 1).last() == obj.symbols@[i as int]);
            assert(obj.symbols@.take(i + 1) =~= obj.symbols@.take(i as int).push(
                obj.symbols@[i as int],
            ));
            lemma_rtt_events_push(obj.symbols@.take(i as int), obj.symbols@[i as int], session_id@);
        }
        load_symbol(&mut info, &obj.symbols[i], session_id, &mut events);
        i += 1;
    }
    assert(obj.symbols@.take(obj.symbols.len() as int) =~= obj.symbols@);
    let ghost middle = info.model();
    let mut j: usize = 0;
    assert(obj.units@.take(0) =~= Seq::<CompilationUnit>::empty());
    while j < obj.units.len()
        invariant
            j <= obj.units.len(),
            info.wf(),
            info.model() == units_loaded(middle, obj.units@.take(j as int), style),
        decreases obj.units.len() - j,
    {
        proof {
            assert(obj.units@.take(j + 1).drop_last() =~= obj.units@.take(j as int));
            assert(obj.units@.take(j + 1).last() == obj.units@[j as int]);
        }
        load_unit(&mut info, &obj.units[j], style);
        j += 1;
    }
    assert(obj.units@.take(obj.units.len() as int) =~= obj.units@);
    (info, events)
}

/// What was learned with the last step done: the globals, and the statics
/// of each file, in name order.
pub open spec fn finalized(m: InfoModel) -> InfoModel {
    InfoModel {
        globals: sorted_by_name(m.globals),
        statics: m.statics.map_values(|s: Seq<SymbolModel>| sorted_by_name(s)),
        ..m
    }
}

/// The events of loading, in the order in which they are to be sent: one
/// for each RTT control block among the symbols, then the one that says
/// that the symbols are ready.
pub open spec fn startup_events(
    symbols: Seq<ObjSymbol>,
    session_id: Seq<char>,
    version: Seq<char>,
) -> Seq<EventModel> {
    rtt_events(symbols, session_id).push(EventModel::SymbolTableReady { session_id, version })
}

/// Each event that the symbols give rise to says that an RTT control block
/// was found.
pub proof fn lemma_rtt_events_kind(symbols: Seq<ObjSymbol>, session_id: Seq<char>, i: int)
    requires
        0 <= i < rtt_events(symbols, session_id).len(),
    ensures
        rtt_events(symbols, session_id)[i] is RTTFound,
    decreases symbols.len(),
{
    if symbols.len() > 0 {
        let before = rtt_events(symbols.drop_last(), session_id);
        if i < before.len() {
            lemma_rtt_events_kind(symbols.drop_last(), session_id, i);
        }
    }
}

/// Among the events of loading, the one that says that the symbols are
/// ready is the last, and there is no other of its kind: whatever says
/// that an RTT control block was found comes before it.
pub proof fn lemma_startup_order(
    symbols: Seq<ObjSymbol>,
    session_id: Seq<char>,
    version: Seq<char>,
    i: int,
)
    requires
        0 <= i < startup_events(symbols, session_id, version).len(),
    ensures
        startup_events(symbols, session_id, version).last() is SymbolTableReady,
        i < startup_events(symbols, session_id, version).len() - 1 ==> startup_events(
            symbols,
            session_id,
            version,
        )[i] is RTTFound,
{
    if i < rtt_events(symbols, session_id).len() {
        lemma_rtt_events_kind(symbols, session_id, i);
    }
}

/// Loads what an object file holds and brings the globals and statics into
/// name order. The events are those of `startup_events`, in the order in
/// which they are to be sent.
pub fn ingest(obj: &ObjectFile, style: PathStyle, session_id: &str, version: &str) -> (r: (
    ObjectInfo,
    Vec<HelperEvent>,
))
    ensures
        r.0.wf(),
        r.0.model() == finalized(loaded(*obj, style)),
        in_name_order(r.0.globals()),
        event_models(r.1@) == startup_events(obj.symbols@, session_id@, version@),
{
    let (mut info, mut events) = load_elf_info(obj, style, session_id);
    info.sort_globals_and_statics();
    let ghost old_events = events@;
    let ready = HelperEvent::SymbolTableReady {
        session_id: session_id.to_owned(),
        version: version.to_owned(),
    };
    events.push(ready);
    assert(event_models(events@) =~= event_models(old_events).push(ready@));
    (info, events)
}

/// The name of a file of a line program: the directory, where it has one,
/// with a slash behind it, and then the file's own name.
pub open spec fn joined_path(directory: Option<Seq<char>>, file_name: Option<Seq<char>>) -> Seq<
    char,
> {
    let front = match directory {
        Some(d) => d.push('/'),
        None => Seq::empty(),
    };
    match file_name {
        Some(f) => front + f,
        None => front,
    }
}

/// The name of a file of a line program, from the entry of its directory
/// and its own name.
pub fn join_file_path(directory: Option<&str>, file_name: Option<&str>) -> (r: String)
    ensures
        r@ == joined_path(
            match directory {
                Some(d) => Some(d@),
                None => None,
            },
            match file_name {
                Some(f) => Some(f@),
                None => None,
            },
        ),
{
    let mut out: Vec<char> = Vec::new();
    match directory {
        Some(d) => {
            push_all(&mut out, &chars_of(d));
            out.push('/');
        },
        None => {},
    }
    match file_name {
        Some(f) => {
            push_all(&mut out, &chars_of(f));
        },
        None => {},
    }
    proof {
        assert(out@ =~= joined_path(
            match directory {
                Some(d) => Some(d@),
                None => None,
            },
            match file_name {
                Some(f) => Some(f@),
                None => None,
            },
        ));
    }
    string_of(&out)
}

/// Whether a name stands for itself without a directory in front: it
/// starts with a slash or with a drive.
pub open spec fn rooted(name: Seq<char>) -> bool {
    (name.len() >= 1 && (name[0] == '/' || name[0] == '\\')) || (name.len() >= 2 && name[1] == ':')
}

/// The name of the source file of a compilation unit: the unit's name,
/// behind the directory in which it was compiled unless the name stands for
/// itself.
pub open spec fn source_path(comp_dir: Option<Seq<char>>, name: Option<Seq<char>>) -> Seq<char> {
    match name {
        Some(n) => if rooted(n) {
            n
        } else {
            joined_path(comp_dir, name)
        },
        None => joined_path(comp_dir, name),
    }
}

/// The name of the source file of a compilation unit.
pub fn unit_source_path(comp_dir: Option<&str>, name: Option<&str>) -> (r: String)
    ensures
        r@ == source_path(
            match comp_dir {
                Some(d) => Some(d@),
                None => None,
            },
            match name {
                Some(n) => Some(n@),
                None => None,
            },
        ),
{
    match name {
        Some(n) => {
            let chars = chars_of(n);
            let is_rooted = (chars.len() >= 1 && (chars[0] == '/' || chars[0] == '\\')) || (
            chars.len() >= 2 && chars[1] == ':');
            if is_rooted {
                return string_of(&chars);
            }
        },
        None => {},
    }
    join_file_path(comp_dir, name)
}

} // verus!
