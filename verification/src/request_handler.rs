//! What to do with a request: which kind it is, what it asks of the worker,
//! and the answers that are made from the object info.

use crate::elf_items::{models, ObjectInfo};
use crate::helper_requests::{
    DisassembleRequest, GlobalsRequest, GlobalsResponse, StaticsRequest, StaticsResponse,
    SymbolLookupAddressRequest, SymbolLookupNameRequest, SymbolLookupResponse,
};
use crate::protocol::DisasmRequest;
use crate::symbols::{Symbol, SymbolModel};
use crate::text::{
    chars_of, hex_address, hex_address_text, parse_hex_u64, parse_radix16, slice_of, str_equal,
    trim, trimmed,
};
use crate::utils::{finished, CanonicalPath, PathStyle};
use std::sync::Arc;
use vstd::prelude::*;

verus! {

/// The kinds of requests.
#[derive(Clone, Copy, PartialEq, Eq, Structural, Debug)]
pub enum RequestKind {
    Disassemble,
    Globals,
    Statics,
    SymbolLookup,
    Unknown,
}

/// The kind that a name stands for: `disasm` and `disassemble` ask for
/// disassembly, `globals`, `statics` and `symbolLookup` for what they say.
pub open spec fn kind_of_name(name: Seq<char>) -> RequestKind {
    if name == "disasm"@ || name == "disassemble"@ {
        RequestKind::Disassemble
    } else if name == "globals"@ {
        RequestKind::Globals
    } else if name == "statics"@ {
        RequestKind::Statics
    } else if name == "symbolLookup"@ {
        RequestKind::SymbolLookup
    } else {
        RequestKind::Unknown
    }
}

/// The kind of a message: that of its field `req`, or, where it has none,
/// that of its field `command`.
pub open spec fn request_kind(req: Option<Seq<char>>, command: Option<Seq<char>>) -> RequestKind {
    match req {
        Some(name) => kind_of_name(name),
        None => match command {
            Some(name) => kind_of_name(name),
            None => RequestKind::Unknown,
        },
    }
}

fn kind_of(name: &str) -> (r: RequestKind)
    ensures
        r == kind_of_name(name@),
{
    if str_equal(name, "disasm") || str_equal(name, "disassemble") {
        RequestKind::Disassemble
    } else if str_equal(name, "globals") {
        RequestKind::Globals
    } else if str_equal(name, "statics") {
        RequestKind::Statics
    } else if str_equal(name, "symbolLookup") {
        RequestKind::SymbolLookup
    } else {
        RequestKind::Unknown
    }
}

/// The kind of a message with the given fields `req` and `command`.
pub fn classify_request(req: Option<&str>, command: Option<&str>) -> (r: RequestKind)
    ensures
        r == request_kind(
            match req {
                Some(n) => Some(n@),
                None => None,
            },
            match command {
                Some(n) => Some(n@),
                None => None,
            },
        ),
{
    match req {
        Some(name) => kind_of(name),
        None => match command {
            Some(name) => kind_of(name),
            None => RequestKind::Unknown,
        },
    }
}

/// The address that a text gives in base sixteen: white space at its ends
/// does not count, nor does `0x` in front; the rest is a number of base
/// sixteen that fits.
pub open spec fn hex_address_value(input: Seq<char>) -> Option<u64> {
    let t = trimmed(input);
    if t.len() >= 2 && t[0] == '0' && t[1] == 'x' {
        parse_radix16(t.skip(2))
    } else {
        parse_radix16(t)
    }
}

/// Reads an address in base sixteen.
pub fn parse_hex_address(input: &str) -> (r: Option<u64>)
    ensures
        r == hex_address_value(input@),
{
    let t = trim(&chars_of(input));
    if t.len() >= 2 && t[0] == '0' && t[1] == 'x' {
        assert(t@.skip(2) == t@.subrange(2, t@.len() as int));
        parse_hex_u64(&slice_of(&t, 2, t.len()))
    } else {
        parse_hex_u64(&t)
    }
}

/// An address moved by an offset in bytes, kept within the range of
/// addresses.
pub open spec fn moved(base: u64, offset: int) -> u64 {
    if base + offset < 0 {
        0
    } else if base + offset > u64::MAX {
        u64::MAX
    } else {
        (base + offset) as u64
    }
}

/// What a request for disassembly asks of the worker: the reference
/// address, the address with the offset in bytes applied, the offset in
/// instructions (zero where absent) and the count (zero where negative).
/// `None` where the reference is no address.
pub open spec fn internal_request(req: DisassembleRequest) -> Option<DisasmRequest> {
    match hex_address_value(req.arguments.memoryReference@) {
        Some(base) => Some(
            DisasmRequest {
                memory_reference: base,
                start_addr: moved(
                    base,
                    match req.arguments.offset {
                        Some(o) => o as int,
                        None => 0,
                    },
                ),
                instr_offset: match req.arguments.instructionOffset {
                    Some(o) => o as i64,
                    None => 0,
                },
                instr_count: if req.arguments.instructionCount > 0 {
                    req.arguments.instructionCount as u64
                } else {
                    0
                },
                seq_id: req.seq,
            },
        ),
        None => None,
    }
}

/// What a request for disassembly asks of the worker.
pub fn convert_to_internal_disasm_request(req: &DisassembleRequest) -> (r: Option<DisasmRequest>)
    ensures
        r == internal_request(*req),
{
    let base_addr: u64 = match parse_hex_address(req.arguments.memoryReference.as_str()) {
        Some(a) => a,
        None => {
            return None;
        },
    };
    let start_addr: u64 = match req.arguments.offset {
        Some(offset) => {
            if offset < 0 {
                let down: u64 = (-(offset as i64)) as u64;
                base_addr.saturating_sub(down)
            } else {
                base_addr.saturating_add(offset as u64)
            }
        },
        None => base_addr,
    };
    let instr_offset: i64 = match req.arguments.instructionOffset {
        Some(o) => o as i64,
        None => 0,
    };
    let instr_count: u64 = if req.arguments.instructionCount > 0 {
        req.arguments.instructionCount as u64
    } else {
        0
    };
    Some(
        DisasmRequest {
            memory_reference: base_addr,
            start_addr,
            instr_offset,
            instr_count,
            seq_id: req.seq,
        },
    )
}

/// A symbol as a response lists it: its name, and its address as `0x` and
/// digits of base sixteen.
pub open spec fn pair_of(s: SymbolModel) -> (Seq<char>, Seq<char>) {
    (s.name, hex_address(s.address))
}

/// The pairs of a response as mathematical values.
pub open spec fn pair_models(pairs: Seq<(String, String)>) -> Seq<(Seq<char>, Seq<char>)> {
    pairs.map_values(|p: (String, String)| (p.0@, p.1@))
}

fn pair(symbol: &Symbol) -> (r: (String, String))
    ensures
        (r.0@, r.1@) == pair_of(symbol@),
{
    (symbol.name.clone(), hex_address_text(symbol.address))
}

/// The symbols as a response lists them, in their order.
pub fn symbol_pairs(symbols: &Vec<Arc<Symbol>>) -> (r: Vec<(String, String)>)
    ensures
        pair_models(r@) == models(symbols@).map_values(|s: SymbolModel| pair_of(s)),
{
    let mut out: Vec<(String, String)> = Vec::new();
    let ghost all = models(symbols@);
    let mut i: usize = 0;
    assert(pair_models(out@) =~= all.take(0).map_values(|s: SymbolModel| pair_of(s)));
    while i < symbols.len()
        invariant
            i <= symbols.len(),
            all == models(symbols@),
            pair_models(out@) == all.take(i as int).map_values(|s: SymbolModel| pair_of(s)),
        decreases symbols.len() - i,
    {
        let ghost old_out = out@;
        let p = pair(&symbols[i]);
        out.push(p);
        proof {
            assert(pair_models(out@) =~= pair_models(old_out).push((p.0@, p.1@)));
            assert(all.take(i + 1).map_values(|s: SymbolModel| pair_of(s)) =~= all.take(
                i as int,
            ).map_values(|s: SymbolModel| pair_of(s)).push(pair_of(all[i as int])));
        }
        i += 1;
    }
    assert(all.take(symbols.len() as int) =~= all);
    out
}

/// The answer to a request for the globals: all of them, in the order in
/// which the object info holds them.
pub fn handle_globals_request(req: &GlobalsRequest, obj_info: &ObjectInfo) -> (r: GlobalsResponse)
    requires
        obj_info.wf(),
    ensures
        r.req@ == "globals"@,
        r.seq == req.seq,
        pair_models(r.globals@) == obj_info.globals().map_values(|s: SymbolModel| pair_of(s)),
{
    GlobalsResponse {
        req: "globals".to_owned(),
        seq: req.seq,
        globals: symbol_pairs(&obj_info.global_symbols),
    }
}

/// The statics that the object info holds for a file; none for a file that
/// it does not know.
pub open spec fn statics_of(info: Map<Seq<char>, Seq<SymbolModel>>, file: Seq<char>) -> Seq<
    SymbolModel,
> {
    if info.dom().contains(file) {
        info[file]
    } else {
        Seq::empty()
    }
}

/// The answer to a request for the statics of a file. `resolved_file_name`
/// is the name of the request as the file system resolved it; the statics
/// are those under its written form.
pub fn handle_statics_request(
    req: &StaticsRequest,
    resolved_file_name: &str,
    style: PathStyle,
    obj_info: &ObjectInfo,
) -> (r: StaticsResponse)
    requires
        obj_info.wf(),
    ensures
        r.req@ == "statics"@,
        r.seq == req.seq,
        pair_models(r.statics@) == statics_of(
            obj_info.static_file_mapping.model(),
            finished(resolved_file_name@, style),
        ).map_values(|s: SymbolModel| pair_of(s)),
{
    let file = CanonicalPath::new(resolved_file_name, style);
    let statics = obj_info.static_file_mapping.get_statics_for_file(&file);
    StaticsResponse { req: "statics".to_owned(), seq: req.seq, statics: symbol_pairs(&statics) }
}

/// The answer to a request for a symbol by name: the symbol of that name
/// among those of the object file; no answer where there is none.
pub fn handle_symbol_lookup_request(req: &SymbolLookupNameRequest, obj_info: &ObjectInfo) -> (r:
    Option<SymbolLookupResponse>)
    requires
        obj_info.wf(),
    ensures
        match r {
            Some(response) => {
                &&& obj_info.elf_symbols.by_name().dom().contains(req.name@)
                &&& response.req@ == "symbolLookup"@
                &&& response.seq == req.seq
                &&& pair_models(response.symbols@) == seq![
                    pair_of(obj_info.elf_symbols.by_name()[req.name@]),
                ]
            },
            None => !obj_info.elf_symbols.by_name().dom().contains(req.name@),
        },
{
    match obj_info.elf_symbols.get_by_name(req.name.as_str()) {
        Some(symbol) => {
            let mut symbols: Vec<(String, String)> = Vec::new();
            let p = pair(symbol);
            symbols.push(p);
            assert(pair_models(symbols@) =~= seq![pair_of(symbol@)]);
            Some(
                SymbolLookupResponse { req: "symbolLookup".to_owned(), seq: req.seq, symbols },
            )
        },
        None => None,
    }
}

/// What a request for disassembly asks of the worker; `None` where its
/// reference is no address.
pub fn handle_disassemble_request(req: &DisassembleRequest) -> (r: Option<DisasmRequest>)
    ensures
        r == internal_request(*req),
{
    convert_to_internal_disasm_request(req)
}

/// A message that was read and taken apart.
#[derive(Debug)]
pub enum Request {
    Disassemble(DisassembleRequest),
    Globals(GlobalsRequest),
    /// A request for statics, with its file name as the file system
    /// resolved it.
    Statics { request: StaticsRequest, resolved_file_name: String },
    SymbolLookupByName(SymbolLookupNameRequest),
    SymbolLookupByAddress(SymbolLookupAddressRequest),
    /// A message of no known kind, or one that could not be taken apart.
    Unknown,
}

/// What is to be done about a request.
#[derive(Debug)]
pub enum Outcome {
    /// Hand the request to the worker.
    Forward(DisasmRequest),
    /// Send the answer.
    Globals(GlobalsResponse),
    /// Send the answer.
    Statics(StaticsResponse),
    /// Send the answer.
    Symbols(SymbolLookupResponse),
    /// Send nothing. `handled` says whether the request was understood.
    Nothing { handled: bool },
}

/// Decides what is to be done about a request.
///
/// - Disassembly goes to the worker, unless its reference is no address.
/// - Globals and statics are answered from the object info.
/// - A lookup by name is answered where the object file has a symbol of
///   that name. A lookup without an answer, and any lookup by address,
///   counts as understood.
/// - An unknown message is not understood.
pub fn dispatch_request(request: &Request, obj_info: &ObjectInfo, style: PathStyle) -> (r: Outcome)
    requires
        obj_info.wf(),
    ensures
        match *request {
            Request::Disassemble(req) => match internal_request(req) {
                Some(internal) => r == Outcome::Forward(internal),
                None => r == (Outcome::Nothing { handled: false }),
            },
            Request::Globals(req) => r matches Outcome::Globals(response) && {
                &&& response.req@ == "globals"@
                &&& response.seq == req.seq
                &&& pair_models(response.globals@) == obj_info.globals().map_values(
                    |s: SymbolModel| pair_of(s),
                )
            },
            Request::Statics { request, resolved_file_name } => r matches Outcome::Statics(
                response,
            ) && {
                &&& response.req@ == "statics"@
                &&& response.seq == request.seq
                &&& pair_models(response.statics@) == statics_of(
                    obj_info.static_file_mapping.model(),
                    finished(resolved_file_name@, style),
                ).map_values(|s: SymbolModel| pair_of(s))
            },
            Request::SymbolLookupByName(req) => if obj_info.elf_symbols.by_name().dom().contains(
                req.name@,
            ) {
                r matches Outcome::Symbols(response) && {
                    &&& response.req@ == "symbolLookup"@
                    &&& response.seq == req.seq
                    &&& pair_models(response.symbols@) == seq![
                        pair_of(obj_info.elf_symbols.by_name()[req.name@]),
                    ]
                }
            } else {
                r == (Outcome::Nothing { handled: true })
            },
            Request::SymbolLookupByAddress(_) => r == (Outcome::Nothing { handled: true }),
            Request::Unknown => r == (Outcome::Nothing { handled: false }),
        },
{
    match request {
        Request::Disassemble(req) => match handle_disassemble_request(req) {
            Some(internal) => Outcome::Forward(internal),
            None => Outcome::Nothing { handled: false },
        },
        Request::Globals(req) => Outcome::Globals(handle_globals_request(req, obj_info)),
        Request::Statics { request, resolved_file_name } => Outcome::Statics(
            handle_statics_request(request, resolved_file_name.as_str(), style, obj_info),
        ),
        Request::SymbolLookupByName(req) => match handle_symbol_lookup_request(req, obj_info) {
            Some(response) => Outcome::Symbols(response),
            None => Outcome::Nothing { handled: true },
        },
        Request::SymbolLookupByAddress(_) => Outcome::Nothing { handled: true },
        Request::Unknown => Outcome::Nothing { handled: false },
    }
}

} // verus!
