//! The messages that go between the helper and the debug adapter, as plain
//! values. The field names are those of the wire format.

use std::collections::HashMap;
use vstd::prelude::*;

verus! {

/// The arguments of a request for disassembly, as the debug adapter
/// protocol has them.
#[allow(non_snake_case)]
#[derive(Debug)]
pub struct DisassembleArguments {
    /// The reference address, in base sixteen.
    pub memoryReference: String,
    /// An offset in bytes to the reference address; it may be negative.
    pub offset: Option<i32>,
    /// An offset in instructions, applied after the offset in bytes; it may
    /// be negative.
    pub instructionOffset: Option<i32>,
    /// The number of instructions asked for.
    pub instructionCount: i32,
    /// Whether addresses are to be shown as symbols.
    pub resolveSymbols: Option<bool>,
}

/// A request for disassembly.
#[derive(Debug)]
pub struct DisassembleRequest {
    pub req: String,
    pub seq: u64,
    pub arguments: DisassembleArguments,
}

/// A request for the globals.
#[derive(Debug)]
pub struct GlobalsRequest {
    pub req: String,
    pub seq: u64,
}

/// The globals, each as its name and its address in base sixteen.
#[derive(Debug)]
pub struct GlobalsResponse {
    pub req: String,
    pub seq: u64,
    pub globals: Vec<(String, String)>,
}

/// A request for the statics of a source file.
#[derive(Debug)]
pub struct StaticsRequest {
    pub req: String,
    pub seq: u64,
    pub file_name: String,
}

/// The statics of a source file, each as its name and its address in base
/// sixteen.
#[derive(Debug)]
pub struct StaticsResponse {
    pub req: String,
    pub seq: u64,
    pub statics: Vec<(String, String)>,
}

/// A request for a symbol by its name.
#[derive(Debug)]
pub struct SymbolLookupNameRequest {
    pub req: String,
    pub seq: u64,
    pub name: String,
    pub file_name: Option<String>,
}

/// A request for a symbol by an address, in base sixteen.
#[derive(Debug)]
pub struct SymbolLookupAddressRequest {
    pub req: String,
    pub seq: u64,
    pub address: String,
}

/// The symbols found, each as its name and its address in base sixteen.
#[derive(Debug)]
pub struct SymbolLookupResponse {
    pub req: String,
    pub seq: u64,
    pub symbols: Vec<(String, String)>,
}

/// One instruction of a response, under short names, since a response holds
/// hundreds: `a` address, `b` bytes, `i` instruction text, `f` function id,
/// `o` offset in the function, `F` file id, `sl` and `el` first and last
/// source line. A negative id or line says that the value is not known.
#[allow(non_snake_case)]
#[derive(Debug)]
pub struct SerInstruction {
    pub a: String,
    pub b: String,
    pub i: String,
    pub f: i32,
    pub o: u32,
    pub F: i32,
    pub sl: i32,
    pub el: i32,
}

/// The answer to a request for disassembly. The two tables give the names
/// of the files and functions whose ids occur in the instructions.
#[derive(Debug)]
pub struct DisasmResponse {
    pub req: String,
    pub seq: u64,
    pub file_table: HashMap<u32, String>,
    pub func_table: HashMap<u32, String>,
    pub instructions: Vec<SerInstruction>,
}

/// What the helper tells the debug adapter of its own accord.
#[allow(non_snake_case)]
#[allow(inconsistent_fields)]
#[derive(Debug)]
pub enum HelperEvent {
    /// The symbols are loaded.
    SymbolTableReady { session_id: String, version: String },
    /// The disassembly is loaded and carries its source lines.
    DisassemblyReady { session_id: String, instruction_count: u64 },
    /// The RTT control block stands at `address`, given in base sixteen.
    RTTFound { session_id: String, address: String },
    /// How far an operation has come.
    Progress {
        session_id: String,
        operation: String,
        percentage: Option<u32>,
        message: Option<String>,
    },
    /// Text for the debug console.
    Output { session_id: String, category: String, message: String },
    /// Something went wrong.
    Error { session_id: String, code: Option<String>, message: String, details: Option<String> },
    /// A message for the log.
    Log { session_id: String, level: String, message: String },
}

/// An event as far as its kind and the values that the helper itself sets
/// go.
pub enum EventModel {
    SymbolTableReady { session_id: Seq<char>, version: Seq<char> },
    DisassemblyReady { session_id: Seq<char>, instruction_count: u64 },
    RTTFound { session_id: Seq<char>, address: Seq<char> },
    Other,
}

impl View for HelperEvent {
    type V = EventModel;

    open spec fn view(&self) -> EventModel {
        match self {
            HelperEvent::SymbolTableReady { session_id, version } => EventModel::SymbolTableReady {
                session_id: session_id@,
                version: version@,
            },
            HelperEvent::DisassemblyReady {
                session_id,
                instruction_count,
            } => EventModel::DisassemblyReady {
                session_id: session_id@,
                instruction_count: *instruction_count,
            },
            HelperEvent::RTTFound { session_id, address } => EventModel::RTTFound {
                session_id: session_id@,
                address: address@,
            },
            _ => EventModel::Other,
        }
    }
}

} // verus!
