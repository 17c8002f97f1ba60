//! Symbol, source-line and disassembly database for an embedded-target
//! debug adapter, with machine-checked contracts.

pub mod addr_map;
pub mod capstone;
pub mod debug;
pub mod demangle;
pub mod disasm_serializer;
pub mod disasm_worker;
pub mod elf_items;
pub mod get_assembly;
pub mod helper_requests;
pub mod instr;
pub mod instrdb;
pub mod loader;
pub mod memory;
pub mod name_map;
pub mod objdump;
pub mod protocol;
pub mod request_handler;
pub mod service;
pub mod symbols;
pub mod text;
pub mod transport;
pub mod utils;

pub use elf_items::ObjectInfo;
pub use get_assembly::AssemblyListing;
