//! An instruction as a disassembler engine hands it out.

use vstd::prelude::*;

verus! {

/// One decoded instruction: where it stands, how many bytes it takes, its
/// mnemonic, its operands and its bytes.
#[derive(Debug)]
pub struct InstructionData {
    pub address: u64,
    pub size: u8,
    pub mnemonic: String,
    pub op_str: String,
    pub bytes: Vec<u8>,
}

} // verus!
