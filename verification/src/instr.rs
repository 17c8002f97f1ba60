//! An instruction as the instruction database holds it.

use vstd::prelude::*;

verus! {

/// An instruction with the function and the source line that it belongs
/// to.
#[derive(Debug)]
pub struct Instruction {
    pub address: u64,
    pub bytes: String,
    pub text: String,
    pub function_name: Option<String>,
    pub file_id: u32,
    pub line: u32,
}

impl Clone for Instruction {
    fn clone(&self) -> (r: Self)
        ensures
            r == *self,
    {
        Instruction {
            address: self.address,
            bytes: self.bytes.clone(),
            text: self.text.clone(),
            function_name: match &self.function_name {
                Some(name) => Some(name.clone()),
                None => None,
            },
            file_id: self.file_id,
            line: self.line,
        }
    }
}

} // verus!
