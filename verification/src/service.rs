//! Questions that are answered from the object info directly.

use crate::elf_items::{models, ObjectInfo};
use crate::symbols::Symbol;
use crate::utils::CanonicalPath;
use std::sync::Arc;
use vstd::prelude::*;

verus! {

/// The statics of a file; none for a file that the object info does not
/// know.
pub fn get_statics_for_file(info: &ObjectInfo, file_path: &CanonicalPath) -> (r: Vec<Arc<Symbol>>)
    requires
        info.wf(),
    ensures
        models(r@) == if info.static_file_mapping.model().dom().contains(file_path@) {
            info.static_file_mapping.model()[file_path@]
        } else {
            Seq::empty()
        },
{
    info.static_file_mapping.get_statics_for_file(file_path)
}

/// The address of the symbol of the object file with exactly this name.
pub fn find_symbol_by_name(info: &ObjectInfo, name: &str) -> (r: Option<u64>)
    requires
        info.wf(),
    ensures
        r == if info.elf_symbols.by_name().dom().contains(name@) {
            Some(info.elf_symbols.by_name()[name@].address)
        } else {
            None
        },
{
    match info.elf_symbols.get_by_name(name) {
        Some(symbol) => Some(symbol.address),
        None => None,
    }
}

} // verus!
