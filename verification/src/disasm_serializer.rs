//! The whole listing as one compact message.

use crate::get_assembly::{AssemblyLine, AssemblyListing, LineModel};
use crate::text::{hex_address, hex_address_text};
use vstd::prelude::*;

verus! {

/// The listing as a message: its kind `t`, the sequence number `id`, the
/// address of the first line, whether this is the last chunk, and each
/// line as its address, its bytes and its instruction.
#[derive(Debug)]
pub struct CompactDisasm {
    pub t: String,
    pub id: u64,
    pub start: String,
    pub final_chunk: bool,
    pub lines: Vec<(String, String, String)>,
}

/// A line as the message holds it: the address as `0x` and digits of base
/// sixteen, the bytes, the instruction.
pub open spec fn compact_line(l: LineModel) -> (Seq<char>, Seq<char>, Seq<char>) {
    (hex_address(l.address), l.bytes, l.instruction)
}

/// The lines of a message as mathematical values.
pub open spec fn triple_models(lines: Seq<(String, String, String)>) -> Seq<
    (Seq<char>, Seq<char>, Seq<char>),
> {
    lines.map_values(|p: (String, String, String)| (p.0@, p.1@, p.2@))
}

/// The listing as one compact message. The start is the address of the
/// first line, or zero for a listing without lines.
pub fn serialize_compact_disasm(listing: &AssemblyListing, seq_id: u64, final_chunk: bool) -> (r:
    CompactDisasm)
    ensures
        r.t@ == "disasm_chunk"@,
        r.id == seq_id,
        r.final_chunk == final_chunk,
        r.start@ == hex_address(
            if listing.spec_lines().len() > 0 {
                listing.spec_lines()[0].address
            } else {
                0
            },
        ),
        triple_models(r.lines@) == listing.spec_lines().map_values(|l: LineModel| compact_line(l)),
{
    let source = listing.lines();
    let ghost all = listing.spec_lines();
    let mut lines: Vec<(String, String, String)> = Vec::new();
    let mut i: usize = 0;
    assert(triple_models(lines@) =~= all.take(0).map_values(|l: LineModel| compact_line(l)));
    while i < source.len()
        invariant
            i <= source.len(),
            all == source@.map_values(|l: AssemblyLine| l@),
            triple_models(lines@) == all.take(i as int).map_values(|l: LineModel| compact_line(l)),
        decreases source.len() - i,
    {
        let line = &source[i];
        let ghost old_lines = lines@;
        let entry = (hex_address_text(line.address), line.bytes.clone(), line.instruction.clone());
        lines.push(entry);
        proof {
            assert(triple_models(lines@) =~= triple_models(old_lines).push(
                (entry.0@, entry.1@, entry.2@),
            ));
            assert(all.take(i + 1).map_values(|l: LineModel| compact_line(l)) =~= all.take(
                i as int,
            ).map_values(|l: LineModel| compact_line(l)).push(compact_line(all[i as int])));
        }
        i += 1;
    }
    assert(all.take(source.len() as int) =~= all);
    let start = if source.len() > 0 {
        hex_address_text(source[0].address)
    } else {
        hex_address_text(0)
    };
    CompactDisasm { t: "disasm_chunk".to_owned(), id: seq_id, start, final_chunk, lines }
}

} // verus!
