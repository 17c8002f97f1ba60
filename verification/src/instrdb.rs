//! The instruction database: instructions by start address, and the run of
//! instructions around an address.

use crate::addr_map::{floor_position, lemma_floor_position, AddrMap};
use crate::instr::Instruction;
use vstd::prelude::*;

verus! {

/// The instructions, by start address.
pub struct InstructionDb {
    pub map: AddrMap<Instruction>,
}

/// The run of instructions around `target` in a database given as its
/// instructions in address order, `keys` being their addresses: from the
/// instruction at the largest address that is at most `target`, up to
/// `before` instructions in front of it, itself, and up to `after`
/// instructions behind it. No instruction at or before `target`: no run.
pub open spec fn run_around(
    keys: Seq<u64>,
    values: Seq<Instruction>,
    target: u64,
    before: nat,
    after: nat,
) -> Seq<Instruction> {
    let p = floor_position(keys, target);
    if p < 0 {
        Seq::empty()
    } else {
        let from = if p >= before {
            p - before
        } else {
            0
        };
        let to = if p + 1 + after <= values.len() {
            p + 1 + after
        } else {
            values.len() as int
        };
        values.subrange(from, to)
    }
}

impl InstructionDb {
    /// An empty database.
    pub fn new() -> (r: Self)
        ensures
            r.map.wf(),
            r.map@ == Map::<u64, Instruction>::empty(),
    {
        InstructionDb { map: AddrMap::new() }
    }

    /// The run of instructions around `target_addr`, as copies.
    pub fn get_window(&self, target_addr: u64, before: usize, after: usize) -> (r: Vec<
        Instruction,
    >)
        requires
            self.map.wf(),
        ensures
            r@ == run_around(
                self.map.spec_keys(),
                self.map.spec_values(),
                target_addr,
                before as nat,
                after as nat,
            ),
    {
        let mut result: Vec<Instruction> = Vec::new();
        proof {
            lemma_floor_position(self.map.spec_keys(), target_addr);
        }
        let n: usize = self.map.len();
        let p: usize = match self.map.floor_index(target_addr) {
            Some(p) => p,
            None => {
                return result;
            },
        };
        let from: usize = if p >= before {
            p - before
        } else {
            0
        };
        let to: usize = if after < n - p - 1 {
            p + 1 + after
        } else {
            n
        };
        let mut i: usize = from;
        while i < to
            invariant
                from <= i <= to <= n,
                n == self.map.spec_keys().len(),
                self.map.wf(),
                result@ == self.map.spec_values().subrange(from as int, i as int),
            decreases to - i,
        {
            result.push(self.map.value_at(i).clone());
            i += 1;
            assert(self.map.spec_values().subrange(from as int, i as int)
                == self.map.spec_values().subrange(from as int, i - 1).push(
                self.map.spec_values()[i - 1],
            ));
        }
        result
    }
}

} // verus!
