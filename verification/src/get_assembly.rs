//! The assembly listing: instruction lines in the order in which they were
//! read, an index of them by address, the blocks they belong to, and the
//! window of lines around an address.

use crate::addr_map::{floor_position, lemma_floor_position, strictly_increasing, AddrMap};
use crate::text::{chars_of, hex_digits, push_all, string_of, to_dec, to_hex, dec_digits};
use vstd::prelude::*;

verus! {

/// One instruction of the listing. A negative number in `function_id`,
/// `file_id` or in a line or column field says that the value is not known.
#[derive(Debug)]
pub struct AssemblyLine {
    pub address: u64,
    pub bytes: String,
    pub instruction: String,
    pub raw_line: String,
    pub offset_in_function: u32,
    pub function_id: i32,
    pub file_id: i32,
    pub start_line: i32,
    pub start_column: i32,
    pub end_line: i32,
    pub end_column: i32,
}

/// A line as a mathematical value.
pub struct LineModel {
    pub address: u64,
    pub bytes: Seq<char>,
    pub instruction: Seq<char>,
    pub raw_line: Seq<char>,
    pub offset_in_function: u32,
    pub function_id: i32,
    pub file_id: i32,
    pub start_line: i32,
    pub start_column: i32,
    pub end_line: i32,
    pub end_column: i32,
}

impl View for AssemblyLine {
    type V = LineModel;

    open spec fn view(&self) -> LineModel {
        LineModel {
            address: self.address,
            bytes: self.bytes@,
            instruction: self.instruction@,
            raw_line: self.raw_line@,
            offset_in_function: self.offset_in_function,
            function_id: self.function_id,
            file_id: self.file_id,
            start_line: self.start_line,
            start_column: self.start_column,
            end_line: self.end_line,
            end_column: self.end_column,
        }
    }
}

/// The instruction text of a line that stands for an instruction the
/// listing does not hold.
pub open spec fn invalid_text() -> Seq<char> {
    "<invalid instr>"@
}

/// The line that fills a window at `address` where the listing has none.
pub open spec fn synthetic_line(address: u64) -> LineModel {
    LineModel {
        address,
        bytes: Seq::empty(),
        instruction: invalid_text(),
        raw_line: Seq::empty(),
        offset_in_function: 0,
        function_id: -1i32,
        file_id: -1i32,
        start_line: -1i32,
        start_column: -1i32,
        end_line: -1i32,
        end_column: -1i32,
    }
}

/// The text that `format_bytes` gives: the address in base sixteen, a
/// colon, for a line of a function with a positive id the function and the
/// offset in angle brackets, then the bytes and the instruction, each after
/// a tab.
pub open spec fn formatted_line(l: LineModel) -> Seq<char> {
    let offset = if l.function_id > 0 {
        " <"@ + dec_digits(l.function_id as nat) + "+0x"@ + hex_digits(l.offset_in_function as nat)
            + ">"@
    } else {
        Seq::empty()
    };
    hex_digits(l.address as nat) + ":"@ + offset + "\t"@ + l.bytes + "\t"@ + l.instruction
}

impl AssemblyLine {
    /// An independent copy of the line.
    pub fn clone(&self) -> (r: Self)
        ensures
            r == *self,
    {
        AssemblyLine {
            address: self.address,
            bytes: self.bytes.clone(),
            instruction: self.instruction.clone(),
            raw_line: self.raw_line.clone(),
            offset_in_function: self.offset_in_function,
            function_id: self.function_id,
            file_id: self.file_id,
            start_line: self.start_line,
            start_column: self.start_column,
            end_line: self.end_line,
            end_column: self.end_column,
        }
    }

    /// A line without source information.
    pub fn new(
        address: u64,
        bytes: String,
        instruction: String,
        raw_line: String,
        function_id: i32,
        offset_in_function: u32,
    ) -> (r: Self)
        ensures
            r@ == (LineModel {
                address,
                bytes: bytes@,
                instruction: instruction@,
                raw_line: raw_line@,
                offset_in_function,
                function_id,
                file_id: -1i32,
                start_line: -1i32,
                start_column: -1i32,
                end_line: -1i32,
                end_column: -1i32,
            }),
    {
        AssemblyLine {
            address,
            bytes,
            instruction,
            raw_line,
            offset_in_function,
            function_id,
            file_id: -1i32,
            start_line: -1i32,
            start_column: -1i32,
            end_line: -1i32,
            end_column: -1i32,
        }
    }

    /// The filler line for `address`.
    pub fn synthetic(address: u64) -> (r: Self)
        ensures
            r@ == synthetic_line(address),
    {
        AssemblyLine::new(
            address,
            String::new(),
            "<invalid instr>".to_owned(),
            String::new(),
            -1,
            0,
        )
    }

    /// Sets the source information and leaves the rest of the line as it is.
    pub fn set_source_info(
        &mut self,
        file_id: i32,
        start_line: i32,
        start_column: i32,
        end_line: i32,
        end_column: i32,
    )
        ensures
            final(self)@ == (LineModel {
                file_id,
                start_line,
                start_column,
                end_line,
                end_column,
                ..old(self)@
            }),
    {
        self.file_id = file_id;
        self.start_line = start_line;
        self.start_column = start_column;
        self.end_line = end_line;
        self.end_column = end_column;
    }

    /// The line as one text, for display.
    pub fn format_bytes(&self) -> (r: String)
        ensures
            r@ == formatted_line(self@),
    {
        let mut out: Vec<char> = to_hex(self.address);
        out.push(':');
        if self.function_id > 0 {
            push_all(&mut out, &chars_of(" <"));
            push_all(&mut out, &to_dec(self.function_id as u64));
            push_all(&mut out, &chars_of("+0x"));
            push_all(&mut out, &to_hex(self.offset_in_function as u64));
            push_all(&mut out, &chars_of(">"));
        }
        out.push('\t');
        push_all(&mut out, &chars_of(self.bytes.as_str()));
        out.push('\t');
        push_all(&mut out, &chars_of(self.instruction.as_str()));
        proof {
            reveal_strlit(":");
            reveal_strlit("\t");
            assert(out@ =~= formatted_line(self@));
        }
        string_of(&out)
    }
}

/// A run of lines under one name, most often a function. `lines` holds the
/// positions of its lines in the listing, in the order in which they were
/// read.
#[derive(Debug)]
pub struct AssemblyBlock {
    pub name: String,
    pub id: i32,
    pub start_address: u64,
    pub lines: Vec<usize>,
}

/// A block as a mathematical value.
pub struct BlockModel {
    pub name: Seq<char>,
    pub id: i32,
    pub start_address: u64,
    pub lines: Seq<usize>,
}

impl View for AssemblyBlock {
    type V = BlockModel;

    open spec fn view(&self) -> BlockModel {
        BlockModel {
            name: self.name@,
            id: self.id,
            start_address: self.start_address,
            lines: self.lines@,
        }
    }
}

impl AssemblyBlock {
    /// A block without lines.
    pub fn new(name: String, start_address: u64, id: i32) -> (r: Self)
        ensures
            r@ == (BlockModel { name: name@, id, start_address, lines: Seq::empty() }),
    {
        AssemblyBlock { name, start_address, id, lines: Vec::new() }
    }

    /// The number of lines of the block; `u32::MAX` stands for any larger
    /// number.
    pub fn line_count(&self) -> (n: u32)
        ensures
            n == if self.lines@.len() <= u32::MAX {
                self.lines@.len() as u32
            } else {
                u32::MAX
            },
    {
        if self.lines.len() <= u32::MAX as usize {
            self.lines.len() as u32
        } else {
            u32::MAX
        }
    }
}

/// The address of the `k`-th filler line below `a`: two less for each step,
/// in arithmetic that wraps around. Two bytes is the smallest size of an
/// instruction of the target, a Cortex-M in Thumb mode.
pub open spec fn pad_below(a: u64, k: nat) -> u64
    decreases k,
{
    if k == 0 {
        a
    } else {
        vstd::wrapping::u64_specs::wrapping_sub(pad_below(a, (k - 1) as nat), 2)
    }
}

/// The address of the `k`-th filler line above `a`: two more for each step,
/// in arithmetic that wraps around.
pub open spec fn pad_above(a: u64, k: nat) -> u64
    decreases k,
{
    if k == 0 {
        a
    } else {
        vstd::wrapping::u64_specs::wrapping_add(pad_above(a, (k - 1) as nat), 2)
    }
}

/// Where the steps do not pass zero, the `k`-th filler line below `a` stands
/// at `a - 2k`.
pub proof fn lemma_pad_below(a: u64, k: nat)
    requires
        2 * k <= a,
    ensures
        pad_below(a, k) == a - 2 * k,
    decreases k,
{
    if k > 0 {
        lemma_pad_below(a, (k - 1) as nat);
    }
}

/// Where the steps do not pass the largest address, the `k`-th filler line
/// above `a` stands at `a + 2k`.
pub proof fn lemma_pad_above(a: u64, k: nat)
    requires
        a + 2 * k <= u64::MAX,
    ensures
        pad_above(a, k) == a + 2 * k,
    decreases k,
{
    if k > 0 {
        lemma_pad_above(a, (k - 1) as nat);
    }
}

/// The line at position `q` of a listing that is continued without end in
/// both directions: inside the listing its own line, below it the filler
/// lines under the first address, above it those over the last.
pub open spec fn virtual_line(sorted: Seq<LineModel>, q: int) -> LineModel
    recommends
        sorted.len() > 0,
{
    if q < 0 {
        synthetic_line(pad_below(sorted[0].address, (-q) as nat))
    } else if q < sorted.len() {
        sorted[q]
    } else {
        synthetic_line(pad_above(sorted.last().address, (q - sorted.len() + 1) as nat))
    }
}

/// The position, in the continued listing, of the first line of the window
/// around the anchor at position `p`.
pub open spec fn window_start(p: int, before: nat, after: nat) -> int {
    if before > 0 {
        p - before
    } else if after > 0 {
        p + 1
    } else {
        p
    }
}

/// The number of lines of a window whose anchor exists.
pub open spec fn window_len(before: nat, after: nat) -> nat {
    if before > 0 {
        before + after + 1
    } else if after > 0 {
        after
    } else {
        1
    }
}

/// The window around `target` in a listing given as its lines in address
/// order. The anchor is the line at the largest address that is at most
/// `target`; without one the window is empty. With `before > 0` the window
/// holds the `before` lines in front of the anchor, the anchor, and the
/// `after` lines behind it. With `before == 0` it holds the `after` lines
/// behind the anchor, or, if `after` is zero too, the anchor alone. Where
/// the listing ends, filler lines take the places.
pub open spec fn window_of(sorted: Seq<LineModel>, target: u64, before: nat, after: nat) -> Seq<
    LineModel,
> {
    let p = floor_position(addresses_of(sorted), target);
    if p < 0 {
        Seq::empty()
    } else {
        Seq::new(
            window_len(before, after),
            |i: int| virtual_line(sorted, window_start(p, before, after) + i),
        )
    }
}

/// The addresses of a sequence of lines.
pub open spec fn addresses_of(lines: Seq<LineModel>) -> Seq<u64> {
    lines.map_values(|l: LineModel| l.address)
}

/// The number of filler lines at the front of the window around the anchor
/// at position `p`.
pub open spec fn fillers_in_front(p: int, before: nat, after: nat) -> nat {
    if window_start(p, before, after) < 0 {
        (-window_start(p, before, after)) as nat
    } else {
        0
    }
}

/// The number of filler lines at the end of the window around the anchor at
/// position `p` in a listing of `n` lines.
pub open spec fn fillers_behind(n: nat, p: int, before: nat, after: nat) -> nat {
    if window_start(p, before, after) + window_len(before, after) > n {
        (window_start(p, before, after) + window_len(before, after) - n) as nat
    } else {
        0
    }
}

/// Whether the filler lines of the window stay within the range of
/// addresses, so that none of their addresses wraps around.
pub open spec fn fillers_fit(sorted: Seq<LineModel>, target: u64, before: nat, after: nat) -> bool {
    let p = floor_position(addresses_of(sorted), target);
    &&& 2 * fillers_in_front(p, before, after) <= sorted[0].address
    &&& sorted.last().address + 2 * fillers_behind(sorted.len(), p, before, after) <= u64::MAX
}

/// A window whose anchor exists has `before + after + 1` lines when
/// `before > 0`, else `after` lines, but for `before == 0` and `after == 0`,
/// where it holds the anchor alone.
pub proof fn lemma_window_length(sorted: Seq<LineModel>, target: u64, before: nat, after: nat)
    requires
        floor_position(addresses_of(sorted), target) >= 0,
    ensures
        before > 0 ==> window_of(sorted, target, before, after).len() == before + after + 1,
        before == 0 && after > 0 ==> window_of(sorted, target, before, after).len() == after,
        before == 0 && after == 0 ==> window_of(sorted, target, before, after).len() == 1,
{
}

/// Without an anchor, that is, when no address of the listing is at most
/// the target, the window is empty.
pub proof fn lemma_window_without_anchor(
    sorted: Seq<LineModel>,
    target: u64,
    before: nat,
    after: nat,
)
    requires
        floor_position(addresses_of(sorted), target) < 0,
    ensures
        window_of(sorted, target, before, after).len() == 0,
{
}

/// With `before > 0` the anchor stands at index `before` of the window;
/// with `before == 0` and `after == 0` it is the only line. (With
/// `before == 0` and `after > 0` the window starts behind the anchor.)
pub proof fn lemma_window_anchor(sorted: Seq<LineModel>, target: u64, before: nat, after: nat)
    requires
        strictly_increasing(addresses_of(sorted)),
        floor_position(addresses_of(sorted), target) >= 0,
        before > 0 || after == 0,
    ensures
        window_of(sorted, target, before, after)[before as int] == sorted[floor_position(
            addresses_of(sorted),
            target,
        )],
        sorted[floor_position(addresses_of(sorted), target)].address <= target,
{
    lemma_floor_position(addresses_of(sorted), target);
    let p = floor_position(addresses_of(sorted), target);
    assert(addresses_of(sorted)[p] == sorted[p].address);
}

/// With `before == 0` and `after > 0` the window starts with the line that
/// follows the anchor.
pub proof fn lemma_window_behind_anchor(sorted: Seq<LineModel>, target: u64, after: nat)
    requires
        strictly_increasing(addresses_of(sorted)),
        floor_position(addresses_of(sorted), target) >= 0,
        after > 0,
    ensures
        window_of(sorted, target, 0, after)[0] == virtual_line(
            sorted,
            floor_position(addresses_of(sorted), target) + 1,
        ),
{
}

/// The addresses of a window are strictly increasing, as long as its filler
/// lines stay within the range of addresses.
pub proof fn lemma_window_increasing(sorted: Seq<LineModel>, target: u64, before: nat, after: nat)
    requires
        strictly_increasing(addresses_of(sorted)),
        floor_position(addresses_of(sorted), target) >= 0,
        fillers_fit(sorted, target, before, after),
    ensures
        strictly_increasing(addresses_of(window_of(sorted, target, before, after))),
{
    let addrs = addresses_of(sorted);
    lemma_floor_position(addrs, target);
    let p = floor_position(addrs, target);
    let w = window_of(sorted, target, before, after);
    let start = window_start(p, before, after);
    let n = sorted.len() as int;
    assert forall|i: int, j: int| 0 <= i < j < w.len() implies addresses_of(w)[i] < addresses_of(
        w,
    )[j] by {
        lemma_virtual_address(sorted, start + i);
        lemma_virtual_address(sorted, start + j);
        let qi = start + i;
        let qj = start + j;
        if 0 <= qi && qj < n {
            assert(addrs[qi] < addrs[qj]);
        } else if qi < 0 && 0 <= qj && qj < n {
            assert(addrs[0] == sorted[0].address);
            if qj > 0 {
                assert(addrs[0] < addrs[qj]);
            }
            assert(addrs[qj] == sorted[qj].address);
        } else if 0 <= qi && qi < n && qj >= n {
            assert(addrs[n - 1] == sorted.last().address);
            if qi < n - 1 {
                assert(addrs[qi] < addrs[n - 1]);
            }
            assert(addrs[qi] == sorted[qi].address);
        } else if qi < 0 && qj >= n {
            assert(addrs[0] == sorted[0].address);
            assert(addrs[n - 1] == sorted.last().address);
            if n > 1 {
                assert(addrs[0] < addrs[n - 1]);
            }
        }
    }
}

/// The address of a line of the continued listing, where the filler lines
/// stay within the range of addresses.
pub proof fn lemma_virtual_address(sorted: Seq<LineModel>, q: int)
    requires
        sorted.len() > 0,
    ensures
        q < 0 && 2 * (-q) <= sorted[0].address ==> virtual_line(sorted, q).address
            == sorted[0].address + 2 * q,
        q >= sorted.len() && sorted.last().address + 2 * (q - sorted.len() + 1) <= u64::MAX
            ==> virtual_line(sorted, q).address == sorted.last().address + 2 * (q - sorted.len()
            + 1),
{
    if q < 0 && 2 * (-q) <= sorted[0].address {
        lemma_pad_below(sorted[0].address, (-q) as nat);
    }
    if q >= sorted.len() && sorted.last().address + 2 * (q - sorted.len() + 1) <= u64::MAX {
        lemma_pad_above(sorted.last().address, (q - sorted.len() + 1) as nat);
    }
}

/// Each line of a window is a line of the listing or a filler line. A
/// filler line carries the text that marks it, and, as long as the filler
/// lines stay within the range of addresses, its address is none of the
/// listing's.
pub proof fn lemma_window_fillers(
    sorted: Seq<LineModel>,
    target: u64,
    before: nat,
    after: nat,
    i: int,
)
    requires
        strictly_increasing(addresses_of(sorted)),
        floor_position(addresses_of(sorted), target) >= 0,
        0 <= i < window_of(sorted, target, before, after).len(),
    ensures
        ({
            let q = window_start(floor_position(addresses_of(sorted), target), before, after) + i;
            let line = window_of(sorted, target, before, after)[i];
            if 0 <= q < sorted.len() {
                line == sorted[q]
            } else {
                &&& line.instruction == invalid_text()
                &&& line.bytes.len() == 0
                &&& line.function_id == -1
                &&& line.file_id == -1
                &&& fillers_fit(sorted, target, before, after) ==> !addresses_of(sorted).contains(
                    line.address,
                )
            }
        }),
{
    let addrs = addresses_of(sorted);
    lemma_floor_position(addrs, target);
    let p = floor_position(addrs, target);
    let q = window_start(p, before, after) + i;
    let n = sorted.len() as int;
    let line = window_of(sorted, target, before, after)[i];
    lemma_virtual_address(sorted, q);
    if !(0 <= q < n) && fillers_fit(sorted, target, before, after) {
        if addrs.contains(line.address) {
            let k = addrs.index_of(line.address);
            assert(addrs[0] == sorted[0].address);
            assert(addrs[n - 1] == sorted.last().address);
            if k > 0 {
                assert(addrs[0] < addrs[k]);
            }
            if k < n - 1 {
                assert(addrs[k] < addrs[n - 1]);
            }
            assert(false);
        }
    }
}

/// The listing.
pub struct AssemblyListing {
    lines: Vec<AssemblyLine>,
    addr_map: AddrMap<usize>,
    blocks: Vec<AssemblyBlock>,
}

impl AssemblyListing {
    /// The lines, in the order in which they were inserted.
    pub closed spec fn spec_lines(&self) -> Seq<LineModel> {
        self.lines@.map_values(|l: AssemblyLine| l@)
    }

    /// The blocks, in the order in which they were added.
    pub closed spec fn spec_blocks(&self) -> Seq<BlockModel> {
        self.blocks@.map_values(|b: AssemblyBlock| b@)
    }

    /// The index: for each address of the listing the position, in
    /// `spec_lines`, of the line that was inserted last at that address.
    pub closed spec fn spec_index(&self) -> Map<u64, usize> {
        self.addr_map@
    }

    /// The addresses of the listing, each once, in increasing order.
    pub closed spec fn spec_addresses(&self) -> Seq<u64> {
        self.addr_map.spec_keys()
    }

    /// The lines that the index points to, in increasing order of address.
    pub closed spec fn spec_sorted(&self) -> Seq<LineModel> {
        Seq::new(
            self.addr_map.spec_keys().len(),
            |q: int| self.lines@[self.addr_map.spec_values()[q] as int]@,
        )
    }

    /// The invariant of the listing: the index holds exactly the addresses
    /// of the lines, and points for each to the last line at that address.
    pub closed spec fn wf(&self) -> bool {
        &&& self.addr_map.wf()
        &&& forall|q: int|
            0 <= q < self.addr_map.spec_keys().len() ==> {
                &&& (#[trigger] self.addr_map.spec_values()[q]) < self.lines@.len()
                &&& self.lines@[self.addr_map.spec_values()[q] as int].address
                    == self.addr_map.spec_keys()[q]
            }
        &&& forall|i: int|
            0 <= i < self.lines@.len() ==> {
                &&& self.addr_map@.dom().contains((#[trigger] self.lines@[i]).address)
                &&& i <= self.addr_map@[self.lines@[i].address]
            }
    }

    /// How the models of a well-formed listing hang together.
    pub proof fn lemma_models(&self)
        requires
            self.wf(),
        ensures
            strictly_increasing(self.spec_addresses()),
            self.spec_sorted().len() == self.spec_addresses().len(),
            addresses_of(self.spec_sorted()) == self.spec_addresses(),
            forall|q: int|
                0 <= q < self.spec_addresses().len() ==> {
                    &&& self.spec_index().dom().contains(#[trigger] self.spec_addresses()[q])
                    &&& self.spec_index()[self.spec_addresses()[q]] < self.spec_lines().len()
                    &&& self.spec_sorted()[q] == self.spec_lines()[self.spec_index()[self.spec_addresses()[q]] as int]
                },
            forall|i: int|
                0 <= i < self.spec_lines().len() ==> {
                    &&& self.spec_index().dom().contains((#[trigger] self.spec_lines()[i]).address)
                    &&& i <= self.spec_index()[self.spec_lines()[i].address]
                },
            forall|a: u64|
                self.spec_index().dom().contains(a) <==> self.spec_addresses().contains(a),
            forall|a: u64| #[trigger]
                self.spec_index().dom().contains(a) ==> self.spec_index()[a]
                    < self.spec_lines().len() && self.spec_lines()[self.spec_index()[a] as int].address
                    == a,
    {
        assert(addresses_of(self.spec_sorted()) =~= self.spec_addresses());
        assert forall|q: int| 0 <= q < self.spec_addresses().len() implies {
            &&& self.spec_index().dom().contains(#[trigger] self.spec_addresses()[q])
            &&& self.spec_index()[self.spec_addresses()[q]] < self.spec_lines().len()
            &&& self.spec_sorted()[q] == self.spec_lines()[self.spec_index()[self.spec_addresses()[q]] as int]
        } by {
            self.addr_map.lemma_view_at(q);
            assert(self.addr_map.spec_values()[q] < self.lines@.len());
        }
        assert forall|i: int| 0 <= i < self.spec_lines().len() implies {
            &&& self.spec_index().dom().contains((#[trigger] self.spec_lines()[i]).address)
            &&& i <= self.spec_index()[self.spec_lines()[i].address]
        } by {
            assert(self.lines@[i].address == self.spec_lines()[i].address);
        }
        assert forall|a: u64| #[trigger] self.spec_index().dom().contains(a) implies self.spec_index()[a]
            < self.spec_lines().len() && self.spec_lines()[self.spec_index()[a] as int].address
            == a by {
            let q = self.addr_map.spec_keys().index_of(a);
            self.addr_map.lemma_view_at(q);
            assert(self.addr_map.spec_values()[q] < self.lines@.len());
        }
    }

    proof fn lemma_slots_identity(&self, q: int)
        requires
            self.wf(),
            strictly_increasing(addresses_of(self.spec_lines())),
            0 <= q < self.addr_map.spec_keys().len(),
        ensures
            self.addr_map.spec_values()[q] == q,
        decreases q,
    {
        let keys = self.addr_map.spec_keys();
        let vals = self.addr_map.spec_values();
        let addrs = addresses_of(self.spec_lines());
        if q > 0 {
            self.lemma_slots_identity(q - 1);
            // the slots grow with the addresses
            assert(keys[q - 1] < keys[q]);
            assert(addrs[vals[q - 1] as int] == keys[q - 1]);
            assert(addrs[vals[q] as int] == keys[q]);
            if vals[q] <= vals[q - 1] {
                if vals[q] < vals[q - 1] {
                    assert(addrs[vals[q] as int] < addrs[vals[q - 1] as int]);
                }
                assert(false);
            }
        }
        assert(vals[q] >= q);
        // the line at position q is reached from some slot, which is this one
        assert(q < self.lines@.len());
        let a = self.lines@[q].address;
        assert(self.addr_map@.dom().contains(a));
        let r = keys.index_of(a);
        self.addr_map.lemma_view_at(r);
        assert(addrs[vals[r] as int] == a);
        assert(addrs[q] == a);
        assert(vals[r] == q) by {
            if vals[r] < q {
                assert(addrs[vals[r] as int] < addrs[q]);
            } else if vals[r] > q {
                assert(addrs[q] < addrs[vals[r] as int]);
            }
        }
        if r < q {
            self.lemma_slots_identity(r);
        } else if r > q {
            assert(keys[q] < keys[r]);
            assert(addrs[vals[q] as int] == keys[q]);
            if vals[q] > q {
                assert(addrs[q] < addrs[vals[q] as int]);
            }
        }
    }

    /// Where the lines were inserted by strictly increasing address, the
    /// index points from the address of each line to that line, and the
    /// lines in address order are the lines as they stand.
    pub proof fn lemma_increasing_lines(&self)
        requires
            self.wf(),
            strictly_increasing(addresses_of(self.spec_lines())),
        ensures
            self.spec_sorted() == self.spec_lines(),
            forall|i: int|
                0 <= i < self.spec_lines().len() ==> self.spec_index()[(
                #[trigger] self.spec_lines()[i]).address] == i,
    {
        self.lemma_models();
        let keys = self.addr_map.spec_keys();
        let vals = self.addr_map.spec_values();
        let addrs = addresses_of(self.spec_lines());
        assert forall|i: int| 0 <= i < self.spec_lines().len() implies self.spec_index()[(
        #[trigger] self.spec_lines()[i]).address] == i by {
            let k = self.spec_index()[self.spec_lines()[i].address];
            assert(addrs[k as int] == addrs[i]);
            if i < k {
                assert(addrs[i] < addrs[k as int]);
            }
        }
        assert forall|q: int| 0 <= q < keys.len() implies vals[q] == q by {
            self.lemma_slots_identity(q);
        }
        if self.lines@.len() > 0 {
            let last = self.lines@.len() - 1;
            let a = self.lines@[last].address;
            assert(self.addr_map@.dom().contains(a));
            let r = keys.index_of(a);
            self.addr_map.lemma_view_at(r);
            assert(addrs[vals[r] as int] == addrs[last]);
            if vals[r] < last {
                assert(addrs[vals[r] as int] < addrs[last]);
            }
            assert(r == last);
        }
        if keys.len() > 0 {
            assert(vals[keys.len() - 1] < self.lines@.len());
        }
        assert(keys.len() == self.lines@.len());
        assert(self.spec_sorted() =~= self.spec_lines());
    }

    /// An empty listing.
    pub fn new() -> (r: Self)
        ensures
            r.wf(),
            r.spec_lines() == Seq::<LineModel>::empty(),
            r.spec_blocks() == Seq::<BlockModel>::empty(),
            r.spec_index() == Map::<u64, usize>::empty(),
            r.spec_sorted() == Seq::<LineModel>::empty(),
    {
        let r = AssemblyListing { lines: Vec::new(), addr_map: AddrMap::new(), blocks: Vec::new() };
        assert(r.spec_lines() =~= Seq::<LineModel>::empty());
        assert(r.spec_blocks() =~= Seq::<BlockModel>::empty());
        assert(r.spec_sorted() =~= Seq::<LineModel>::empty());
        r
    }

    /// The lines, in the order in which they were inserted.
    pub fn lines(&self) -> (r: &Vec<AssemblyLine>)
        ensures
            r@.map_values(|l: AssemblyLine| l@) == self.spec_lines(),
    {
        &self.lines
    }

    /// The blocks, in the order in which they were added.
    pub fn blocks(&self) -> (r: &Vec<AssemblyBlock>)
        ensures
            r@.map_values(|b: AssemblyBlock| b@) == self.spec_blocks(),
    {
        &self.blocks
    }

    /// Appends a line and points the index at it for its address.
    pub fn insert_line(&mut self, line: AssemblyLine)
        requires
            old(self).wf(),
        ensures
            final(self).wf(),
            final(self).spec_lines() == old(self).spec_lines().push(line@),
            final(self).spec_blocks() == old(self).spec_blocks(),
            final(self).spec_index() == old(self).spec_index().insert(
                line.address,
                old(self).spec_lines().len() as usize,
            ),
    {
        let ghost old_map = self.addr_map;
        let ghost old_lines = self.lines@;
        let at: usize = self.lines.len();
        let address: u64 = line.address;
        self.addr_map.insert(address, at);
        self.lines.push(line);
        proof {
            assert(self.spec_lines() =~= old(self).spec_lines().push(line@));
            let keys = self.addr_map.spec_keys();
            let vals = self.addr_map.spec_values();
            assert forall|q: int| 0 <= q < keys.len() implies {
                &&& (#[trigger] vals[q]) < self.lines@.len()
                &&& self.lines@[vals[q] as int].address == keys[q]
            } by {
                self.addr_map.lemma_view_at(q);
                if keys[q] != address {
                    let j = old_map.spec_keys().index_of(keys[q]);
                    old_map.lemma_view_at(j);
                    assert(old_map.spec_values()[j] < old_lines.len());
                }
            }
            assert forall|i: int| 0 <= i < self.lines@.len() implies {
                &&& self.addr_map@.dom().contains((#[trigger] self.lines@[i]).address)
                &&& i <= self.addr_map@[self.lines@[i].address]
            } by {
                if i < old_lines.len() {
                    assert(old_lines[i].address == self.lines@[i].address);
                }
            }
        }
    }

    /// Appends a block.
    pub fn push_block(&mut self, block: AssemblyBlock)
        requires
            old(self).wf(),
        ensures
            final(self).wf(),
            final(self).spec_lines() == old(self).spec_lines(),
            final(self).spec_index() == old(self).spec_index(),
            final(self).spec_sorted() == old(self).spec_sorted(),
            final(self).spec_addresses() == old(self).spec_addresses(),
            final(self).spec_blocks() == old(self).spec_blocks().push(block@),
    {
        self.blocks.push(block);
        assert(self.spec_blocks() =~= old(self).spec_blocks().push(block@));
    }

    /// The number of lines.
    pub fn line_count(&self) -> (n: usize)
        ensures
            n == self.spec_lines().len(),
    {
        self.lines.len()
    }

    /// The address of the line at position `i`.
    pub fn address_at(&self, i: usize) -> (a: u64)
        requires
            i < self.spec_lines().len(),
        ensures
            a == self.spec_lines()[i as int].address,
    {
        self.lines[i].address
    }

    /// The number of blocks.
    pub fn block_count(&self) -> (n: usize)
        ensures
            n == self.spec_blocks().len(),
    {
        self.blocks.len()
    }

    /// Sets the source information of the line that the index holds for
    /// `address`, and says whether there is such a line.
    pub fn set_source_info_at(
        &mut self,
        address: u64,
        file_id: i32,
        start_line: i32,
        start_column: i32,
        end_line: i32,
        end_column: i32,
    ) -> (found: bool)
        requires
            old(self).wf(),
        ensures
            final(self).wf(),
            found == old(self).spec_index().dom().contains(address),
            final(self).spec_index() == old(self).spec_index(),
            final(self).spec_blocks() == old(self).spec_blocks(),
            final(self).spec_addresses() == old(self).spec_addresses(),
            found ==> final(self).spec_lines() == old(self).spec_lines().update(
                old(self).spec_index()[address] as int,
                LineModel {
                    file_id,
                    start_line,
                    start_column,
                    end_line,
                    end_column,
                    ..old(self).spec_lines()[old(self).spec_index()[address] as int]
                },
            ),
            !found ==> final(self).spec_lines() == old(self).spec_lines(),
    {
        match self.addr_map.find(address) {
            Some(q) => {
                proof {
                    self.addr_map.lemma_view_at(q as int);
                }
                let at: usize = *self.addr_map.value_at(q);
                let ghost old_lines = self.lines@;
                self.lines[at].set_source_info(
                    file_id,
                    start_line,
                    start_column,
                    end_line,
                    end_column,
                );
                proof {
                    assert(self.lines@.len() == old_lines.len());
                    assert(forall|i: int|
                        0 <= i < old_lines.len() ==> (#[trigger] self.lines@[i]).address
                            == old_lines[i].address);
                    assert(self.spec_lines() =~= old(self).spec_lines().update(
                        at as int,
                        LineModel {
                            file_id,
                            start_line,
                            start_column,
                            end_line,
                            end_column,
                            ..old(self).spec_lines()[at as int]
                        },
                    ));
                }
                true
            },
            None => false,
        }
    }

    /// The line that the index holds for `address`.
    pub fn get_line_by_addr(&self, address: u64) -> (r: Option<&AssemblyLine>)
        requires
            self.wf(),
        ensures
            match r {
                Some(l) => self.spec_index().dom().contains(address) && l@
                    == self.spec_lines()[self.spec_index()[address] as int],
                None => !self.spec_index().dom().contains(address),
            },
    {
        match self.addr_map.find(address) {
            Some(q) => {
                proof {
                    self.addr_map.lemma_view_at(q as int);
                }
                let at: usize = *self.addr_map.value_at(q);
                Some(&self.lines[at])
            },
            None => None,
        }
    }
}

impl AssemblyListing {
    /// The window of lines around `target_addr`: see `window_of`. The lines
    /// are copies; the listing keeps its own.
    pub fn get_window(&self, target_addr: u64, before: usize, after: usize) -> (r: Vec<
        AssemblyLine,
    >)
        requires
            self.wf(),
            before + after + 1 <= usize::MAX,
        ensures
            r@.map_values(|l: AssemblyLine| l@) == window_of(
                self.spec_sorted(),
                target_addr,
                before as nat,
                after as nat,
            ),
    {
        let ghost sorted = self.spec_sorted();
        let ghost keys = self.addr_map.spec_keys();
        let ghost vals = self.addr_map.spec_values();
        proof {
            self.lemma_models();
            lemma_floor_position(keys, target_addr);
        }
        let mut result: Vec<AssemblyLine> = Vec::new();
        let n: usize = self.addr_map.len();
        let p: usize = match self.addr_map.floor_index(target_addr) {
            Some(p) => p,
            None => {
                assert(result@.map_values(|l: AssemblyLine| l@) =~= Seq::<LineModel>::empty());
                return result;
            },
        };
        let first_addr: u64 = self.addr_map.key_at(0);
        let last_addr: u64 = self.addr_map.key_at(n - 1);
        let count: usize = if before > 0 {
            before + after + 1
        } else if after > 0 {
            after
        } else {
            1
        };
        let lead: usize = if before > p {
            before - p
        } else {
            0
        };
        let first: usize = if before > 0 {
            if before > p {
                0
            } else {
                p - before
            }
        } else if after > 0 {
            p + 1
        } else {
            p
        };
        let ghost start: int = window_start(p as int, before as nat, after as nat);
        assert(start == first - lead);
        assert(lead <= count);
        assert(first <= n);
        assert(sorted[0].address == first_addr);
        assert(sorted.last().address == last_addr);
        // the filler addresses in front, nearest first
        let mut pads: Vec<u64> = Vec::new();
        let mut low: u64 = first_addr;
        while pads.len() < lead
            invariant
                pads.len() <= lead,
                low == pad_below(first_addr, pads.len() as nat),
                forall|k: int| 0 <= k < pads.len() ==> pads[k] == pad_below(first_addr, (k + 1) as nat),
            decreases lead - pads.len(),
        {
            low = low.wrapping_sub(2);
            pads.push(low);
        }
        let mut i: usize = 0;
        while i < lead
            invariant
                i <= lead,
                lead == pads.len(),
                lead > 0 ==> start == -lead,
                sorted.len() > 0,
                sorted[0].address == first_addr,
                result.len() == i,
                forall|k: int| 0 <= k < pads.len() ==> pads[k] == pad_below(first_addr, (k + 1) as nat),
                forall|k: int| 0 <= k < i ==> (#[trigger] result[k])@ == virtual_line(sorted, start + k),
            decreases lead - i,
        {
            result.push(AssemblyLine::synthetic(pads[lead - 1 - i]));
            i += 1;
        }
        let mut high: u64 = last_addr;
        let ghost mut above: nat = 0;
        let mut j: usize = 0;
        while j < count - lead
            invariant
                j <= count - lead,
                lead <= count,
                first <= n,
                n == keys.len(),
                n == sorted.len(),
                n > 0,
                start == first - lead,
                self.wf(),
                keys == self.addr_map.spec_keys(),
                vals == self.addr_map.spec_values(),
                sorted == self.spec_sorted(),
                sorted.last().address == last_addr,
                result.len() == lead + j,
                above == if first + j > n {
                    (first + j - n) as nat
                } else {
                    0
                },
                high == pad_above(last_addr, above),
                forall|k: int|
                    0 <= k < lead + j ==> (#[trigger] result[k])@ == virtual_line(sorted, start + k),
            decreases count - lead - j,
        {
            if j < n - first {
                let q: usize = first + j;
                let at: usize = *self.addr_map.value_at(q);
                result.push(self.lines[at].clone());
            } else {
                high = high.wrapping_add(2);
                proof {
                    above = above + 1;
                }
                result.push(AssemblyLine::synthetic(high));
            }
            j += 1;
        }
        proof {
            let got = result@.map_values(|l: AssemblyLine| l@);
            let want = window_of(sorted, target_addr, before as nat, after as nat);
            assert(addresses_of(sorted) == keys);
            assert(got.len() == want.len());
            assert forall|k: int| 0 <= k < got.len() implies got[k] == want[k] by {
                assert(result[k]@ == virtual_line(sorted, start + k));
            }
            assert(got =~= want);
        }
        result
    }
}

impl Default for AssemblyListing {
    /// An empty listing.
    fn default() -> (r: Self)
        ensures
            r.wf(),
            r.spec_lines() == Seq::<LineModel>::empty(),
            r.spec_blocks() == Seq::<BlockModel>::empty(),
    {
        AssemblyListing::new()
    }
}

} // verus!
