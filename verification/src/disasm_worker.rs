//! The disassembly worker: the states it goes through, the source lines it
//! writes into the listing, and the response it makes for a request.

use crate::elf_items::{path_of, AddrtoLineInfo, EntryModel, FileTable, LineInfoEntry};
use crate::get_assembly::{
    window_of, AssemblyBlock, AssemblyLine, AssemblyListing, BlockModel, LineModel,
};
use crate::helper_requests::{DisasmResponse, SerInstruction};
use crate::protocol::DisasmRequest;
use crate::text::{chars_of, dec_digits, hex_digits, push_all, string_of, to_dec, to_hex};
use std::collections::HashMap;
use vstd::prelude::*;

verus! {

broadcast use vstd::std_specs::hash::group_hash_axioms;

/// Where the worker stands.
#[derive(Clone, Copy, PartialEq, Eq, Structural, Debug)]
pub enum WorkerState {
    /// The disassembler runs and its output is read.
    Loading,
    /// The listing stands; the object info has not come yet.
    AwaitingInfo,
    /// The source lines are written into the listing.
    Annotating,
    /// Requests are answered.
    Serving,
    /// The worker has ended.
    Terminated,
}

/// What happens to the worker.
#[derive(Clone, Copy, PartialEq, Eq, Structural, Debug)]
pub enum WorkerEvent {
    /// The listing was read to its end.
    ListingReady,
    /// The disassembler could not be run or read.
    ListingFailed,
    /// The object info came.
    InfoReceived,
    /// The channel of the object info closed without one.
    InfoUnavailable,
    /// The source lines are written.
    AnnotationDone,
    /// A request came.
    RequestReceived,
    /// The channel of the requests closed.
    ChannelClosed,
}

/// What the worker is to do next.
#[derive(Clone, Copy, PartialEq, Eq, Structural, Debug)]
pub enum WorkerAction {
    /// Nothing: the event does not concern the state.
    Nothing,
    /// Wait for the object info.
    AwaitInfo,
    /// Write the source lines into the listing, as far as there is object
    /// info, and report `AnnotationDone`.
    Annotate,
    /// Tell the debug adapter that the disassembly is ready, then take
    /// requests.
    AnnounceReady,
    /// Answer the request.
    Respond,
    /// End.
    Stop,
}

/// How far a state is on the worker's way.
pub open spec fn rank(s: WorkerState) -> nat {
    match s {
        WorkerState::Loading => 0,
        WorkerState::AwaitingInfo => 1,
        WorkerState::Annotating => 2,
        WorkerState::Serving => 3,
        WorkerState::Terminated => 4,
    }
}

/// The state that follows and the action to take when `event` happens in
/// `state`. An event that does not concern the state changes nothing.
pub open spec fn next_step(state: WorkerState, event: WorkerEvent) -> (WorkerState, WorkerAction) {
    match (state, event) {
        (WorkerState::Loading, WorkerEvent::ListingReady) => (
            WorkerState::AwaitingInfo,
            WorkerAction::AwaitInfo,
        ),
        (WorkerState::Loading, WorkerEvent::ListingFailed) => (
            WorkerState::Terminated,
            WorkerAction::Stop,
        ),
        (WorkerState::AwaitingInfo, WorkerEvent::InfoReceived) => (
            WorkerState::Annotating,
            WorkerAction::Annotate,
        ),
        (WorkerState::AwaitingInfo, WorkerEvent::InfoUnavailable) => (
            WorkerState::Annotating,
            WorkerAction::Annotate,
        ),
        (WorkerState::Annotating, WorkerEvent::AnnotationDone) => (
            WorkerState::Serving,
            WorkerAction::AnnounceReady,
        ),
        (WorkerState::Serving, WorkerEvent::RequestReceived) => (
            WorkerState::Serving,
            WorkerAction::Respond,
        ),
        (WorkerState::Serving, WorkerEvent::ChannelClosed) => (
            WorkerState::Terminated,
            WorkerAction::Stop,
        ),
        _ => (state, WorkerAction::Nothing),
    }
}

/// The state that follows and the action to take when `event` happens in
/// `state`.
pub fn worker_step(state: WorkerState, event: WorkerEvent) -> (r: (WorkerState, WorkerAction))
    ensures
        r == next_step(state, event),
        rank(state) <= rank(r.0),
        r.1 == WorkerAction::AnnounceReady ==> state == WorkerState::Annotating && r.0
            == WorkerState::Serving,
        r.1 == WorkerAction::Respond ==> state == WorkerState::Serving,
        state == WorkerState::Terminated ==> r.0 == WorkerState::Terminated,
{
    match (state, event) {
        (WorkerState::Loading, WorkerEvent::ListingReady) => (
            WorkerState::AwaitingInfo,
            WorkerAction::AwaitInfo,
        ),
        (WorkerState::Loading, WorkerEvent::ListingFailed) => (
            WorkerState::Terminated,
            WorkerAction::Stop,
        ),
        (WorkerState::AwaitingInfo, WorkerEvent::InfoReceived) => (
            WorkerState::Annotating,
            WorkerAction::Annotate,
        ),
        (WorkerState::AwaitingInfo, WorkerEvent::InfoUnavailable) => (
            WorkerState::Annotating,
            WorkerAction::Annotate,
        ),
        (WorkerState::Annotating, WorkerEvent::AnnotationDone) => (
            WorkerState::Serving,
            WorkerAction::AnnounceReady,
        ),
        (WorkerState::Serving, WorkerEvent::RequestReceived) => (
            WorkerState::Serving,
            WorkerAction::Respond,
        ),
        (WorkerState::Serving, WorkerEvent::ChannelClosed) => (
            WorkerState::Terminated,
            WorkerAction::Stop,
        ),
        _ => (state, WorkerAction::Nothing),
    }
}

/// The state after the events, taken in order from `state`.
pub open spec fn state_after(state: WorkerState, events: Seq<WorkerEvent>) -> WorkerState
    decreases events.len(),
{
    if events.len() == 0 {
        state
    } else {
        next_step(state_after(state, events.drop_last()), events.last()).0
    }
}

/// The actions that the events bring about, taken in order from `state`.
pub open spec fn actions_of(state: WorkerState, events: Seq<WorkerEvent>) -> Seq<WorkerAction>
    decreases events.len(),
{
    if events.len() == 0 {
        Seq::empty()
    } else {
        actions_of(state, events.drop_last()).push(
            next_step(state_after(state, events.drop_last()), events.last()).1,
        )
    }
}

/// The actions and the state after the first `k` events are the first `k`
/// actions and the state that the whole run goes through there.
pub proof fn lemma_worker_prefix(state: WorkerState, events: Seq<WorkerEvent>, k: int)
    requires
        0 <= k <= events.len(),
    ensures
        actions_of(state, events).len() == events.len(),
        actions_of(state, events.take(k)) == actions_of(state, events).take(k),
        k < events.len() ==> actions_of(state, events)[k] == next_step(
            state_after(state, events.take(k)),
            events[k],
        ).1,
        rank(state_after(state, events.take(k))) <= rank(state_after(state, events)),
    decreases events.len(),
{
    if events.len() == 0 {
        assert(events.take(k) =~= events);
    } else if k == events.len() {
        assert(events.take(k) =~= events);
        lemma_worker_prefix(state, events.drop_last(), 0);
    } else {
        let front = events.drop_last();
        lemma_worker_prefix(state, front, k);
        assert(front.take(k) =~= events.take(k));
        assert(actions_of(state, events).take(k) =~= actions_of(state, front).take(k));
        if k == front.len() {
            assert(front.take(k) =~= front);
        }
    }
}

/// Before a worker that starts loading has come to serve, it has neither
/// announced that the disassembly is ready nor answered a request; before
/// it has the object info, it has written no source lines; and once it
/// writes them or serves, it was told to write them.
pub proof fn lemma_worker_early(events: Seq<WorkerEvent>)
    ensures
        rank(state_after(WorkerState::Loading, events)) <= 2 ==> forall|i: int|
            0 <= i < events.len() ==> (#[trigger] actions_of(WorkerState::Loading, events)[i])
                != WorkerAction::AnnounceReady && actions_of(WorkerState::Loading, events)[i]
                != WorkerAction::Respond,
        rank(state_after(WorkerState::Loading, events)) <= 1 ==> forall|i: int|
            0 <= i < events.len() ==> (#[trigger] actions_of(WorkerState::Loading, events)[i])
                != WorkerAction::Annotate,
        rank(state_after(WorkerState::Loading, events)) == 2 || rank(
            state_after(WorkerState::Loading, events),
        ) == 3 ==> exists|i: int|
            0 <= i < events.len() && (#[trigger] actions_of(WorkerState::Loading, events)[i])
                == WorkerAction::Annotate,
    decreases events.len(),
{
    if events.len() > 0 {
        let front = events.drop_last();
        lemma_worker_early(front);
        lemma_worker_prefix(WorkerState::Loading, front, 0);
        let before = actions_of(WorkerState::Loading, front);
        let acts = actions_of(WorkerState::Loading, events);
        let state = state_after(WorkerState::Loading, front);
        let after = state_after(WorkerState::Loading, events);
        assert(acts == before.push(next_step(state, events.last()).1));
        assert(after == next_step(state, events.last()).0);
        assert(rank(state) <= rank(after));
        if rank(after) == 2 || rank(after) == 3 {
            if rank(state) == 2 || rank(state) == 3 {
                let w = choose|i: int|
                    0 <= i < front.len() && (#[trigger] before[i]) == WorkerAction::Annotate;
                assert(acts[w] == WorkerAction::Annotate);
            } else {
                assert(acts[front.len() as int] == WorkerAction::Annotate);
            }
        }
    }
}

/// Whatever happens to a worker that starts loading: it announces that the
/// disassembly is ready at most once, and only after it was told to write
/// the source lines; it answers no request before that announcement; and
/// it is not told to write the source lines again after it.
pub proof fn lemma_worker_order(events: Seq<WorkerEvent>, i: int, j: int)
    requires
        0 <= i < j < events.len(),
    ensures
        actions_of(WorkerState::Loading, events).len() == events.len(),
        actions_of(WorkerState::Loading, events)[j] == WorkerAction::AnnounceReady ==> {
            &&& actions_of(WorkerState::Loading, events)[i] != WorkerAction::AnnounceReady
            &&& actions_of(WorkerState::Loading, events)[i] != WorkerAction::Respond
            &&& exists|k: int|
                0 <= k < j && (#[trigger] actions_of(WorkerState::Loading, events)[k])
                    == WorkerAction::Annotate
        },
        actions_of(WorkerState::Loading, events)[i] == WorkerAction::AnnounceReady
            ==> actions_of(WorkerState::Loading, events)[j] != WorkerAction::Annotate,
{
    let start = WorkerState::Loading;
    let acts = actions_of(start, events);
    lemma_worker_prefix(start, events, j);
    lemma_worker_prefix(start, events, i);
    lemma_worker_early(events.take(j));
    let at_j = state_after(start, events.take(j));
    if acts[j] == WorkerAction::AnnounceReady {
        assert(at_j == WorkerState::Annotating);
        assert(actions_of(start, events.take(j))[i] == acts[i]);
        let w = choose|k: int|
            0 <= k < j && (#[trigger] actions_of(start, events.take(j))[k])
                == WorkerAction::Annotate;
        assert(acts[w] == WorkerAction::Annotate);
    }
    if acts[i] == WorkerAction::AnnounceReady {
        // after the announcement the worker serves or has ended
        let upto = events.take(i + 1);
        lemma_worker_prefix(start, events.take(j), i + 1);
        assert(events.take(j).take(i + 1) =~= upto);
        assert(upto.drop_last() =~= events.take(i));
        assert(upto.last() == events[i]);
        assert(rank(state_after(start, upto)) >= 3);
        assert(rank(at_j) >= 3);
    }
}

/// A line number as a line of the listing holds it: numbers beyond the
/// largest that it can hold count as the largest.
pub open spec fn clamp_line(n: u64) -> i32 {
    if n <= i32::MAX {
        n as i32
    } else {
        i32::MAX
    }
}

/// A file id as a line of the listing holds it: an id beyond the largest
/// that it can hold counts as not known.
pub open spec fn clamp_file(id: u32) -> i32 {
    if id <= i32::MAX {
        id as i32
    } else {
        -1i32
    }
}

/// The smallest of the numbers (the largest number there is, if there are
/// none).
pub open spec fn least(lines: Seq<u64>) -> u64
    decreases lines.len(),
{
    if lines.len() == 0 {
        u64::MAX
    } else if lines.last() < least(lines.drop_last()) {
        lines.last()
    } else {
        least(lines.drop_last())
    }
}

/// The largest of the numbers (zero, if there are none).
pub open spec fn greatest(lines: Seq<u64>) -> u64
    decreases lines.len(),
{
    if lines.len() == 0 {
        0
    } else if lines.last() > greatest(lines.drop_last()) {
        lines.last()
    } else {
        greatest(lines.drop_last())
    }
}

/// The smallest of the numbers is one of them and none is smaller; the
/// largest is one of them and none is larger.
pub proof fn lemma_least_greatest(lines: Seq<u64>)
    requires
        lines.len() > 0,
    ensures
        lines.contains(least(lines)),
        lines.contains(greatest(lines)),
        forall|i: int|
            0 <= i < lines.len() ==> least(lines) <= (#[trigger] lines[i]) && lines[i] <= greatest(
                lines,
            ),
    decreases lines.len(),
{
    let front = lines.drop_last();
    if front.len() > 0 {
        lemma_least_greatest(front);
        let a = front.index_of(least(front));
        let b = front.index_of(greatest(front));
        assert(lines[a] == least(front));
        assert(lines[b] == greatest(front));
        assert forall|i: int| 0 <= i < lines.len() implies least(lines) <= (#[trigger] lines[i])
            && lines[i] <= greatest(lines) by {
            if i < front.len() {
                assert(front[i] == lines[i]);
            }
        }
    }
    assert(lines[lines.len() - 1] == lines.last());
    if front.len() == 0 {
        assert(least(front) == u64::MAX);
        assert(greatest(front) == 0);
        assert(least(lines) == lines.last());
        assert(greatest(lines) == lines.last());
    }
}

/// A line with the source information of an entry: the file of the entry,
/// its smallest line as the first and its largest as the last; no columns.
pub open spec fn with_source(l: LineModel, e: EntryModel) -> LineModel {
    LineModel {
        file_id: clamp_file(e.file_id),
        start_line: clamp_line(least(e.lines)),
        start_column: -1i32,
        end_line: clamp_line(greatest(e.lines)),
        end_column: -1i32,
        ..l
    }
}

/// The lines with the source information of the entries: a line gets that
/// of the entry of its address, if there is one and the index of the
/// listing points to the line; any other line is left as it is.
pub open spec fn annotated(
    lines: Seq<LineModel>,
    index: Map<u64, usize>,
    info: Map<u64, EntryModel>,
) -> Seq<LineModel> {
    Seq::new(
        lines.len(),
        |i: int|
            if info.dom().contains(lines[i].address) && index[lines[i].address] == i {
                with_source(lines[i], info[lines[i].address])
            } else {
                lines[i]
            },
    )
}

/// Whether one of the first `upto` lines stands at `address`.
pub open spec fn seen(lines: Seq<LineModel>, upto: int, address: u64) -> bool {
    exists|l: int| 0 <= l < upto && (#[trigger] lines[l]).address == address
}

/// The lines with the source information written as far as the addresses
/// of the first `upto` lines go.
pub open spec fn annotated_upto(
    lines: Seq<LineModel>,
    index: Map<u64, usize>,
    info: Map<u64, EntryModel>,
    upto: int,
) -> Seq<LineModel> {
    Seq::new(
        lines.len(),
        |i: int|
            if info.dom().contains(lines[i].address) && index[lines[i].address] == i && seen(
                lines,
                upto,
                lines[i].address,
            ) {
                with_source(lines[i], info[lines[i].address])
            } else {
                lines[i]
            },
    )
}

/// The source information that an entry gives: file id, first line, last
/// line.
pub fn source_span(entry: &LineInfoEntry) -> (r: (i32, i32, i32))
    ensures
        r.0 == clamp_file(entry.file_id),
        r.1 == clamp_line(least(entry.line@)),
        r.2 == clamp_line(greatest(entry.line@)),
{
    let mut min: u64 = u64::MAX;
    let mut max: u64 = 0;
    let mut i: usize = 0;
    assert(entry.line@.take(0) =~= Seq::<u64>::empty());
    while i < entry.line.len()
        invariant
            i <= entry.line.len(),
            min == least(entry.line@.take(i as int)),
            max == greatest(entry.line@.take(i as int)),
        decreases entry.line.len() - i,
    {
        let n: u64 = entry.line[i];
        proof {
            assert(entry.line@.take(i + 1).drop_last() =~= entry.line@.take(i as int));
            assert(entry.line@.take(i + 1).last() == n);
        }
        if n < min {
            min = n;
        }
        if n > max {
            max = n;
        }
        i += 1;
    }
    assert(entry.line@.take(entry.line.len() as int) =~= entry.line@);
    let file: i32 = if entry.file_id <= 0x7fff_ffff {
        entry.file_id as i32
    } else {
        -1
    };
    let first: i32 = if min <= 0x7fff_ffff {
        min as i32
    } else {
        i32::MAX
    };
    let last: i32 = if max <= 0x7fff_ffff {
        max as i32
    } else {
        i32::MAX
    };
    (file, first, last)
}

/// Writes the source lines into the listing: each line that the index of
/// the listing holds for an address with an entry gets the file and the
/// first and last line of that entry.
pub fn annotate_listing(listing: &mut AssemblyListing, lines_info: &AddrtoLineInfo)
    requires
        old(listing).wf(),
        lines_info.wf(),
    ensures
        final(listing).wf(),
        final(listing).spec_index() == old(listing).spec_index(),
        final(listing).spec_blocks() == old(listing).spec_blocks(),
        final(listing).spec_addresses() == old(listing).spec_addresses(),
        final(listing).spec_lines() == annotated(
            old(listing).spec_lines(),
            old(listing).spec_index(),
            lines_info.model(),
        ),
{
    let ghost lines0 = listing.spec_lines();
    let ghost index = listing.spec_index();
    let ghost info = lines_info.model();
    let n: usize = listing.line_count();
    let mut i: usize = 0;
    proof {
        listing.lemma_models();
        assert(listing.spec_lines() =~= annotated_upto(lines0, index, info, 0));
    }
    while i < n
        invariant
            i <= n,
            n == lines0.len(),
            info == lines_info.model(),
            lines_info.wf(),
            listing.wf(),
            listing.spec_index() == index,
            listing.spec_blocks() == old(listing).spec_blocks(),
            listing.spec_addresses() == old(listing).spec_addresses(),
            forall|a: u64| #[trigger]
                index.dom().contains(a) ==> index[a] < lines0.len() && lines0[index[a] as int].address
                    == a,
            forall|j: int|
                0 <= j < lines0.len() ==> index.dom().contains((#[trigger] lines0[j]).address),
            listing.spec_lines() == annotated_upto(lines0, index, info, i as int),
        decreases n - i,
    {
        let ghost before = listing.spec_lines();
        let address: u64 = listing.address_at(i);
        assert(address == lines0[i as int].address);
        let span: Option<(i32, i32, i32)> = match lines_info.get_entry(address) {
            Some(entry) => Some(source_span(entry)),
            None => None,
        };
        match span {
            Some(span) => {
                let _ = listing.set_source_info_at(address, span.0, span.1, -1, span.2, -1);
            },
            None => {},
        }
        proof {
            let want = annotated_upto(lines0, index, info, i + 1);
            let now = listing.spec_lines();
            let t = index[address] as int;
            assert(now.len() == want.len());
            assert(seen(lines0, i + 1, address));
            assert forall|j: int| 0 <= j < now.len() implies now[j] == want[j] by {
                let a = lines0[j].address;
                if a != address {
                    if seen(lines0, i + 1, a) {
                        let l = choose|l: int| 0 <= l < i + 1 && (#[trigger] lines0[l]).address == a;
                        assert(l < i);
                        assert(seen(lines0, i as int, a));
                    }
                    if seen(lines0, i as int, a) {
                        let l = choose|l: int| 0 <= l < i && (#[trigger] lines0[l]).address == a;
                        assert(seen(lines0, i + 1, a));
                    }
                    assert(j != t);
                    assert(now[j] == before[j]);
                } else if j != t || !info.dom().contains(address) {
                    assert(now[j] == before[j]);
                }
            }
            assert(now =~= want);
        }
        i += 1;
    }
    proof {
        assert forall|j: int| 0 <= j < lines0.len() implies seen(
            lines0,
            n as int,
            (#[trigger] lines0[j]).address,
        ) by {}
        assert(annotated_upto(lines0, index, info, n as int) =~= annotated(lines0, index, info));
    }
}

/// An instruction of a response as a mathematical value.
pub struct SerModel {
    pub a: Seq<char>,
    pub b: Seq<char>,
    pub i: Seq<char>,
    pub f: i32,
    pub o: u32,
    pub file: i32,
    pub sl: i32,
    pub el: i32,
}

impl View for SerInstruction {
    type V = SerModel;

    open spec fn view(&self) -> SerModel {
        SerModel {
            a: self.a@,
            b: self.b@,
            i: self.i@,
            f: self.f,
            o: self.o,
            file: self.F,
            sl: self.sl,
            el: self.el,
        }
    }
}

/// The instruction that a line makes in a response: the address in base
/// sixteen without a prefix, the rest as the line has it.
pub open spec fn ser_of(l: LineModel) -> SerModel {
    SerModel {
        a: hex_digits(l.address as nat),
        b: l.bytes,
        i: l.instruction,
        f: l.function_id,
        o: l.offset_in_function,
        file: l.file_id,
        sl: l.start_line,
        el: l.end_line,
    }
}

impl SerInstruction {
    /// The instruction that a line makes in a response.
    pub fn from_assembly_line(instr: &AssemblyLine) -> (r: Self)
        ensures
            r@ == ser_of(instr@),
    {
        SerInstruction {
            a: string_of(&to_hex(instr.address)),
            b: instr.bytes.clone(),
            i: instr.instruction.clone(),
            f: instr.function_id,
            o: instr.offset_in_function,
            F: instr.file_id,
            sl: instr.start_line,
            el: instr.end_line,
        }
    }
}

/// A table of names as a mathematical map.
pub open spec fn names_of(table: Map<u32, String>) -> Map<u32, Seq<char>> {
    table.map_values(|s: String| s@)
}

/// A response as a mathematical value.
pub struct ResponseModel {
    pub req: Seq<char>,
    pub seq: u64,
    pub file_table: Map<u32, Seq<char>>,
    pub func_table: Map<u32, Seq<char>>,
    pub instructions: Seq<SerModel>,
}

impl DisasmResponse {
    /// The response as a mathematical value.
    pub open spec fn model(&self) -> ResponseModel {
        ResponseModel {
            req: self.req@,
            seq: self.seq,
            file_table: names_of(self.file_table@),
            func_table: names_of(self.func_table@),
            instructions: self.instructions@.map_values(|s: SerInstruction| s@),
        }
    }

    /// A response to the request with the sequence number `seq`.
    pub fn new(
        seq: u64,
        file_table: HashMap<u32, String>,
        func_table: HashMap<u32, String>,
        instructions: Vec<SerInstruction>,
    ) -> (r: Self)
        ensures
            r.model() == (ResponseModel {
                req: "disasm"@,
                seq,
                file_table: names_of(file_table@),
                func_table: names_of(func_table@),
                instructions: instructions@.map_values(|s: SerInstruction| s@),
            }),
    {
        DisasmResponse { req: "disasm".to_owned(), seq, file_table, func_table, instructions }
    }
}

/// The number of lines that a request asks for in front of its address:
/// the instruction offset, where it is negative.
pub open spec fn lines_before(req: DisasmRequest) -> nat {
    if req.instr_offset < 0 {
        (-req.instr_offset) as nat
    } else {
        0
    }
}

/// The number of lines that a request asks for behind its address: what is
/// left of the count once the lines in front are taken off; none where the
/// count is smaller than that.
pub open spec fn lines_after(req: DisasmRequest) -> nat {
    if req.instr_count >= lines_before(req) {
        (req.instr_count - lines_before(req)) as nat
    } else {
        0
    }
}

/// Whether the window of a request is small enough for the machine to
/// count its lines.
pub open spec fn window_fits(req: DisasmRequest) -> bool {
    lines_before(req) + lines_after(req) + 1 <= usize::MAX
}

/// The name under which a response shows the file with the id `id`: the
/// name that the file table has for it, or `file_` and the id where the
/// table has none or is not at hand.
pub open spec fn file_name_of(paths: Option<Seq<Seq<char>>>, id: u32) -> Seq<char> {
    match paths {
        Some(p) => match path_of(p, id) {
            Some(name) => name,
            None => "file_"@ + dec_digits(id as nat),
        },
        None => "file_"@ + dec_digits(id as nat),
    }
}

/// The table of files of a window: each file id of its lines that is not
/// negative, with the name of the file.
pub open spec fn file_table_of(window: Seq<LineModel>, paths: Option<Seq<Seq<char>>>) -> Map<
    u32,
    Seq<char>,
> {
    Map::new(
        |k: u32| exists|i: int| 0 <= i < window.len() && (#[trigger] window[i]).file_id == k,
        |k: u32| file_name_of(paths, k),
    )
}

/// The table of functions of a window: each function id of its lines that
/// is not negative and for which the listing has a block, with the name of
/// the block.
pub open spec fn func_table_of(window: Seq<LineModel>, blocks: Seq<BlockModel>) -> Map<
    u32,
    Seq<char>,
> {
    Map::new(
        |k: u32|
            k < blocks.len() && exists|i: int|
                0 <= i < window.len() && (#[trigger] window[i]).function_id == k,
        |k: u32| blocks[k as int].name,
    )
}

/// The response to a request: the window around its address, and the names
/// of the files and functions of the window.
pub open spec fn response_of(
    sorted: Seq<LineModel>,
    blocks: Seq<BlockModel>,
    paths: Option<Seq<Seq<char>>>,
    req: DisasmRequest,
) -> ResponseModel {
    let window = window_of(sorted, req.start_addr, lines_before(req), lines_after(req));
    ResponseModel {
        req: "disasm"@,
        seq: req.seq_id,
        file_table: file_table_of(window, paths),
        func_table: func_table_of(window, blocks),
        instructions: window.map_values(|l: LineModel| ser_of(l)),
    }
}

fn file_name(file_table: Option<&FileTable>, id: u32) -> (r: String)
    requires
        file_table is Some ==> file_table->0.wf(),
    ensures
        r@ == file_name_of(
            match file_table {
                Some(t) => Some(t.paths()),
                None => None,
            },
            id,
        ),
{
    match file_table {
        Some(table) => match table.get_by_id(id) {
            Some(name) => {
                return name.clone();
            },
            None => {},
        },
        None => {},
    }
    let mut out: Vec<char> = chars_of("file_");
    push_all(&mut out, &to_dec(id as u64));
    string_of(&out)
}

/// The tables of the files and of the functions of a window.
pub fn name_tables(
    window: &Vec<AssemblyLine>,
    blocks: &Vec<AssemblyBlock>,
    file_table: Option<&FileTable>,
) -> (r: (HashMap<u32, String>, HashMap<u32, String>))
    requires
        file_table is Some ==> file_table->0.wf(),
    ensures
        names_of(r.0@) == file_table_of(
            window@.map_values(|l: AssemblyLine| l@),
            match file_table {
                Some(t) => Some(t.paths()),
                None => None,
            },
        ),
        names_of(r.1@) == func_table_of(
            window@.map_values(|l: AssemblyLine| l@),
            blocks@.map_values(|b: AssemblyBlock| b@),
        ),
{
    let mut files: HashMap<u32, String> = HashMap::new();
    let mut funcs: HashMap<u32, String> = HashMap::new();
    let ghost lines = window@.map_values(|l: AssemblyLine| l@);
    let ghost block_models = blocks@.map_values(|b: AssemblyBlock| b@);
    let ghost paths = match file_table {
        Some(t) => Some(t.paths()),
        None => None,
    };
    let mut i: usize = 0;
    assert(names_of(files@) =~= file_table_of(lines.take(0), paths));
    assert(names_of(funcs@) =~= func_table_of(lines.take(0), block_models));
    while i < window.len()
        invariant
            i <= window.len(),
            lines == window@.map_values(|l: AssemblyLine| l@),
            block_models == blocks@.map_values(|b: AssemblyBlock| b@),
            paths == match file_table {
                Some(t) => Some(t.paths()),
                None => None,
            },
            file_table is Some ==> file_table->0.wf(),
            names_of(files@) == file_table_of(lines.take(i as int), paths),
            names_of(funcs@) == func_table_of(lines.take(i as int), block_models),
        decreases window.len() - i,
    {
        let instr = &window[i];
        let ghost prev = lines.take(i as int);
        let ghost next = lines.take(i + 1);
        proof {
            assert(next.len() == i + 1);
            assert(next[i as int] == instr@);
            assert forall|j: int| 0 <= j < i implies next[j] == prev[j] by {}
        }
        let ghost old_funcs = funcs@;
        let ghost old_files = files@;
        if instr.function_id >= 0 {
            let key: u32 = instr.function_id as u32;
            if !funcs.contains_key(&key) && (key as usize) < blocks.len() {
                funcs.insert(key, blocks[key as usize].name.clone());
            }
        }
        if instr.file_id >= 0 {
            let key: u32 = instr.file_id as u32;
            if !files.contains_key(&key) {
                files.insert(key, file_name(file_table, key));
            }
        }
        proof {
            let want_funcs = func_table_of(next, block_models);
            assert forall|k: u32| names_of(funcs@).dom().contains(k) <==> want_funcs.dom().contains(
                k,
            ) by {
                if want_funcs.dom().contains(k) {
                    let w = choose|j: int|
                        0 <= j < next.len() && (#[trigger] next[j]).function_id == k;
                    if w < i {
                        assert(prev[w].function_id == k);
                    }
                }
                if func_table_of(prev, block_models).dom().contains(k) {
                    let w = choose|j: int|
                        0 <= j < prev.len() && (#[trigger] prev[j]).function_id == k;
                    assert(next[w].function_id == k);
                }
                if instr.function_id == k as int && k < blocks.len() {
                    assert(next[i as int].function_id == k);
                }
            }
            assert forall|k: u32| #[trigger] want_funcs.dom().contains(k) implies names_of(
                funcs@,
            )[k] == want_funcs[k] by {
                if old_funcs.dom().contains(k) {
                    assert(names_of(old_funcs).dom().contains(k));
                    assert(names_of(old_funcs)[k] == func_table_of(prev, block_models)[k]);
                    assert(funcs@[k] == old_funcs[k]);
                } else {
                    assert(block_models[k as int] == blocks@[k as int]@);
                }
            }
            assert(names_of(funcs@).dom() =~= want_funcs.dom());
            assert(names_of(funcs@) =~= want_funcs);
            let want_files = file_table_of(next, paths);
            assert forall|k: u32| names_of(files@).dom().contains(k) <==> want_files.dom().contains(
                k,
            ) by {
                if want_files.dom().contains(k) {
                    let w = choose|j: int| 0 <= j < next.len() && (#[trigger] next[j]).file_id == k;
                    if w < i {
                        assert(prev[w].file_id == k);
                    }
                }
                if file_table_of(prev, paths).dom().contains(k) {
                    let w = choose|j: int| 0 <= j < prev.len() && (#[trigger] prev[j]).file_id == k;
                    assert(next[w].file_id == k);
                }
                if instr.file_id == k as int {
                    assert(next[i as int].file_id == k);
                }
            }
            assert forall|k: u32| #[trigger] want_files.dom().contains(k) implies names_of(
                files@,
            )[k] == want_files[k] by {
                if old_files.dom().contains(k) {
                    assert(names_of(old_files).dom().contains(k));
                    assert(names_of(old_files)[k] == file_table_of(prev, paths)[k]);
                    assert(files@[k] == old_files[k]);
                }
            }
            assert(names_of(files@).dom() =~= want_files.dom());
            assert(names_of(files@) =~= want_files);
        }
        i += 1;
    }
    assert(lines.take(window.len() as int) =~= lines);
    (files, funcs)
}

/// The response to a request, from the listing and, where it is at hand,
/// the table of source files; `None` where the window that the request asks
/// for has more lines than the machine can count.
pub fn build_disasm_response(
    listing: &AssemblyListing,
    file_table: Option<&FileTable>,
    req: &DisasmRequest,
) -> (r: Option<DisasmResponse>)
    requires
        listing.wf(),
        file_table is Some ==> file_table->0.wf(),
    ensures
        match r {
            Some(response) => window_fits(*req) && response.model() == response_of(
                listing.spec_sorted(),
                listing.spec_blocks(),
                match file_table {
                    Some(t) => Some(t.paths()),
                    None => None,
                },
                *req,
            ),
            None => !window_fits(*req),
        },
{
    let before: u64 = if req.instr_offset < 0 {
        if req.instr_offset == i64::MIN {
            0x8000_0000_0000_0000
        } else {
            (-req.instr_offset) as u64
        }
    } else {
        0
    };
    let after: u64 = if req.instr_count >= before {
        req.instr_count - before
    } else {
        0
    };
    let total: u64 = match before.checked_add(after) {
        Some(t) => t,
        None => {
            return None;
        },
    };
    if total >= usize::MAX as u64 {
        return None;
    }
    let window = listing.get_window(req.start_addr, before as usize, after as usize);
    let tables = name_tables(&window, listing.blocks(), file_table);
    let mut instructions: Vec<SerInstruction> = Vec::new();
    let ghost lines = window@.map_values(|l: AssemblyLine| l@);
    let mut i: usize = 0;
    while i < window.len()
        invariant
            i <= window.len(),
            lines == window@.map_values(|l: AssemblyLine| l@),
            instructions@.map_values(|s: SerInstruction| s@) == lines.take(i as int).map_values(
                |l: LineModel| ser_of(l),
            ),
        decreases window.len() - i,
    {
        let ghost old_instructions = instructions@;
        let ser = SerInstruction::from_assembly_line(&window[i]);
        instructions.push(ser);
        proof {
            assert(instructions@.map_values(|s: SerInstruction| s@) =~= old_instructions.map_values(
                |s: SerInstruction| s@,
            ).push(ser@));
            assert(lines.take(i + 1).map_values(|l: LineModel| ser_of(l)) =~= lines.take(
                i as int,
            ).map_values(|l: LineModel| ser_of(l)).push(ser_of(lines[i as int])));
        }
        i += 1;
    }
    assert(lines.take(window.len() as int) =~= lines);
    Some(DisasmResponse::new(req.seq_id, tables.0, tables.1, instructions))
}

} // verus!
