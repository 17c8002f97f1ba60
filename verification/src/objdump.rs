//! The text that the disassembler prints, line by line: which lines are
//! function headers, which are instructions, and what they hold.

use crate::text::{
    chars_of, is_lower_hex, is_whitespace, lower_hex, parse_hex_u64, parse_radix16, push_all,
    remove_whitespace, slice_of, string_of, strip_leading, strip_trailing, trim, trim_leading,
    trim_start, trim_trailing, trimmed, whitespace, without_whitespace,
};
use crate::get_assembly::{AssemblyBlock, AssemblyLine, AssemblyListing, BlockModel, LineModel};
use vstd::prelude::*;

verus! {

/// What a line of the disassembler's output is.
pub enum LineShape {
    /// An empty line: it ends a block.
    Blank,
    /// The header of a function: the address, and the name in angle
    /// brackets with a colon behind it, as in `08000130 <main>:`; or, in
    /// the short form, the address and the name, each with a colon behind
    /// it and a tab between them.
    Header { name: Seq<char>, address: u64 },
    /// An instruction: `<address>:`, the bytes and the instruction text,
    /// with a tab between them.
    Instruction { address: u64, bytes: Seq<char>, text: Seq<char>, raw: Seq<char> },
    /// Anything else: it is passed over.
    Other,
}

/// A line of the disassembler's output, taken apart.
#[derive(Debug)]
pub enum ParsedLine {
    Blank,
    Header { name: String, address: u64 },
    Instruction { address: u64, bytes: String, text: String, raw: String },
    Other,
}

impl View for ParsedLine {
    type V = LineShape;

    open spec fn view(&self) -> LineShape {
        match self {
            ParsedLine::Blank => LineShape::Blank,
            ParsedLine::Header { name, address } => LineShape::Header {
                name: name@,
                address: *address,
            },
            ParsedLine::Instruction { address, bytes, text, raw } => LineShape::Instruction {
                address: *address,
                bytes: bytes@,
                text: text@,
                raw: raw@,
            },
            ParsedLine::Other => LineShape::Other,
        }
    }
}

/// `s` without the line feeds and carriage returns at its end.
pub open spec fn strip_line_end(s: Seq<char>) -> Seq<char>
    decreases s.len(),
{
    if s.len() > 0 && (s.last() == '\n' || s.last() == '\r') {
        strip_line_end(s.drop_last())
    } else {
        s
    }
}

/// The pieces of `s` between the occurrences of `sep`; a text without any
/// is one piece.
pub open spec fn split_on(s: Seq<char>, sep: char) -> Seq<Seq<char>>
    decreases s.len(),
{
    if s.len() == 0 {
        seq![Seq::empty()]
    } else {
        let rest = split_on(s.drop_last(), sep);
        if s.last() == sep {
            rest.push(Seq::empty())
        } else {
            rest.drop_last().push(rest.last().push(s.last()))
        }
    }
}

/// The pieces with `sep` between them.
pub open spec fn join_with(pieces: Seq<Seq<char>>, sep: char) -> Seq<char>
    decreases pieces.len(),
{
    if pieces.len() == 0 {
        Seq::empty()
    } else if pieces.len() == 1 {
        pieces[0]
    } else {
        join_with(pieces.drop_last(), sep).push(sep) + pieces.last()
    }
}

/// The length of the run of characters at the start of `s` that are not
/// white space.
pub open spec fn token_len(s: Seq<char>) -> nat
    decreases s.len(),
{
    if s.len() == 0 || is_whitespace(s[0]) {
        0
    } else {
        1 + token_len(s.skip(1))
    }
}

/// `s` without the repetitions of the two characters `>:` at its end.
pub open spec fn strip_header_end(s: Seq<char>) -> Seq<char>
    decreases s.len(),
{
    if s.len() >= 2 && s[s.len() - 2] == '>' && s[s.len() - 1] == ':' {
        strip_header_end(s.take(s.len() - 2))
    } else {
        s
    }
}

/// The number that a field holds in base sixteen, once the colons at its end
/// are gone; zero if it holds none.
pub open spec fn address_of_field(field: Seq<char>) -> u64 {
    match parse_radix16(strip_trailing(field, ':')) {
        Some(a) => a,
        None => 0,
    }
}

/// The name in the second word of a header: without the `<` in front and
/// without the `>:` and `>` at the end.
pub open spec fn name_of_word(word: Seq<char>) -> Seq<char> {
    strip_trailing(strip_header_end(strip_leading(word, '<')), '>')
}

/// What a line without tabs that ends in `>:` is: a header, if it has two
/// words.
pub open spec fn header_shape(raw: Seq<char>) -> LineShape {
    let first = raw.take(token_len(raw) as int);
    let rest = trim_start(raw.skip(token_len(raw) as int));
    if rest.len() == 0 {
        LineShape::Other
    } else {
        let second = rest.take(token_len(rest) as int);
        LineShape::Header { name: name_of_word(second), address: address_of_field(first) }
    }
}

/// What a line with fields between tabs is. With three fields or more it
/// is an instruction: the address, the bytes, and the instruction text made
/// of the rest. With two fields of which the second ends in a colon it is
/// a header in its short form, `<address>:` and `<name>:`. Anything else is
/// passed over.
pub open spec fn tabbed_shape(raw: Seq<char>) -> LineShape {
    let fields = split_on(raw, '\t').map_values(|f: Seq<char>| trimmed(f));
    if fields.len() >= 3 {
        LineShape::Instruction {
            address: address_of_field(fields[0]),
            bytes: without_whitespace(fields[1]),
            text: join_with(fields.skip(2), '\t'),
            raw,
        }
    } else if fields.len() == 2 && fields[1].len() > 0 && fields[1].last() == ':' {
        LineShape::Header {
            name: strip_trailing(name_of_word(fields[1]), ':'),
            address: address_of_field(fields[0]),
        }
    } else {
        LineShape::Other
    }
}

/// What a line of the disassembler's output is. The line may still carry
/// its line feed. A line that is empty is blank. Any other line counts
/// without the white space at its ends; it is passed over unless it starts
/// with a digit of base sixteen in lower case and holds a colon. A line
/// without tabs that ends in `>:` is a header; a line with tabs is an
/// instruction or a header in its short form.
pub open spec fn line_shape(line: Seq<char>) -> LineShape {
    let body = strip_line_end(line);
    if body.len() == 0 {
        LineShape::Blank
    } else {
        let raw = trimmed(body);
        if raw.len() == 0 || !is_lower_hex(raw[0]) || !raw.contains(':') {
            LineShape::Other
        } else if !raw.contains('\t') && raw.len() >= 2 && raw[raw.len() - 2] == '>' && raw[raw.len()
            - 1] == ':' {
            header_shape(raw)
        } else {
            tabbed_shape(raw)
        }
    }
}

/// The views of the vectors of `v`.
pub open spec fn views(v: Seq<Vec<char>>) -> Seq<Seq<char>> {
    v.map_values(|x: Vec<char>| x@)
}

fn contains_char(s: &Vec<char>, c: char) -> (r: bool)
    ensures
        r == s@.contains(c),
{
    let mut i: usize = 0;
    while i < s.len()
        invariant
            i <= s.len(),
            forall|k: int| 0 <= k < i ==> s@[k] != c,
        decreases s.len() - i,
    {
        if s[i] == c {
            return true;
        }
        i += 1;
    }
    false
}

fn trim_line_end(s: &Vec<char>) -> (r: Vec<char>)
    ensures
        r@ == strip_line_end(s@),
{
    let mut b: usize = s.len();
    assert(s@.take(b as int) == s@);
    while b > 0 && (s[b - 1] == '\n' || s[b - 1] == '\r')
        invariant
            b <= s.len(),
            strip_line_end(s@) == strip_line_end(s@.take(b as int)),
        decreases b,
    {
        assert(s@.take(b as int).drop_last() == s@.take(b - 1));
        b -= 1;
    }
    assert(s@.take(b as int) == s@.subrange(0, b as int));
    slice_of(s, 0, b)
}

fn trim_header_end(s: &Vec<char>) -> (r: Vec<char>)
    ensures
        r@ == strip_header_end(s@),
{
    let mut b: usize = s.len();
    assert(s@.take(b as int) == s@);
    while b >= 2 && s[b - 2] == '>' && s[b - 1] == ':'
        invariant
            b <= s.len(),
            strip_header_end(s@) == strip_header_end(s@.take(b as int)),
        decreases b,
    {
        assert(s@.take(b as int).take(b - 2) == s@.take(b - 2));
        b -= 2;
    }
    assert(s@.take(b as int) == s@.subrange(0, b as int));
    slice_of(s, 0, b)
}

fn split_fields(s: &Vec<char>, sep: char) -> (r: Vec<Vec<char>>)
    ensures
        views(r@) == split_on(s@, sep),
{
    let mut done: Vec<Vec<char>> = Vec::new();
    let mut piece: Vec<char> = Vec::new();
    let mut i: usize = 0;
    assert(s@.take(0) =~= Seq::<char>::empty());
    assert(views(done@).push(piece@) =~= split_on(s@.take(0), sep));
    while i < s.len()
        invariant
            i <= s.len(),
            views(done@).push(piece@) == split_on(s@.take(i as int), sep),
        decreases s.len() - i,
    {
        let c = s[i];
        let ghost before = split_on(s@.take(i as int), sep);
        proof {
            assert(s@.take(i + 1).drop_last() == s@.take(i as int));
            assert(s@.take(i + 1).last() == c);
            assert(before.last() == piece@);
            assert(before.drop_last() =~= views(done@));
        }
        if c == sep {
            let ghost old_done = done@;
            done.push(piece);
            piece = Vec::new();
            proof {
                assert(views(done@) =~= views(old_done).push(done@.last()@));
                assert(views(done@).push(piece@) =~= before.push(Seq::empty()));
            }
        } else {
            piece.push(c);
        }
        i += 1;
    }
    assert(s@.take(s.len() as int) == s@);
    let ghost old_done = done@;
    done.push(piece);
    assert(views(done@) =~= views(old_done).push(done@.last()@));
    done
}

fn join_fields(pieces: &Vec<Vec<char>>, from: usize, sep: char) -> (r: Vec<char>)
    requires
        from <= pieces.len(),
    ensures
        r@ == join_with(views(pieces@).skip(from as int), sep),
{
    let mut out: Vec<char> = Vec::new();
    let mut i: usize = from;
    let ghost all = views(pieces@).skip(from as int);
    assert(all.take(0) =~= Seq::<Seq<char>>::empty());
    while i < pieces.len()
        invariant
            from <= i <= pieces.len(),
            all == views(pieces@).skip(from as int),
            out@ == join_with(all.take(i - from), sep),
        decreases pieces.len() - i,
    {
        proof {
            assert(all.take(i - from + 1).drop_last() =~= all.take(i - from));
            assert(all.take(i - from + 1).last() == pieces@[i as int]@);
        }
        if i > from {
            out.push(sep);
        }
        push_all(&mut out, &pieces[i]);
        proof {
            if i == from {
                assert(all.take(1)[0] == pieces@[i as int]@);
                assert(out@ =~= pieces@[i as int]@);
            }
        }
        i += 1;
    }
    assert(all.take(pieces.len() - from) =~= all);
    out
}

fn token_end(s: &Vec<char>, from: usize) -> (end: usize)
    requires
        from <= s.len(),
    ensures
        from <= end <= s.len(),
        end - from == token_len(s@.skip(from as int)),
{
    let mut e: usize = from;
    while e < s.len() && !whitespace(s[e])
        invariant
            from <= e <= s.len(),
            token_len(s@.skip(from as int)) == (e - from) + token_len(s@.skip(e as int)),
        decreases s.len() - e,
    {
        assert(s@.skip(e as int).skip(1) == s@.skip(e + 1));
        e += 1;
    }
    e
}

fn address_field(field: &Vec<char>) -> (a: u64)
    ensures
        a == address_of_field(field@),
{
    let digits = trim_trailing(field, ':');
    match parse_hex_u64(&digits) {
        Some(a) => a,
        None => 0,
    }
}

fn parse_header(raw: &Vec<char>) -> (r: ParsedLine)
    ensures
        r@ == header_shape(raw@),
{
    let end0 = token_end(raw, 0);
    assert(raw@.skip(0) == raw@);
    let first = slice_of(raw, 0, end0);
    assert(raw@.subrange(0, end0 as int) == raw@.take(end0 as int));
    let tail = slice_of(raw, end0, raw.len());
    assert(raw@.subrange(end0 as int, raw.len() as int) == raw@.skip(end0 as int));
    let rest = trim_leading_space(&tail);
    if rest.len() == 0 {
        return ParsedLine::Other;
    }
    let end1 = token_end(&rest, 0);
    assert(rest@.skip(0) == rest@);
    let second = slice_of(&rest, 0, end1);
    assert(rest@.subrange(0, end1 as int) == rest@.take(end1 as int));
    let a = trim_leading(&second, '<');
    let b = trim_header_end(&a);
    let name = trim_trailing(&b, '>');
    ParsedLine::Header { name: string_of(&name), address: address_field(&first) }
}

fn trim_leading_space(s: &Vec<char>) -> (r: Vec<char>)
    ensures
        r@ == trim_start(s@),
{
    let mut a: usize = 0;
    assert(s@.skip(0) == s@);
    while a < s.len() && whitespace(s[a])
        invariant
            a <= s.len(),
            trim_start(s@) == trim_start(s@.skip(a as int)),
        decreases s.len() - a,
    {
        assert(s@.skip(a as int).skip(1) == s@.skip(a + 1));
        a += 1;
    }
    assert(s@.skip(a as int) == s@.subrange(a as int, s.len() as int));
    slice_of(s, a, s.len())
}

fn parse_tabbed(raw: &Vec<char>) -> (r: ParsedLine)
    ensures
        r@ == tabbed_shape(raw@),
{
    let pieces = split_fields(raw, '\t');
    let mut fields: Vec<Vec<char>> = Vec::new();
    let mut i: usize = 0;
    let ghost want = split_on(raw@, '\t').map_values(|f: Seq<char>| trimmed(f));
    while i < pieces.len()
        invariant
            i <= pieces.len(),
            views(pieces@) == split_on(raw@, '\t'),
            want == split_on(raw@, '\t').map_values(|f: Seq<char>| trimmed(f)),
            views(fields@) == want.take(i as int),
        decreases pieces.len() - i,
    {
        let ghost old_fields = fields@;
        let t = trim(&pieces[i]);
        assert(views(pieces@)[i as int] == pieces@[i as int]@);
        fields.push(t);
        assert(views(fields@) =~= views(old_fields).push(fields@.last()@));
        assert(want.take(i + 1) =~= want.take(i as int).push(want[i as int]));
        i += 1;
    }
    assert(want.take(pieces.len() as int) =~= want);
    if fields.len() >= 3 {
        assert(views(fields@)[0] == fields@[0]@);
        assert(views(fields@)[1] == fields@[1]@);
        let address = address_field(&fields[0]);
        let bytes = remove_whitespace(&fields[1]);
        let text = join_fields(&fields, 2, '\t');
        ParsedLine::Instruction {
            address,
            bytes: string_of(&bytes),
            text: string_of(&text),
            raw: string_of(raw),
        }
    } else if fields.len() == 2 && fields[1].len() > 0 && fields[1][fields[1].len() - 1] == ':' {
        assert(views(fields@)[0] == fields@[0]@);
        assert(views(fields@)[1] == fields@[1]@);
        let a = trim_leading(&fields[1], '<');
        let b = trim_header_end(&a);
        let c = trim_trailing(&b, '>');
        let name = trim_trailing(&c, ':');
        ParsedLine::Header { name: string_of(&name), address: address_field(&fields[0]) }
    } else {
        assert(fields@.len() == want.len());
        if fields.len() == 2 {
            assert(views(fields@)[1] == fields@[1]@);
        }
        ParsedLine::Other
    }
}

/// Takes a line of the disassembler's output apart.
pub fn parse_line(line: &str) -> (r: ParsedLine)
    ensures
        r@ == line_shape(line@),
{
    let all = chars_of(line);
    let body = trim_line_end(&all);
    if body.len() == 0 {
        return ParsedLine::Blank;
    }
    let raw = trim(&body);
    if raw.len() == 0 || !lower_hex(raw[0]) || !contains_char(&raw, ':') {
        return ParsedLine::Other;
    }
    let n: usize = raw.len();
    if !contains_char(&raw, '\t') && n >= 2 && raw[n - 2] == '>' && raw[n - 1] == ':' {
        parse_header(&raw)
    } else {
        parse_tabbed(&raw)
    }
}

/// The state of a listing under construction: the lines and the finished
/// blocks so far, and the block that is being filled.
pub struct BuilderModel {
    pub lines: Seq<LineModel>,
    pub blocks: Seq<BlockModel>,
    pub current: BlockModel,
}

/// The id of the block that takes position `n` among the blocks: `n`, or
/// `-1` where `n` is more than an id can hold.
pub open spec fn block_id(n: nat) -> i32 {
    if n <= i32::MAX {
        n as i32
    } else {
        -1i32
    }
}

/// A block without lines.
pub open spec fn fresh_block(name: Seq<char>, start_address: u64, id: i32) -> BlockModel {
    BlockModel { name, id, start_address, lines: Seq::empty() }
}

/// The block that lines fall into when no header came before them.
pub open spec fn nameless_block() -> BlockModel {
    fresh_block(Seq::empty(), 0, -1i32)
}

/// The state before the first line.
pub open spec fn initial_model() -> BuilderModel {
    BuilderModel { lines: Seq::empty(), blocks: Seq::empty(), current: nameless_block() }
}

/// The finished blocks once the current block is closed: it joins them if
/// it has a line, and is dropped if it has none.
pub open spec fn flushed(m: BuilderModel) -> Seq<BlockModel> {
    if m.current.lines.len() > 0 {
        m.blocks.push(m.current)
    } else {
        m.blocks
    }
}

/// The distance of `address` from the start of its block, as far as 32 bits
/// hold it.
pub open spec fn offset_in_block(address: u64, start: u64) -> u32 {
    ((address - start) % 0x1_0000_0000) as u32
}

/// The line that an instruction at `address` makes in the block `current`.
pub open spec fn line_in_block(
    current: BlockModel,
    address: u64,
    bytes: Seq<char>,
    text: Seq<char>,
    raw: Seq<char>,
) -> LineModel {
    LineModel {
        address,
        bytes,
        instruction: text,
        raw_line: raw,
        offset_in_function: offset_in_block(address, current.start_address),
        function_id: current.id,
        file_id: -1i32,
        start_line: -1i32,
        start_column: -1i32,
        end_line: -1i32,
        end_column: -1i32,
    }
}

/// What one line of the disassembler's output does to the state.
///
/// - A blank line closes the current block; lines that follow fall into a
///   nameless block that starts at zero.
/// - A header closes the current block and opens one with its name and
///   address.
/// - An instruction at or after the start of the current block becomes a
///   line of the listing and of that block. One before the start closes the
///   current block and opens a nameless block at its address, and is itself
///   dropped.
/// - Any other line changes nothing.
pub open spec fn step(m: BuilderModel, shape: LineShape) -> BuilderModel {
    match shape {
        LineShape::Blank => BuilderModel {
            lines: m.lines,
            blocks: flushed(m),
            current: nameless_block(),
        },
        LineShape::Header { name, address } => BuilderModel {
            lines: m.lines,
            blocks: flushed(m),
            current: fresh_block(name, address, block_id(flushed(m).len())),
        },
        LineShape::Instruction { address, bytes, text, raw } => if address
            < m.current.start_address {
            BuilderModel {
                lines: m.lines,
                blocks: flushed(m),
                current: fresh_block(Seq::empty(), address, block_id(flushed(m).len())),
            }
        } else {
            BuilderModel {
                lines: m.lines.push(line_in_block(m.current, address, bytes, text, raw)),
                blocks: m.blocks,
                current: BlockModel {
                    lines: m.current.lines.push(m.lines.len() as usize),
                    ..m.current
                },
            }
        },
        LineShape::Other => m,
    }
}

/// The state after the lines `input`, read in order from the state `m`.
pub open spec fn run(m: BuilderModel, input: Seq<Seq<char>>) -> BuilderModel
    decreases input.len(),
{
    if input.len() == 0 {
        m
    } else {
        step(run(m, input.drop_last()), line_shape(input.last()))
    }
}

/// The lines of all the blocks, block after block.
pub open spec fn block_lines(blocks: Seq<BlockModel>) -> Seq<usize>
    decreases blocks.len(),
{
    if blocks.len() == 0 {
        Seq::empty()
    } else {
        block_lines(blocks.drop_last()) + blocks.last().lines
    }
}

/// Whether the lines of `block` are lines of the listing that name the
/// block as theirs, stand at or after its start, and hold their distance
/// from it.
pub open spec fn block_holds(lines: Seq<LineModel>, block: BlockModel) -> bool {
    forall|j: int|
        0 <= j < block.lines.len() ==> {
            &&& (#[trigger] block.lines[j]) < lines.len()
            &&& lines[block.lines[j] as int].function_id == block.id
            &&& lines[block.lines[j] as int].address >= block.start_address
            &&& lines[block.lines[j] as int].offset_in_function == offset_in_block(
                lines[block.lines[j] as int].address,
                block.start_address,
            )
        }
}

/// What holds of every state that the lines of a disassembly lead to:
/// each line belongs to exactly one block, the finished ones and the current
/// one taken together and in order; each finished block has a line and has
/// its position as its id, or `-1`; and the current block will have, once
/// finished, its position as its id, or `-1`.
pub open spec fn consistent(m: BuilderModel) -> bool {
    &&& block_lines(m.blocks) + m.current.lines == Seq::new(m.lines.len(), |i: int| i as usize)
    &&& forall|k: int|
        0 <= k < m.blocks.len() ==> {
            &&& block_holds(m.lines, #[trigger] m.blocks[k])
            &&& m.blocks[k].lines.len() > 0
            &&& (m.blocks[k].id == block_id(k as nat) || m.blocks[k].id == -1)
        }
    &&& block_holds(m.lines, m.current)
    &&& (m.current.id == block_id(m.blocks.len()) || m.current.id == -1)
}

/// Every line of the disassembler's output leads from a consistent state to
/// a consistent state.
pub proof fn lemma_step_consistent(m: BuilderModel, shape: LineShape)
    requires
        consistent(m),
        m.lines.len() <= usize::MAX,
    ensures
        consistent(step(m, shape)),
{
    let next = step(m, shape);
    let closes = match shape {
        LineShape::Blank => true,
        LineShape::Header { .. } => true,
        LineShape::Instruction { address, .. } => address < m.current.start_address,
        LineShape::Other => false,
    };
    if closes {
        if m.current.lines.len() > 0 {
            assert(next.blocks.drop_last() == m.blocks);
            assert forall|k: int| 0 <= k < next.blocks.len() implies {
                &&& block_holds(next.lines, #[trigger] next.blocks[k])
                &&& next.blocks[k].lines.len() > 0
                &&& (next.blocks[k].id == block_id(k as nat) || next.blocks[k].id == -1)
            } by {
                if k < m.blocks.len() {
                    assert(next.blocks[k] == m.blocks[k]);
                }
            }
        }
        assert(block_lines(next.blocks) + next.current.lines =~= block_lines(m.blocks)
            + m.current.lines);
    } else if shape is Instruction {
        let n = m.lines.len() as int;
        assert(block_lines(next.blocks) + next.current.lines =~= (block_lines(m.blocks)
            + m.current.lines).push(n as usize));
        assert(Seq::new(next.lines.len(), |i: int| i as usize) =~= Seq::new(
            m.lines.len(),
            |i: int| i as usize,
        ).push(n as usize));
        assert forall|k: int| 0 <= k < next.blocks.len() implies {
            &&& block_holds(next.lines, #[trigger] next.blocks[k])
            &&& next.blocks[k].lines.len() > 0
            &&& (next.blocks[k].id == block_id(k as nat) || next.blocks[k].id == -1)
        } by {
            let b = m.blocks[k];
            assert forall|j: int| 0 <= j < b.lines.len() implies {
                &&& (#[trigger] b.lines[j]) < next.lines.len()
                &&& next.lines[b.lines[j] as int].function_id == b.id
                &&& next.lines[b.lines[j] as int].address >= b.start_address
                &&& next.lines[b.lines[j] as int].offset_in_function == offset_in_block(
                    next.lines[b.lines[j] as int].address,
                    b.start_address,
                )
            } by {
                assert(b.lines[j] < m.lines.len());
                assert(next.lines[b.lines[j] as int] == m.lines[b.lines[j] as int]);
            }
        }
        let c = next.current;
        assert forall|j: int| 0 <= j < c.lines.len() implies {
            &&& (#[trigger] c.lines[j]) < next.lines.len()
            &&& next.lines[c.lines[j] as int].function_id == c.id
            &&& next.lines[c.lines[j] as int].address >= c.start_address
            &&& next.lines[c.lines[j] as int].offset_in_function == offset_in_block(
                next.lines[c.lines[j] as int].address,
                c.start_address,
            )
        } by {
            if j < m.current.lines.len() {
                assert(c.lines[j] == m.current.lines[j]);
                assert(m.current.lines[j] < m.lines.len());
                assert(next.lines[c.lines[j] as int] == m.lines[c.lines[j] as int]);
            }
        }
    }
}

/// Reading any lines from a consistent state leads to a consistent state.
pub proof fn lemma_run_consistent(m: BuilderModel, input: Seq<Seq<char>>)
    requires
        consistent(m),
        m.lines.len() + input.len() <= usize::MAX,
    ensures
        consistent(run(m, input)),
        run(m, input).lines.len() <= m.lines.len() + input.len(),
    decreases input.len(),
{
    if input.len() > 0 {
        lemma_run_consistent(m, input.drop_last());
        lemma_step_consistent(run(m, input.drop_last()), line_shape(input.last()));
    }
}

/// In a chain of blocks each position belongs to one of them.
pub proof fn lemma_block_of_line(blocks: Seq<BlockModel>, pos: int)
    requires
        0 <= pos < block_lines(blocks).len(),
    ensures
        exists|k: int, j: int|
            0 <= k < blocks.len() && 0 <= j < blocks[k].lines.len() && (#[trigger] blocks[k].lines[j])
                == block_lines(blocks)[pos],
    decreases blocks.len(),
{
    let front = block_lines(blocks.drop_last());
    if pos < front.len() {
        lemma_block_of_line(blocks.drop_last(), pos);
        let (k, j) = choose|k: int, j: int|
            0 <= k < blocks.drop_last().len() && 0 <= j < blocks.drop_last()[k].lines.len() && (
            #[trigger] blocks.drop_last()[k].lines[j]) == front[pos];
        assert(blocks[k].lines[j] == block_lines(blocks)[pos]);
    } else {
        let k = blocks.len() - 1;
        let j = pos - front.len();
        assert(blocks[k].lines[j] == block_lines(blocks)[pos]);
    }
}

/// Of a finished listing, that is, of the lines of a consistent state with
/// the blocks as they are once the current one is closed: the blocks'
/// lines, block after block, are the lines of the listing, each once and in
/// order; every line stands at or after the start of the block that holds
/// it; and a line whose function id is not negative belongs to the block
/// at that position.
pub proof fn lemma_finished_listing(m: BuilderModel)
    requires
        consistent(m),
        m.lines.len() <= usize::MAX,
    ensures
        block_lines(flushed(m)) == Seq::new(m.lines.len(), |i: int| i as usize),
        forall|k: int|
            0 <= k < flushed(m).len() ==> block_holds(m.lines, #[trigger] flushed(m)[k]),
        forall|i: int|
            0 <= i < m.lines.len() && (#[trigger] m.lines[i]).function_id >= 0 ==> {
                &&& m.lines[i].function_id < flushed(m).len()
                &&& flushed(m)[m.lines[i].function_id as int].id == m.lines[i].function_id
                &&& flushed(m)[m.lines[i].function_id as int].lines.contains(i as usize)
            },
{
    let blocks = flushed(m);
    if m.current.lines.len() > 0 {
        assert(blocks.drop_last() == m.blocks);
    } else {
        assert(block_lines(m.blocks) + m.current.lines =~= block_lines(m.blocks));
    }
    assert forall|k: int| 0 <= k < blocks.len() implies (block_holds(m.lines, #[trigger] blocks[k])
        && (blocks[k].id == block_id(k as nat) || blocks[k].id == -1)) by {
        if k < m.blocks.len() {
            assert(blocks[k] == m.blocks[k]);
        }
    }
    assert forall|i: int| 0 <= i < m.lines.len() && (#[trigger] m.lines[i]).function_id
        >= 0 implies {
        &&& m.lines[i].function_id < blocks.len()
        &&& blocks[m.lines[i].function_id as int].id == m.lines[i].function_id
        &&& blocks[m.lines[i].function_id as int].lines.contains(i as usize)
    } by {
        lemma_block_of_line(blocks, i);
        let (k, j) = choose|k: int, j: int|
            0 <= k < blocks.len() && 0 <= j < blocks[k].lines.len() && (#[trigger] blocks[k].lines[j])
                == block_lines(blocks)[i];
        assert(block_lines(blocks)[i] == i as usize);
        assert(block_holds(m.lines, blocks[k]));
        assert(m.lines[blocks[k].lines[j] as int].function_id == blocks[k].id);
    }
}

/// Builds a listing from the lines of the disassembler's output, fed one by
/// one.
pub struct ListingBuilder {
    listing: AssemblyListing,
    current: AssemblyBlock,
}

impl ListingBuilder {
    /// The state as a mathematical value.
    pub closed spec fn model(&self) -> BuilderModel {
        BuilderModel {
            lines: self.listing.spec_lines(),
            blocks: self.listing.spec_blocks(),
            current: self.current@,
        }
    }

    /// The invariant of the builder: its state is consistent.
    pub closed spec fn wf(&self) -> bool {
        &&& self.listing.wf()
        &&& consistent(self.model())
    }

    /// The state of a well-formed builder is consistent.
    pub proof fn lemma_consistent(&self)
        requires
            self.wf(),
        ensures
            consistent(self.model()),
    {
    }

    /// A builder that has read nothing.
    pub fn new() -> (r: Self)
        ensures
            r.wf(),
            r.model() == initial_model(),
    {
        let r = ListingBuilder {
            listing: AssemblyListing::new(),
            current: AssemblyBlock::new(String::new(), 0, -1),
        };
        proof {
            assert(block_lines(r.model().blocks) + r.model().current.lines =~= Seq::new(
                r.model().lines.len(),
                |i: int| i as usize,
            ));
        }
        r
    }

    fn open_block(&mut self, name: String, start_address: u64, numbered: bool)
        requires
            old(self).wf(),
        ensures
            final(self).listing.wf(),
            final(self).model() == (BuilderModel {
                lines: old(self).model().lines,
                blocks: flushed(old(self).model()),
                current: fresh_block(
                    name@,
                    start_address,
                    if numbered {
                        block_id(flushed(old(self).model()).len())
                    } else {
                        -1i32
                    },
                ),
            }),
    {
        let mut closed = AssemblyBlock::new(String::new(), 0, -1);
        std::mem::swap(&mut self.current, &mut closed);
        if closed.lines.len() > 0 {
            self.listing.push_block(closed);
        }
        let n: usize = self.listing.block_count();
        let id: i32 = if numbered && n <= i32::MAX as usize {
            n as i32
        } else {
            -1
        };
        self.current = AssemblyBlock::new(name, start_address, id);
    }

    /// Reads one line that was taken apart already.
    pub fn feed(&mut self, parsed: ParsedLine)
        requires
            old(self).wf(),
        ensures
            final(self).wf(),
            final(self).model() == step(old(self).model(), parsed@),
    {
        let count: usize = self.listing.line_count();
        proof {
            lemma_step_consistent(self.model(), parsed@);
        }
        match parsed {
            ParsedLine::Blank => {
                self.open_block(String::new(), 0, false);
            },
            ParsedLine::Header { name, address } => {
                self.open_block(name, address, true);
            },
            ParsedLine::Instruction { address, bytes, text, raw } => {
                if address < self.current.start_address {
                    self.open_block(String::new(), address, true);
                } else {
                    let at: usize = count;
                    let offset: u32 = ((address - self.current.start_address) % 0x1_0000_0000) as u32;
                    let line = AssemblyLine::new(
                        address,
                        bytes,
                        text,
                        raw,
                        self.current.id,
                        offset,
                    );
                    self.listing.insert_line(line);
                    self.current.lines.push(at);
                }
            },
            ParsedLine::Other => {},
        }
    }

    /// Reads one line of the disassembler's output.
    pub fn feed_line(&mut self, line: &str)
        requires
            old(self).wf(),
        ensures
            final(self).wf(),
            final(self).model() == step(old(self).model(), line_shape(line@)),
    {
        self.feed(parse_line(line));
    }

    /// Closes the current block and hands out the listing.
    pub fn finish(self) -> (r: AssemblyListing)
        requires
            self.wf(),
        ensures
            r.wf(),
            r.spec_lines() == self.model().lines,
            r.spec_blocks() == flushed(self.model()),
    {
        let mut builder = self;
        builder.open_block(String::new(), 0, false);
        builder.listing
    }
}

/// The listing that the lines of the disassembler's output give, read in
/// order.
pub fn parse_listing(input: &Vec<String>) -> (r: AssemblyListing)
    ensures
        r.wf(),
        r.spec_lines() == run(initial_model(), input@.map_values(|l: String| l@)).lines,
        r.spec_blocks() == flushed(run(initial_model(), input@.map_values(|l: String| l@))),
{
    let mut builder = ListingBuilder::new();
    let ghost texts = input@.map_values(|l: String| l@);
    let mut i: usize = 0;
    assert(texts.take(0) =~= Seq::<Seq<char>>::empty());
    while i < input.len()
        invariant
            i <= input.len(),
            texts == input@.map_values(|l: String| l@),
            builder.wf(),
            builder.model() == run(initial_model(), texts.take(i as int)),
        decreases input.len() - i,
    {
        assert(texts.take(i + 1).drop_last() =~= texts.take(i as int));
        assert(texts.take(i + 1).last() == input@[i as int]@);
        builder.feed_line(input[i].as_str());
        i += 1;
    }
    assert(texts.take(input.len() as int) =~= texts);
    builder.finish()
}

} // verus!
