//! The frame around a message: a header that gives the length of the body,
//! an empty line, and the body. Reading and writing belong to whoever owns
//! the channel; what the lines of a header mean is settled here.

use crate::text::{
    ascii_lower, chars_of, dec_digits, is_whitespace, lemma_dec_digits, lower, parse_dec_u64,
    parse_radix10, push_all, slice_of, string_of, to_dec, trim, trim_end, trim_start, trimmed,
};
use vstd::prelude::*;

verus! {

/// The name of the header that gives the length of the body, in lower
/// case.
pub open spec fn length_header() -> Seq<char> {
    "content-length"@
}

/// The header of a message whose body has `len` bytes: the length header
/// and the empty line that ends the headers.
pub open spec fn frame_header(len: nat) -> Seq<char> {
    "Content-Length: "@ + dec_digits(len) + "\r\n\r\n"@
}

/// What a line of a header says.
#[derive(Clone, Copy, PartialEq, Eq, Structural, Debug)]
pub enum HeaderLine {
    /// The empty line: the headers end.
    End,
    /// The body has so many bytes.
    ContentLength(usize),
    /// A header that does not matter.
    Other,
    /// A length header whose value is no number that fits.
    Malformed,
}

/// Whether `s` begins with the name of the length header, in any case.
pub open spec fn names_length(s: Seq<char>) -> bool {
    &&& s.len() >= length_header().len()
    &&& forall|i: int| 0 <= i < length_header().len() ==> ascii_lower(s[i]) == length_header()[i]
}

/// The position of the first colon of `s`, or the length of `s` where it
/// has none.
pub open spec fn colon_position(s: Seq<char>) -> nat
    decreases s.len(),
{
    if s.len() == 0 || s[0] == ':' {
        0
    } else {
        1 + colon_position(s.skip(1))
    }
}

/// What a line of a header says. White space at the ends of the line does
/// not count. A line that begins with `content-length`, in any case, and
/// holds a colon gives the length: the number in base ten behind the first
/// colon.
pub open spec fn header_line(line: Seq<char>) -> HeaderLine {
    let t = trimmed(line);
    if t.len() == 0 {
        HeaderLine::End
    } else if names_length(t) && colon_position(t) < t.len() {
        match parse_radix10(trimmed(t.skip(colon_position(t) as int + 1))) {
            Some(n) => if n <= usize::MAX {
                HeaderLine::ContentLength(n as usize)
            } else {
                HeaderLine::Malformed
            },
            None => HeaderLine::Malformed,
        }
    } else {
        HeaderLine::Other
    }
}

/// The header of a message whose body has `len` bytes.
pub fn frame_header_text(len: usize) -> (r: String)
    ensures
        r@ == frame_header(len as nat),
{
    let mut out: Vec<char> = chars_of("Content-Length: ");
    push_all(&mut out, &to_dec(len as u64));
    push_all(&mut out, &chars_of("\r\n\r\n"));
    string_of(&out)
}

fn first_colon(s: &Vec<char>) -> (r: usize)
    ensures
        r == colon_position(s@),
        r <= s.len(),
{
    let mut i: usize = 0;
    assert(s@.skip(0) == s@);
    while i < s.len() && s[i] != ':'
        invariant
            i <= s.len(),
            colon_position(s@) == i + colon_position(s@.skip(i as int)),
        decreases s.len() - i,
    {
        assert(s@.skip(i as int).skip(1) == s@.skip(i + 1));
        i += 1;
    }
    i
}

fn begins_with_length(s: &Vec<char>) -> (r: bool)
    ensures
        r == names_length(s@),
{
    let name = chars_of("content-length");
    if s.len() < name.len() {
        return false;
    }
    let mut i: usize = 0;
    while i < name.len()
        invariant
            i <= name.len() <= s.len(),
            name@ == length_header(),
            forall|k: int| 0 <= k < i ==> ascii_lower(s@[k]) == length_header()[k],
        decreases name.len() - i,
    {
        if lower(s[i]) != name[i] {
            return false;
        }
        i += 1;
    }
    true
}

/// Reads a line of a header.
pub fn parse_header_line(line: &str) -> (r: HeaderLine)
    ensures
        r == header_line(line@),
{
    let t = trim(&chars_of(line));
    if t.len() == 0 {
        return HeaderLine::End;
    }
    if !begins_with_length(&t) {
        return HeaderLine::Other;
    }
    let at = first_colon(&t);
    if at >= t.len() {
        return HeaderLine::Other;
    }
    assert(t@.skip(at + 1) == t@.subrange(at + 1, t@.len() as int));
    let value = trim(&slice_of(&t, at + 1, t.len()));
    match parse_dec_u64(&value) {
        Some(n) => {
            if n <= usize::MAX as u64 {
                HeaderLine::ContentLength(n as usize)
            } else {
                HeaderLine::Malformed
            }
        },
        None => HeaderLine::Malformed,
    }
}

/// How the reading of the headers of a message goes on after a line.
#[derive(Clone, Copy, PartialEq, Eq, Structural, Debug)]
pub enum HeaderStep {
    /// Read the next line; the length found so far is handed on.
    Continue(Option<usize>),
    /// The headers are over; read a body of so many bytes.
    Body(usize),
    /// The headers ended without a length.
    MissingLength,
    /// A length header holds no number that fits.
    BadLength,
}

/// How the reading goes on after `line`, `so_far` being the length found so
/// far: a length header sets the length, and a later one takes its place;
/// the empty line ends the headers; other headers are passed over.
pub open spec fn after_header(so_far: Option<usize>, line: Seq<char>) -> HeaderStep {
    match header_line(line) {
        HeaderLine::End => match so_far {
            Some(n) => HeaderStep::Body(n),
            None => HeaderStep::MissingLength,
        },
        HeaderLine::ContentLength(n) => HeaderStep::Continue(Some(n)),
        HeaderLine::Other => HeaderStep::Continue(so_far),
        HeaderLine::Malformed => HeaderStep::BadLength,
    }
}

/// Takes one line of the headers of a message.
pub fn header_step(so_far: Option<usize>, line: &str) -> (r: HeaderStep)
    ensures
        r == after_header(so_far, line@),
{
    match parse_header_line(line) {
        HeaderLine::End => match so_far {
            Some(n) => HeaderStep::Body(n),
            None => HeaderStep::MissingLength,
        },
        HeaderLine::ContentLength(n) => HeaderStep::Continue(Some(n)),
        HeaderLine::Other => HeaderStep::Continue(so_far),
        HeaderLine::Malformed => HeaderStep::BadLength,
    }
}

/// The line of the header that gives the length `len`, with its line end.
pub open spec fn length_line(len: nat) -> Seq<char> {
    "Content-Length: "@ + dec_digits(len) + "\r\n"@
}

/// The empty line that ends the headers.
pub open spec fn end_line() -> Seq<char> {
    "\r\n"@
}

/// A header that was written reads back: the header of a message of `len`
/// bytes is the line that gives the length and the empty line; the first
/// sets the length, and the second ends the headers with that length.
pub proof fn lemma_frame_reads_back(len: usize)
    ensures
        frame_header(len as nat) == length_line(len as nat) + end_line(),
        after_header(None, length_line(len as nat)) == HeaderStep::Continue(Some(len)),
        after_header(Some(len), end_line()) == HeaderStep::Body(len),
{
    reveal_strlit("Content-Length: ");
    reveal_strlit("content-length");
    reveal_strlit("\r\n");
    reveal_strlit("\r\n\r\n");
    let n = len as nat;
    let digits = dec_digits(n);
    lemma_dec_digits(n);
    let name = "Content-Length: "@;
    let rn = "\r\n"@;
    assert(name.len() == 16);
    assert(rn.len() == 2);
    assert("\r\n\r\n"@ =~= rn + rn);
    assert(frame_header(n) =~= length_line(n) + end_line());
    // the empty line
    assert(is_whitespace('\r') && is_whitespace('\n'));
    assert(trimmed(rn) =~= Seq::<char>::empty()) by {
        reveal_with_fuel(trim_start, 3);
        reveal_with_fuel(trim_end, 3);
        assert(rn.skip(1).skip(1) =~= Seq::<char>::empty());
        assert(trim_start(rn) =~= Seq::<char>::empty());
    }
    // the line with the length
    let line = length_line(n);
    let core = name + digits;
    assert(line =~= core + rn);
    assert(line[0] == 'C');
    assert(trim_start(line) == line);
    assert(trim_end(line) == core) by {
        reveal_with_fuel(trim_end, 3);
        assert(line.last() == '\n');
        assert(line.drop_last() =~= core.push('\r'));
        assert(core.push('\r').last() == '\r');
        assert(core.push('\r').drop_last() =~= core);
        assert(core.last() == digits.last());
        assert(!is_whitespace(digits[digits.len() - 1]));
    }
    assert(trimmed(line) == core);
    assert(names_length(core)) by {
        assert forall|i: int| 0 <= i < length_header().len() implies ascii_lower(core[i])
            == length_header()[i] by {
            assert(core[i] == name[i]);
        }
    }
    assert(colon_position(core) == 14) by {
        lemma_colon_position(core, 14);
    }
    let value = core.skip(15);
    assert(value =~= seq![' '] + digits);
    assert(trimmed(value) == digits) by {
        reveal_with_fuel(trim_start, 2);
        reveal_with_fuel(trim_end, 2);
        assert(value[0] == ' ');
        assert(value.skip(1) =~= digits);
        assert(!is_whitespace(digits[0]));
        assert(trim_start(value) == digits);
        assert(!is_whitespace(digits[digits.len() - 1]));
    }
}

/// The first colon of a text stands at `at` if a colon stands there and
/// none before.
pub proof fn lemma_colon_position(s: Seq<char>, at: int)
    requires
        0 <= at < s.len(),
        s[at] == ':',
        forall|i: int| 0 <= i < at ==> s[i] != ':',
    ensures
        colon_position(s) == at,
    decreases at,
{
    if at > 0 {
        let rest = s.skip(1);
        assert(rest[at - 1] == s[at]);
        assert forall|i: int| 0 <= i < at - 1 implies rest[i] != ':' by {
            assert(rest[i] == s[i + 1]);
        }
        lemma_colon_position(rest, at - 1);
    }
}

} // verus!
