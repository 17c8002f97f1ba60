//! File names made comparable: the two pure halves of canonicalization,
//! before and after the file system has resolved the name.
//!
//! A raw name goes through `prepare_path`, which takes a `file://` URI
//! apart and turns a WSL mount into a drive. Whoever owns the file system
//! then makes the name absolute and resolves it. `finish_path` brings the
//! resolved name into the one written form under which it is stored and
//! compared.

use crate::text::{chars_of, code_point, push_all, slice_of, string_of};
use vstd::prelude::*;

verus! {

/// How the host writes file names.
#[derive(Clone, Copy, PartialEq, Eq, Structural, Debug)]
pub enum PathStyle {
    Posix,
    Windows,
}

/// What `urlencoding::decode` returns for a text: the text with each `%`
/// and two digits of base sixteen replaced by the byte they name, read as
/// UTF-8; a `%` without two such digits behind it stays as it is. `None`
/// where the bytes are no UTF-8.
pub uninterp spec fn percent_decoded(text: Seq<char>) -> Option<Seq<char>>;

/// `urlencoding::decode`. A text without `%` comes back as it is; the
/// decoded form of any other text is known by its name only.
#[verifier::external_body]
fn percent_decode(text: &str) -> (r: Option<String>)
    ensures
        match r {
            Some(s) => percent_decoded(text@) == Some(s@),
            None => percent_decoded(text@) is None,
        },
        !text@.contains('%') ==> r is Some && r->0@ == text@,
{
    match urlencoding::decode(text) {
        Ok(decoded) => Some(decoded.into_owned()),
        Err(_) => None,
    }
}

/// The upper-case form of a letter `a`-`z`; any other character is left as
/// it is.
pub open spec fn ascii_upper(c: char) -> char {
    if 97 <= c as int <= 122 {
        ((c as int) - 32) as char
    } else {
        c
    }
}

/// The scheme that marks a file URI.
pub open spec fn uri_scheme() -> Seq<char> {
    seq!['f', 'i', 'l', 'e', ':', '/', '/']
}

/// The directory under which WSL mounts the drives.
pub open spec fn mount_root() -> Seq<char> {
    seq!['/', 'm', 'n', 't', '/']
}

/// The file name that a raw name stands for once its URI form is taken
/// off: behind `file://` the rest is percent-decoded (and kept as it is
/// where it does not decode), and on Windows the slash in front of a drive
/// (`/C:`) goes. `decoded` is the decoded rest.
pub open spec fn local_part(
    raw: Seq<char>,
    decoded: Option<Seq<char>>,
    style: PathStyle,
) -> Seq<char> {
    if uri_scheme().is_prefix_of(raw) {
        let rest = match decoded {
            Some(d) => d,
            None => raw.skip(7),
        };
        if style == PathStyle::Windows && rest.len() > 2 && rest[0] == '/' && rest[2] == ':' {
            rest.skip(1)
        } else {
            rest
        }
    } else {
        raw
    }
}

/// Whether `s` names something on a WSL mount of a drive: `/mnt/`, one
/// ASCII character other than a slash, and then a slash or the end.
pub open spec fn on_mount(s: Seq<char>) -> bool {
    &&& mount_root().is_prefix_of(s)
    &&& s.len() >= 6
    &&& s[5] != '/'
    &&& (s[5] as int) < 128
    &&& (s.len() == 6 || s[6] == '/')
}

/// A name on a WSL mount as the drive writes it: `/mnt/c/dir` becomes
/// `C:/dir`. Any other name is left as it is.
pub open spec fn from_mount(s: Seq<char>) -> Seq<char> {
    if on_mount(s) {
        seq![ascii_upper(s[5]), ':', '/'] + (if s.len() > 7 {
            s.skip(7)
        } else {
            Seq::empty()
        })
    } else {
        s
    }
}

/// The name that is handed to the file system: the raw name with its URI
/// form taken off and a WSL mount turned into a drive.
pub open spec fn prepared(raw: Seq<char>, decoded: Option<Seq<char>>, style: PathStyle) -> Seq<
    char,
> {
    from_mount(local_part(raw, decoded, style))
}

/// `s` with each backslash replaced by a slash.
pub open spec fn forward_slashes(s: Seq<char>) -> Seq<char> {
    s.map_values(
        |c: char|
            if c == '\\' {
                '/'
            } else {
                c
            },
    )
}

/// `s` with a drive letter at its start in upper case.
pub open spec fn upper_drive(s: Seq<char>) -> Seq<char> {
    if s.len() >= 2 && s[1] == ':' {
        s.update(0, ascii_upper(s[0]))
    } else {
        s
    }
}

/// `s` with its first `n` components, which slashes end, in upper case.
pub open spec fn upper_components(s: Seq<char>, n: nat) -> Seq<char>
    decreases s.len(),
{
    if s.len() == 0 || n == 0 {
        s
    } else if s[0] == '/' {
        seq!['/'] + upper_components(s.skip(1), (n - 1) as nat)
    } else {
        seq![ascii_upper(s[0])] + upper_components(s.skip(1), n)
    }
}

/// A UNC name, which two slashes start, with the server and the share in
/// upper case. Any other name is left as it is.
pub open spec fn upper_unc(s: Seq<char>) -> Seq<char> {
    if s.len() >= 2 && s[0] == '/' && s[1] == '/' {
        s.take(2) + upper_components(s.skip(2), 2)
    } else {
        s
    }
}

/// The one written form of a resolved name: slashes forward; on Windows,
/// the drive letter in upper case, and the server and share of a UNC name
/// in upper case.
pub open spec fn finished(resolved: Seq<char>, style: PathStyle) -> Seq<char> {
    let s = forward_slashes(resolved);
    if style == PathStyle::Windows {
        upper_unc(upper_drive(s))
    } else {
        s
    }
}

fn upper(c: char) -> (r: char)
    ensures
        r == ascii_upper(c),
{
    let n: u32 = code_point(c);
    if 97 <= n && n <= 122 {
        ((n - 32) as u8) as char
    } else {
        c
    }
}

fn starts_with(s: &Vec<char>, prefix: &Vec<char>) -> (r: bool)
    ensures
        r == prefix@.is_prefix_of(s@),
{
    if prefix.len() > s.len() {
        return false;
    }
    let mut i: usize = 0;
    while i < prefix.len()
        invariant
            i <= prefix.len() <= s.len(),
            forall|k: int| 0 <= k < i ==> s@[k] == prefix@[k],
        decreases prefix.len() - i,
    {
        if s[i] != prefix[i] {
            assert(s@.subrange(0, prefix@.len() as int)[i as int] != prefix@[i as int]);
            return false;
        }
        i += 1;
    }
    assert(s@.subrange(0, prefix@.len() as int) =~= prefix@);
    true
}

fn uri_scheme_chars() -> (r: Vec<char>)
    ensures
        r@ == uri_scheme(),
{
    let mut r: Vec<char> = Vec::new();
    r.push('f');
    r.push('i');
    r.push('l');
    r.push('e');
    r.push(':');
    r.push('/');
    r.push('/');
    assert(r@ =~= uri_scheme());
    r
}

fn mount_root_chars() -> (r: Vec<char>)
    ensures
        r@ == mount_root(),
{
    let mut r: Vec<char> = Vec::new();
    r.push('/');
    r.push('m');
    r.push('n');
    r.push('t');
    r.push('/');
    assert(r@ =~= mount_root());
    r
}

/// The name to hand to the file system, from the raw name and the decoded
/// form of what follows `file://` in it.
pub fn prepare_decoded(source_path: &str, decoded: Option<String>, style: PathStyle) -> (r: String)
    ensures
        r@ == prepared(
            source_path@,
            match decoded {
                Some(d) => Some(d@),
                None => None,
            },
            style,
        ),
{
    let raw = chars_of(source_path);
    let is_uri = starts_with(&raw, &uri_scheme_chars());
    let local: Vec<char> = if is_uri {
        let rest: Vec<char> = match decoded {
            Some(d) => chars_of(d.as_str()),
            None => {
                assert(raw@.skip(7) == raw@.subrange(7, raw@.len() as int));
                slice_of(&raw, 7, raw.len())
            },
        };
        if style == PathStyle::Windows && rest.len() > 2 && rest[0] == '/' && rest[2] == ':' {
            assert(rest@.skip(1) == rest@.subrange(1, rest@.len() as int));
            slice_of(&rest, 1, rest.len())
        } else {
            rest
        }
    } else {
        raw
    };
    let mounted = starts_with(&local, &mount_root_chars()) && local.len() >= 6 && local[5] != '/'
        && code_point(local[5]) < 128 && (local.len() == 6 || local[6] == '/');
    if mounted {
        let mut out: Vec<char> = Vec::new();
        out.push(upper(local[5]));
        out.push(':');
        out.push('/');
        if local.len() > 7 {
            let tail = slice_of(&local, 7, local.len());
            push_all(&mut out, &tail);
        }
        assert(out@ =~= from_mount(local@));
        string_of(&out)
    } else {
        string_of(&local)
    }
}

/// The name to hand to the file system: the raw name with its URI form
/// taken off and a WSL mount turned into a drive. For a name without `%`
/// nothing is left to the decoder: the rest of a URI stands for itself.
pub fn prepare_path(source_path: &str, style: PathStyle) -> (r: String)
    ensures
        r@ == prepared(source_path@, percent_decoded(source_path@.skip(7)), style),
        !source_path@.contains('%') ==> r@ == prepared(
            source_path@,
            Some(source_path@.skip(7)),
            style,
        ),
{
    let raw = chars_of(source_path);
    if starts_with(&raw, &uri_scheme_chars()) {
        assert(raw@.skip(7) == raw@.subrange(7, raw@.len() as int));
        proof {
            if !raw@.contains('%') && raw@.skip(7).contains('%') {
                let k = raw@.skip(7).index_of('%');
                assert(raw@[k + 7] == '%');
            }
        }
        let rest = string_of(&slice_of(&raw, 7, raw.len()));
        let decoded = percent_decode(rest.as_str());
        prepare_decoded(source_path, decoded, style)
    } else {
        prepare_decoded(source_path, None, style)
    }
}

/// The one written form of a name that the file system has resolved.
pub fn finish_path(resolved: &str, style: PathStyle) -> (r: String)
    ensures
        r@ == finished(resolved@, style),
{
    let input = chars_of(resolved);
    let mut s: Vec<char> = Vec::new();
    let mut i: usize = 0;
    while i < input.len()
        invariant
            i <= input.len(),
            s@ == forward_slashes(input@.take(i as int)),
        decreases input.len() - i,
    {
        let c = input[i];
        s.push(if c == '\\' {
            '/'
        } else {
            c
        });
        i += 1;
        assert(forward_slashes(input@.take(i as int)) =~= forward_slashes(
            input@.take(i - 1),
        ).push(forward_slashes(input@)[i - 1]));
    }
    assert(input@.take(input.len() as int) == input@);
    if style == PathStyle::Windows {
        if s.len() >= 2 && s[1] == ':' {
            let first = upper(s[0]);
            s.set(0, first);
        }
        if s.len() >= 2 && s[0] == '/' && s[1] == '/' {
            let ghost before = s@;
            let mut out: Vec<char> = Vec::new();
            out.push('/');
            out.push('/');
            let mut left: usize = 2;
            let mut k: usize = 2;
            assert(before.skip(2).skip(0) == before.skip(2));
            while k < s.len()
                invariant
                    2 <= k <= s.len(),
                    left <= 2,
                    s@ == before,
                    out@ + upper_components(before.skip(k as int), left as nat) == before.take(2)
                        + upper_components(before.skip(2), 2),
                decreases s.len() - k,
            {
                let c = s[k];
                let ghost tail = before.skip(k as int);
                assert(tail.skip(1) == before.skip(k + 1));
                assert(tail[0] == c);
                let ghost old_out = out@;
                if left == 0 {
                    out.push(c);
                    assert(upper_components(before.skip(k + 1), 0) == before.skip(k + 1));
                    assert(tail =~= seq![c] + before.skip(k + 1));
                    assert(out@ + before.skip(k + 1) =~= old_out + tail);
                } else if c == '/' {
                    out.push('/');
                    left -= 1;
                    assert(out@ + upper_components(before.skip(k + 1), left as nat) =~= old_out + (
                    seq!['/'] + upper_components(before.skip(k + 1), left as nat)));
                } else {
                    out.push(upper(c));
                    assert(out@ + upper_components(before.skip(k + 1), left as nat) =~= old_out + (
                    seq![ascii_upper(c)] + upper_components(before.skip(k + 1), left as nat)));
                }
                k += 1;
            }
            assert(out@ + upper_components(before.skip(s.len() as int), left as nat) =~= out@);
            return string_of(&out);
        }
    }
    string_of(&s)
}

/// Putting components in upper case keeps the length and changes no
/// character but to its upper-case form.
pub proof fn lemma_upper_components_shape(s: Seq<char>, n: nat)
    ensures
        upper_components(s, n).len() == s.len(),
        forall|i: int|
            0 <= i < s.len() ==> (#[trigger] upper_components(s, n)[i]) == s[i] || upper_components(
                s,
                n,
            )[i] == ascii_upper(s[i]),
    decreases s.len(),
{
    if s.len() > 0 && n > 0 {
        let m = if s[0] == '/' {
            (n - 1) as nat
        } else {
            n
        };
        lemma_upper_components_shape(s.skip(1), m);
        let rest = upper_components(s.skip(1), m);
        assert forall|i: int| 0 <= i < s.len() implies (#[trigger] upper_components(s, n)[i])
            == s[i] || upper_components(s, n)[i] == ascii_upper(s[i]) by {
            if i > 0 {
                assert(upper_components(s, n)[i] == rest[i - 1]);
                assert(s.skip(1)[i - 1] == s[i]);
            }
        }
    }
}

/// Putting components in upper case a second time changes nothing.
pub proof fn lemma_upper_components_twice(s: Seq<char>, n: nat)
    ensures
        upper_components(upper_components(s, n), n) == upper_components(s, n),
    decreases s.len(),
{
    if s.len() > 0 && n > 0 {
        let m = if s[0] == '/' {
            (n - 1) as nat
        } else {
            n
        };
        lemma_upper_components_twice(s.skip(1), m);
        let once = upper_components(s, n);
        let rest = upper_components(s.skip(1), m);
        assert(once.skip(1) =~= rest);
        assert(once[0] == ascii_upper(s[0]) || once[0] == '/');
        assert(upper_components(once, n) =~= once);
    }
}

/// Finishing a finished name changes nothing.
pub proof fn lemma_finish_twice(resolved: Seq<char>, style: PathStyle)
    ensures
        finished(finished(resolved, style), style) == finished(resolved, style),
{
    let z = forward_slashes(resolved);
    assert(forward_slashes(z) =~= z);
    if style == PathStyle::Windows {
        let d = upper_drive(z);
        let y = upper_unc(d);
        if z.len() >= 2 && z[0] == '/' && z[1] == '/' {
            assert(d == z);
            let tail = upper_components(z.skip(2), 2);
            lemma_upper_components_shape(z.skip(2), 2);
            lemma_upper_components_twice(z.skip(2), 2);
            assert(y.len() == z.len());
            assert forall|i: int| 0 <= i < y.len() implies y[i] != '\\' by {
                if i >= 2 {
                    assert(y[i] == tail[i - 2]);
                    assert(z.skip(2)[i - 2] == z[i]);
                }
            }
            assert(forward_slashes(y) =~= y);
            assert(upper_drive(y) == y);
            assert(y.skip(2) =~= tail);
            assert(y.take(2) =~= z.take(2));
            assert(upper_unc(y) =~= y);
        } else {
            assert(!(d.len() >= 2 && d[0] == '/' && d[1] == '/'));
            assert(y == d);
            assert(forward_slashes(d) =~= d);
            assert(upper_drive(d) =~= d);
        }
    }
}

/// A file URI and the name behind it are prepared alike: for a name without
/// `%` that is no URI itself, the prepared form of `file://` and the name
/// is the prepared form of the name. (On Windows the name is not to start
/// with a slash in front of a drive, which the URI form would lose.)
pub proof fn lemma_uri_same_as_path(name: Seq<char>, style: PathStyle)
    requires
        !name.contains('%'),
        !uri_scheme().is_prefix_of(name),
        style == PathStyle::Posix || !(name.len() > 2 && name[0] == '/' && name[2] == ':'),
    ensures
        prepared(uri_scheme() + name, Some(name), style) == prepared(name, None, style),
{
    let uri = uri_scheme() + name;
    assert(uri.subrange(0, 7) =~= uri_scheme());
    assert(uri.skip(7) =~= name);
}

/// On Windows a file URI of a name on a drive and the name are prepared
/// alike: `file:///C:/dir` stands for `C:/dir`.
pub proof fn lemma_uri_same_as_drive_path(name: Seq<char>)
    requires
        !name.contains('%'),
        name.len() >= 2,
        name[1] == ':',
        !uri_scheme().is_prefix_of(name),
    ensures
        prepared(uri_scheme() + seq!['/'] + name, Some(seq!['/'] + name), PathStyle::Windows)
            == prepared(name, None, PathStyle::Windows),
{
    let uri = uri_scheme() + seq!['/'] + name;
    assert(uri.subrange(0, 7) =~= uri_scheme());
    let rest = seq!['/'] + name;
    assert(rest.skip(1) =~= name);
    assert(rest[2] == name[1]);
}

/// Canonicalizing a canonical name changes nothing, as long as the file
/// system resolves the canonical name to itself and the name is neither a
/// URI nor on a WSL mount. `resolve` stands for what the file system does
/// between the two halves.
pub proof fn lemma_canonical_twice(
    raw: Seq<char>,
    decoded: Option<Seq<char>>,
    style: PathStyle,
    resolve: spec_fn(Seq<char>) -> Seq<char>,
)
    requires
        ({
            let canonical = finished(resolve(prepared(raw, decoded, style)), style);
            &&& resolve(canonical) == canonical
            &&& !uri_scheme().is_prefix_of(canonical)
            &&& !on_mount(canonical)
        }),
    ensures
        ({
            let canonical = finished(resolve(prepared(raw, decoded, style)), style);
            finished(resolve(prepared(canonical, None, style)), style) == canonical
        }),
{
    let canonical = finished(resolve(prepared(raw, decoded, style)), style);
    lemma_finish_twice(resolve(prepared(raw, decoded, style)), style);
}

/// A file name in its one written form.
#[derive(Debug)]
pub struct CanonicalPath {
    path: String,
}

impl View for CanonicalPath {
    type V = Seq<char>;

    closed spec fn view(&self) -> Seq<char> {
        self.path@
    }
}

impl CanonicalPath {
    /// The written form of a name that the file system has resolved.
    pub fn new(resolved: &str, style: PathStyle) -> (r: Self)
        ensures
            r@ == finished(resolved@, style),
    {
        CanonicalPath { path: finish_path(resolved, style) }
    }

    /// The name as text.
    pub fn as_str(&self) -> (r: &str)
        ensures
            r@ == self@,
    {
        self.path.as_str()
    }

    /// An independent copy.
    pub fn clone(&self) -> (r: Self)
        ensures
            r@ == self@,
    {
        CanonicalPath { path: self.path.clone() }
    }
}

} // verus!
