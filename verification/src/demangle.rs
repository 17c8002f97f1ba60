//! Readable names for mangled symbols: the Rust scheme is tried first, then
//! the C++ scheme; a name that neither knows is kept as it is.

use vstd::prelude::*;

verus! {

/// What `rustc_demangle::demangle` prints for a name: its readable form
/// under the Rust schemes, or the name itself where it is not mangled so.
pub uninterp spec fn rust_demangled(raw: Seq<char>) -> Seq<char>;

/// What `cpp_demangle` makes of a name: its readable form under the
/// Itanium C++ scheme, or `None` where the name does not parse as one or
/// cannot be printed.
pub uninterp spec fn cpp_demangled(raw: Seq<char>) -> Option<Seq<char>>;

/// `rustc_demangle::demangle`, printed with `to_string`.
#[verifier::external_body]
fn rust_demangle(raw: &str) -> (r: String)
    ensures
        r@ == rust_demangled(raw@),
{
    rustc_demangle::demangle(raw).to_string()
}

/// `cpp_demangle::Symbol::new` on the bytes of the name, and `demangle` on
/// the symbol that it gives; `None` where either fails.
#[verifier::external_body]
fn cpp_demangle(raw: &str) -> (r: Option<String>)
    ensures
        match r {
            Some(s) => cpp_demangled(raw@) == Some(s@),
            None => cpp_demangled(raw@) is None,
        },
{
    match cpp_demangle::Symbol::new(raw.as_bytes()) {
        Ok(symbol) => match symbol.demangle() {
            Ok(text) => Some(text),
            Err(_) => None,
        },
        Err(_) => None,
    }
}

/// The name that stands for a symbol without one.
pub open spec fn unknown_name() -> Seq<char> {
    "unknown"@
}

/// The name to show for `raw`, given what the two schemes make of it: the
/// Rust form where it differs from `raw`, else the C++ form where there is
/// one, else `raw`.
pub open spec fn chosen_name(raw: Seq<char>, rust: Seq<char>, cpp: Option<Seq<char>>) -> Seq<
    char,
> {
    if rust != raw {
        rust
    } else {
        match cpp {
            Some(d) => d,
            None => raw,
        }
    }
}

/// The name to show for a symbol: `unknown` for a symbol without a name.
pub open spec fn demangled(raw: Option<Seq<char>>) -> Seq<char> {
    match raw {
        Some(r) => chosen_name(r, rust_demangled(r), cpp_demangled(r)),
        None => unknown_name(),
    }
}

/// Picks the name to show for `raw` from what the two schemes make of it.
pub fn choose_name(raw: String, rust: String, cpp: Option<String>) -> (r: String)
    ensures
        r@ == chosen_name(
            raw@,
            rust@,
            match cpp {
                Some(d) => Some(d@),
                None => None,
            },
        ),
{
    if rust != raw {
        rust
    } else {
        match cpp {
            Some(d) => d,
            None => raw,
        }
    }
}

/// The name to show for a symbol.
pub fn demangle(raw_name_opt: Option<String>) -> (r: String)
    ensures
        r@ == demangled(
            match raw_name_opt {
                Some(n) => Some(n@),
                None => None,
            },
        ),
{
    match raw_name_opt {
        Some(raw_name) => {
            let rust = rust_demangle(raw_name.as_str());
            if rust != raw_name {
                choose_name(raw_name, rust, None)
            } else {
                let cpp = cpp_demangle(raw_name.as_str());
                choose_name(raw_name, rust, cpp)
            }
        },
        None => "unknown".to_owned(),
    }
}

} // verus!
