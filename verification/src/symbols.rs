//! Symbols and the symbol store: one index by start address, one by name.

use crate::addr_map::{floor_key, lemma_floor_position, AddrMap};
use crate::name_map::NameMap;
use crate::text::chars_of;
use std::sync::Arc;
use vstd::prelude::*;

verus! {

/// What a symbol names.
#[derive(Clone, Copy, PartialEq, Eq, Structural, Debug)]
pub enum SymbolType {
    Function,
    Data,
    Unknown,
}

/// From where a symbol can be seen.
#[derive(Clone, Copy, PartialEq, Eq, Structural, Debug)]
pub enum SymbolScope {
    Global,
    Static,
    Unknown,
}

/// A named range of addresses. The name is the demangled one.
#[derive(Debug)]
pub struct Symbol {
    pub name: String,
    pub address: u64,
    pub size: u64,
    pub kind: SymbolType,
    pub scope: SymbolScope,
}

/// A symbol as a mathematical value.
pub struct SymbolModel {
    pub name: Seq<char>,
    pub address: u64,
    pub size: u64,
    pub kind: SymbolType,
    pub scope: SymbolScope,
}

impl View for Symbol {
    type V = SymbolModel;

    open spec fn view(&self) -> SymbolModel {
        SymbolModel {
            name: self.name@,
            address: self.address,
            size: self.size,
            kind: self.kind,
            scope: self.scope,
        }
    }
}

impl Clone for Symbol {
    fn clone(&self) -> (r: Self)
        ensures
            r == *self,
    {
        Symbol {
            name: self.name.clone(),
            address: self.address,
            size: self.size,
            kind: self.kind,
            scope: self.scope,
        }
    }
}

/// `Arc::clone` hands out one more handle on the same value, which is left
/// as it is.
#[verifier::external_body]
pub(crate) fn share(symbol: &Arc<Symbol>) -> (r: Arc<Symbol>)
    ensures
        r == *symbol,
{
    Arc::clone(symbol)
}

/// Whether the extent of `s` holds `addr`: a symbol with a size holds the
/// addresses from its start up to, not including, start plus size; a
/// symbol without a size is a marker and holds its start alone.
pub open spec fn covers(s: SymbolModel, addr: u64) -> bool {
    if s.size > 0 {
        s.address <= addr < s.address + s.size
    } else {
        addr == s.address
    }
}

/// The symbol that an index by start address gives for `addr`: the one at
/// the largest start that is at most `addr`, if its extent holds `addr`.
pub open spec fn lookup_in(m: Map<u64, SymbolModel>, addr: u64) -> Option<SymbolModel> {
    match floor_key(m, addr) {
        Some(k) => if covers(m[k], addr) {
            Some(m[k])
        } else {
            None
        },
        None => None,
    }
}

/// Whether `s` belongs to the answer for the range from `lo` up to, not
/// including, `hi`: it is the symbol looked up at `lo`, or it starts inside
/// the range.
pub open spec fn in_range_answer(m: Map<u64, SymbolModel>, lo: u64, hi: u64, s: SymbolModel) -> bool {
    ||| lookup_in(m, lo) == Some(s)
    ||| (m.dom().contains(s.address) && m[s.address] == s && lo <= s.address < hi)
}

/// The symbol store.
pub struct SymbolTable {
    symbols_by_addr: AddrMap<Arc<Symbol>>,
    symbols_by_name: NameMap<Arc<Symbol>>,
}

impl SymbolTable {
    /// The index by start address.
    pub closed spec fn by_addr(&self) -> Map<u64, SymbolModel> {
        self.symbols_by_addr@.map_values(|s: Arc<Symbol>| s@)
    }

    /// The index by name.
    pub closed spec fn by_name(&self) -> Map<Seq<char>, SymbolModel> {
        self.symbols_by_name@.map_values(|s: Arc<Symbol>| s@)
    }

    /// The invariant of the store: each symbol stands under its own start
    /// address and under its own name.
    pub closed spec fn wf(&self) -> bool {
        &&& self.symbols_by_addr.wf()
        &&& self.symbols_by_name.wf()
        &&& forall|i: int|
            0 <= i < self.symbols_by_addr.spec_keys().len() ==> (
            #[trigger] self.symbols_by_addr.spec_values()[i]).address
                == self.symbols_by_addr.spec_keys()[i]
        &&& forall|i: int|
            0 <= i < self.symbols_by_name.spec_keys().len() ==> (
            #[trigger] self.symbols_by_name.spec_values()[i]).name@
                == self.symbols_by_name.spec_keys()[i]
    }

    /// In a well-formed store each entry of an index stands under its own
    /// key.
    pub proof fn lemma_keys(&self)
        requires
            self.wf(),
        ensures
            forall|a: u64| #[trigger]
                self.by_addr().dom().contains(a) ==> self.by_addr()[a].address == a,
            forall|n: Seq<char>| #[trigger]
                self.by_name().dom().contains(n) ==> self.by_name()[n].name == n,
    {
        assert forall|a: u64| #[trigger] self.by_addr().dom().contains(a) implies self.by_addr()[a].address
            == a by {
            let i = self.symbols_by_addr.spec_keys().index_of(a);
            self.symbols_by_addr.lemma_view_at(i);
        }
        assert forall|n: Seq<char>| #[trigger] self.by_name().dom().contains(n) implies self.by_name()[n].name
            == n by {
            let i = self.symbols_by_name.spec_keys().index_of(n);
            self.symbols_by_name.lemma_view_at(i);
        }
    }

    proof fn lemma_entries(&self)
        requires
            self.wf(),
        ensures
            forall|i: int|
                0 <= i < self.symbols_by_addr.spec_keys().len() ==> {
                    &&& (#[trigger] self.symbols_by_addr.spec_values()[i]).address
                        == self.symbols_by_addr.spec_keys()[i]
                    &&& self.by_addr().dom().contains(self.symbols_by_addr.spec_keys()[i])
                    &&& self.by_addr()[self.symbols_by_addr.spec_keys()[i]]
                        == self.symbols_by_addr.spec_values()[i]@
                },
            forall|a: u64|
                self.by_addr().dom().contains(a) <==> self.symbols_by_addr.spec_keys().contains(a),
    {
        assert forall|i: int| 0 <= i < self.symbols_by_addr.spec_keys().len() implies {
            &&& (#[trigger] self.symbols_by_addr.spec_values()[i]).address
                == self.symbols_by_addr.spec_keys()[i]
            &&& self.by_addr().dom().contains(self.symbols_by_addr.spec_keys()[i])
            &&& self.by_addr()[self.symbols_by_addr.spec_keys()[i]]
                == self.symbols_by_addr.spec_values()[i]@
        } by {
            self.symbols_by_addr.lemma_view_at(i);
        }
    }

    /// A symbol with a size is found from every address of its extent up to
    /// the next start: where no other symbol starts after `a` and at or
    /// before `x`, looking up `x` gives the symbol that starts at `a`.
    pub proof fn lemma_lookup_within_extent(&self, a: u64, x: u64)
        requires
            self.wf(),
            self.by_addr().dom().contains(a),
            self.by_addr()[a].size > 0,
            a <= x < a + self.by_addr()[a].size,
            forall|k: u64| self.by_addr().dom().contains(k) ==> !(a < k <= x),
        ensures
            lookup_in(self.by_addr(), x) == Some(self.by_addr()[a]),
    {
        self.lemma_keys();
        crate::addr_map::lemma_floor_key_unique(self.by_addr(), x, a);
    }

    /// No symbol is returned for an address beyond its own extent: what a
    /// lookup gives starts at or before the address and holds it.
    pub proof fn lemma_lookup_holds_address(&self, x: u64)
        requires
            self.wf(),
        ensures
            match lookup_in(self.by_addr(), x) {
                Some(s) => self.by_addr().dom().contains(s.address) && self.by_addr()[s.address]
                    == s && s.address <= x && covers(s, x),
                None => true,
            },
    {
        self.lemma_keys();
        match floor_key(self.by_addr(), x) {
            Some(k) => {
                assert(crate::addr_map::is_floor_key(self.by_addr(), x, k));
            },
            None => {},
        }
    }

    /// An empty store.
    pub fn new() -> (t: Self)
        ensures
            t.wf(),
            t.by_addr() == Map::<u64, SymbolModel>::empty(),
            t.by_name() == Map::<Seq<char>, SymbolModel>::empty(),
    {
        let t = SymbolTable { symbols_by_addr: AddrMap::new(), symbols_by_name: NameMap::new() };
        assert(t.by_addr() =~= Map::<u64, SymbolModel>::empty());
        assert(t.by_name() =~= Map::<Seq<char>, SymbolModel>::empty());
        t
    }

    /// Adds a symbol. It takes the place of the one that stood under its
    /// start address, and of the one that stood under its name.
    pub fn insert(&mut self, symbol: Symbol)
        requires
            old(self).wf(),
        ensures
            final(self).wf(),
            final(self).by_addr() == old(self).by_addr().insert(symbol.address, symbol@),
            final(self).by_name() == old(self).by_name().insert(symbol.name@, symbol@),
    {
        self.insert_shared(Arc::new(symbol));
    }

    /// Adds a symbol that another store may hold as well.
    pub fn insert_shared(&mut self, symbol: Arc<Symbol>)
        requires
            old(self).wf(),
        ensures
            final(self).wf(),
            final(self).by_addr() == old(self).by_addr().insert(symbol.address, symbol@),
            final(self).by_name() == old(self).by_name().insert(symbol.name@, symbol@),
    {
        let name = chars_of(symbol.name.as_str());
        let second = share(&symbol);
        let ghost old_addr = self.symbols_by_addr;
        let ghost old_name = self.symbols_by_name;
        proof {
            lemma_floor_position(old_addr.spec_keys(), symbol.address);
        }
        self.symbols_by_addr.insert(symbol.address, second);
        self.symbols_by_name.insert(name, symbol);
        proof {
            assert(self.by_addr() =~= old(self).by_addr().insert(symbol.address, symbol@));
            assert(self.by_name() =~= old(self).by_name().insert(symbol.name@, symbol@));
            let keys = self.symbols_by_addr.spec_keys();
            let vals = self.symbols_by_addr.spec_values();
            assert forall|i: int| 0 <= i < keys.len() implies (#[trigger] vals[i]).address
                == keys[i] by {
                self.symbols_by_addr.lemma_view_at(i);
                if keys[i] != symbol.address {
                    let j = old_addr.spec_keys().index_of(keys[i]);
                    old_addr.lemma_view_at(j);
                }
            }
            let nkeys = self.symbols_by_name.spec_keys();
            let nvals = self.symbols_by_name.spec_values();
            assert forall|i: int| 0 <= i < nkeys.len() implies (#[trigger] nvals[i]).name@
                == nkeys[i] by {
                self.symbols_by_name.lemma_view_at(i);
                if nkeys[i] != symbol.name@ {
                    let j = old_name.spec_keys().index_of(nkeys[i]);
                    old_name.lemma_view_at(j);
                }
            }
        }
    }

    /// The handle on the symbol whose extent holds `address`.
    pub fn lookup_shared(&self, address: u64) -> (r: Option<&Arc<Symbol>>)
        requires
            self.wf(),
        ensures
            match r {
                Some(s) => lookup_in(self.by_addr(), address) == Some(s@),
                None => lookup_in(self.by_addr(), address) is None,
            },
    {
        proof {
            lemma_floor_position(self.symbols_by_addr.spec_keys(), address);
            assert(forall|k: u64|
                floor_key(self.symbols_by_addr@, address) == Some(k) <==> floor_key(
                    self.by_addr(),
                    address,
                ) == Some(k)) by {
                assert(self.by_addr().dom() =~= self.symbols_by_addr@.dom());
                crate::addr_map::lemma_floor_key_same(
                    self.symbols_by_addr@,
                    self.by_addr(),
                    address,
                );
            }
        }
        match self.symbols_by_addr.floor_index(address) {
            Some(i) => {
                let start = self.symbols_by_addr.key_at(i);
                let symbol = self.symbols_by_addr.value_at(i);
                proof {
                    self.symbols_by_addr.lemma_view_at(i as int);
                    assert(symbol.address == start);
                }
                if symbol.size > 0 {
                    if address - start < symbol.size {
                        Some(symbol)
                    } else {
                        None
                    }
                } else if address == start {
                    Some(symbol)
                } else {
                    None
                }
            },
            None => None,
        }
    }

    /// The symbols that touch the range from `start` up to, not including,
    /// `end`: the one whose extent holds `start`, then those that start
    /// inside the range, by increasing start address, none of them twice.
    pub fn lookup_range(&self, start: u64, end: u64) -> (r: Vec<&Symbol>)
        requires
            self.wf(),
        ensures
            forall|i: int, j: int| 0 <= i < j < r.len() ==> r[i].address < r[j].address,
            forall|s: SymbolModel|
                in_range_answer(self.by_addr(), start, end, s) <==> exists|i: int|
                    0 <= i < r.len() && (#[trigger] r[i])@ == s,
    {
        let mut result: Vec<&Symbol> = Vec::new();
        let ghost keys = self.symbols_by_addr.spec_keys();
        let ghost vals = self.symbols_by_addr.spec_values();
        let ghost m = self.by_addr();
        proof {
            lemma_floor_position(keys, start);
            self.lemma_entries();
        }
        let head = self.lookup_shared(start);
        let n: usize = self.symbols_by_addr.len();
        let begin: usize = match self.symbols_by_addr.floor_index(start) {
            Some(p) => {
                assert(p < n);
                p + 1
            },
            None => 0,
        };
        let ghost h: int = if head is Some {
            1
        } else {
            0
        };
        match head {
            Some(first) => {
                result.push(&**first);
            },
            None => {},
        }
        proof {
            assert(self.symbols_by_addr@.dom() =~= m.dom());
            crate::addr_map::lemma_floor_key_same(self.symbols_by_addr@, m, start);
            if begin > 0 && keys[begin - 1] == start {
                // a symbol that starts at `start` holds it
                assert(m[start] == vals[begin - 1]@);
                assert(covers(m[start], start));
            }
        }
        let mut i: usize = begin;
        while i < n && self.symbols_by_addr.key_at(i) < end
            invariant
                self.wf(),
                keys == self.symbols_by_addr.spec_keys(),
                vals == self.symbols_by_addr.spec_values(),
                n == keys.len(),
                begin <= i <= n,
                h == 0 || h == 1,
                result.len() == h + (i - begin),
                h == 1 ==> head is Some && result[0]@ == head->0@,
                forall|j: int| begin <= j < i ==> (#[trigger] result[h + j - begin])@ == vals[j]@,
                forall|j: int| begin <= j < i ==> keys[j] < end,
            decreases n - i,
        {
            let symbol = self.symbols_by_addr.value_at(i);
            result.push(&**symbol);
            i += 1;
        }
        proof {
            assert forall|a: int, b: int| 0 <= a < b < result.len() implies result[a].address
                < result[b].address by {
                let jb = b - h + begin;
                assert(result[h + jb - begin]@ == vals[jb]@);
                assert(vals[jb].address == keys[jb]);
                if a < h {
                    assert(keys[jb] > start);
                } else {
                    let ja = a - h + begin;
                    assert(result[h + ja - begin]@ == vals[ja]@);
                    assert(vals[ja].address == keys[ja]);
                    assert(keys[ja] < keys[jb]);
                }
            }
            assert forall|s: SymbolModel|
                in_range_answer(m, start, end, s) implies exists|i: int|
                0 <= i < result.len() && (#[trigger] result[i])@ == s by {
                if lookup_in(m, start) == Some(s) {
                    assert(result[0]@ == s);
                } else {
                    let j = keys.index_of(s.address);
                    assert(keys.contains(s.address));
                    assert(m[keys[j]] == vals[j]@);
                    if keys[j] == start {
                        assert(j == begin - 1) by {
                            if j < begin - 1 {
                                assert(keys[j] < keys[begin - 1]);
                            }
                        }
                        assert(false);
                    }
                    assert(j >= begin);
                    if j >= i {
                        if j > i {
                            assert(keys[i as int] < keys[j]);
                        }
                        assert(false);
                    }
                    assert(result[h + j - begin]@ == vals[j]@);
                }
            }
            assert forall|s: SymbolModel|
                (exists|i: int| 0 <= i < result.len() && (#[trigger] result[i])@ == s)
                    implies in_range_answer(m, start, end, s) by {
                let a = choose|i: int| 0 <= i < result.len() && (#[trigger] result[i])@ == s;
                if a >= h {
                    let ja = a - h + begin;
                    assert(result[h + ja - begin]@ == vals[ja]@);
                    assert(vals[ja].address == keys[ja]);
                    assert(keys.contains(keys[ja]));
                    assert(m[keys[ja]] == vals[ja]@);
                    assert(keys[ja] > start);
                }
            }
        }
        result
    }

    /// The symbol that stands under `name`.
    pub fn get_by_name(&self, name: &str) -> (r: Option<&Symbol>)
        requires
            self.wf(),
        ensures
            match r {
                Some(s) => self.by_name().dom().contains(name@) && self.by_name()[name@] == s@,
                None => !self.by_name().dom().contains(name@),
            },
    {
        match self.get_shared_by_name(name) {
            Some(s) => Some(&**s),
            None => None,
        }
    }

    /// The handle on the symbol that stands under `name`.
    pub fn get_shared_by_name(&self, name: &str) -> (r: Option<&Arc<Symbol>>)
        requires
            self.wf(),
        ensures
            match r {
                Some(s) => self.by_name().dom().contains(name@) && self.by_name()[name@] == s@,
                None => !self.by_name().dom().contains(name@),
            },
    {
        let key = chars_of(name);
        self.symbols_by_name.get(&key)
    }

    /// Whether a symbol stands under `name`.
    pub fn has_symbol_by_name(&self, name: &str) -> (r: bool)
        requires
            self.wf(),
        ensures
            r == self.by_name().dom().contains(name@),
    {
        let key = chars_of(name);
        self.symbols_by_name.contains_key(&key)
    }

    /// Whether a symbol starts at `addr`.
    pub fn has_symbol_by_addr(&self, addr: u64) -> (r: bool)
        requires
            self.wf(),
        ensures
            r == self.by_addr().dom().contains(addr),
    {
        self.symbols_by_addr.contains_key(addr)
    }

    /// The symbol whose extent holds `address`: the one at the largest start
    /// that is at most `address`, if `address` lies within its size, or, for
    /// a symbol without a size, at its start.
    pub fn lookup(&self, address: u64) -> (r: Option<&Symbol>)
        requires
            self.wf(),
        ensures
            match r {
                Some(s) => lookup_in(self.by_addr(), address) == Some(s@),
                None => lookup_in(self.by_addr(), address) is None,
            },
            r is Some ==> covers(r->0@, address),
    {
        match self.lookup_shared(address) {
            Some(s) => Some(&**s),
            None => None,
        }
    }
}

impl Default for SymbolTable {
    /// An empty store.
    fn default() -> (t: Self)
        ensures
            t.wf(),
            t.by_addr() == Map::<u64, SymbolModel>::empty(),
            t.by_name() == Map::<Seq<char>, SymbolModel>::empty(),
    {
        SymbolTable::new()
    }
}

} // verus!
