//! What is learned from an object file: the table of source files, the
//! lines behind each address, the statics of each file, and the whole of it.

use crate::memory::{MemoryRegion, RegionModel};
use crate::name_map::NameMap;
use crate::symbols::{share, Symbol, SymbolModel, SymbolTable};
use crate::text::{
    chars_of, lemma_lex_asymmetric, lemma_lex_total, lemma_lex_transitive, lex_lt, lex_place,
    Placement,
};
use crate::utils::{finish_path, finished, CanonicalPath, PathStyle};
use std::collections::BTreeMap;
use std::sync::Arc;
use vstd::prelude::*;

verus! {

broadcast use vstd::std_specs::btree::group_btree_axioms;

/// The id under which a table of `paths` knows the name `c`: one more than
/// its position, or zero, the id of an unknown file, where the table does
/// not hold it.
pub open spec fn id_in(paths: Seq<Seq<char>>, c: Seq<char>) -> u32 {
    if paths.contains(c) {
        (paths.index_of(c) + 1) as u32
    } else {
        0
    }
}

/// The names of a table after `c` was interned: `c` joins at the end unless
/// the table holds it already or is full.
pub open spec fn interned(paths: Seq<Seq<char>>, c: Seq<char>) -> Seq<Seq<char>> {
    if paths.contains(c) || paths.len() >= u32::MAX {
        paths
    } else {
        paths.push(c)
    }
}

/// The name that stands under `id`.
pub open spec fn path_of(paths: Seq<Seq<char>>, id: u32) -> Option<Seq<char>> {
    if 1 <= id <= paths.len() {
        Some(paths[id - 1])
    } else {
        None
    }
}

/// Interning gives the same id every time: a name that was interned has
/// the id that it got, and interning it once more changes nothing.
pub proof fn lemma_intern_again(paths: Seq<Seq<char>>, c: Seq<char>)
    requires
        paths.no_duplicates(),
        paths.len() <= u32::MAX,
    ensures
        interned(paths, c).no_duplicates(),
        interned(interned(paths, c), c) == interned(paths, c),
        id_in(interned(interned(paths, c), c), c) == id_in(interned(paths, c), c),
        forall|other: Seq<char>|
            paths.contains(other) ==> id_in(interned(paths, c), other) == id_in(paths, other),
{
    let next = interned(paths, c);
    assert forall|other: Seq<char>| paths.contains(other) implies id_in(next, other) == id_in(
        paths,
        other,
    ) by {
        let i = paths.index_of(other);
        assert(next[i] == other);
        let j = next.index_of(other);
        if j < paths.len() {
            assert(paths[j] == other);
        }
    }
    if !paths.contains(c) && paths.len() < u32::MAX {
        assert(next[paths.len() as int] == c);
    }
}

/// An id and its name belong together: the name under the id of an
/// interned name is that name, and the id of the name under an id is that
/// id.
pub proof fn lemma_id_and_path(paths: Seq<Seq<char>>, c: Seq<char>, id: u32)
    requires
        paths.no_duplicates(),
        paths.len() <= u32::MAX,
    ensures
        paths.contains(c) ==> id_in(paths, c) != 0 && path_of(paths, id_in(paths, c)) == Some(c),
        path_of(paths, id) is Some ==> id_in(paths, path_of(paths, id)->0) == id,
        !paths.contains(c) ==> id_in(paths, c) == 0,
{
    if path_of(paths, id) is Some {
        let p = paths[id - 1];
        assert(paths.contains(p));
        let j = paths.index_of(p);
        assert(j == id - 1);
    }
}

/// The table of source files: each name, in its one written form, under a
/// small number of its own. The numbers start at one and have no gaps; zero
/// stands for an unknown file.
pub struct FileTable {
    files_by_id: Vec<String>,
    id_by_file: NameMap<u32>,
}

impl FileTable {
    /// The names, each at the position one below its id.
    pub closed spec fn paths(&self) -> Seq<Seq<char>> {
        self.files_by_id@.map_values(|s: String| s@)
    }

    /// The invariant of the table: no name stands twice, and the index by
    /// name gives each name its id.
    pub closed spec fn wf(&self) -> bool {
        &&& self.id_by_file.wf()
        &&& self.files_by_id@.len() <= u32::MAX
        &&& forall|i: int|
            0 <= i < self.paths().len() ==> {
                &&& self.id_by_file@.dom().contains(#[trigger] self.paths()[i])
                &&& self.id_by_file@[self.paths()[i]] == i + 1
            }
        &&& forall|p: Seq<char>| #[trigger]
            self.id_by_file@.dom().contains(p) ==> {
                &&& 1 <= self.id_by_file@[p] <= self.paths().len()
                &&& self.paths()[self.id_by_file@[p] - 1] == p
            }
    }

    /// In a well-formed table no name stands twice.
    pub proof fn lemma_distinct(&self)
        requires
            self.wf(),
        ensures
            self.paths().no_duplicates(),
            self.paths().len() <= u32::MAX,
    {
        self.lemma_index();
    }

    proof fn lemma_index(&self)
        requires
            self.wf(),
        ensures
            self.paths().no_duplicates(),
            self.paths().len() <= u32::MAX,
            forall|p: Seq<char>| self.paths().contains(p) <==> self.id_by_file@.dom().contains(p),
            forall|p: Seq<char>| #[trigger]
                self.paths().contains(p) ==> id_in(self.paths(), p) == self.id_by_file@[p],
    {
        assert forall|p: Seq<char>| #[trigger] self.paths().contains(p) implies id_in(
            self.paths(),
            p,
        ) == self.id_by_file@[p] by {
            let j = self.paths().index_of(p);
            assert(self.id_by_file@[self.paths()[j]] == j + 1);
        }
        assert forall|p: Seq<char>| self.id_by_file@.dom().contains(p) implies self.paths().contains(
            p,
        ) by {
            assert(self.paths()[self.id_by_file@[p] - 1] == p);
        }
    }

    /// An empty table.
    pub fn new() -> (r: Self)
        ensures
            r.wf(),
            r.paths() == Seq::<Seq<char>>::empty(),
    {
        let r = FileTable { files_by_id: Vec::new(), id_by_file: NameMap::new() };
        assert(r.paths() =~= Seq::<Seq<char>>::empty());
        r
    }

    /// The id of the file with the resolved name `resolved`, whose written
    /// form is taken first. A name that the table holds keeps its id; a new
    /// one gets the next id. Zero comes back only where every id is taken.
    pub fn intern(&mut self, resolved: &str, style: PathStyle) -> (id: u32)
        requires
            old(self).wf(),
        ensures
            final(self).wf(),
            final(self).paths() == interned(old(self).paths(), finished(resolved@, style)),
            id == id_in(final(self).paths(), finished(resolved@, style)),
            id != 0 ==> path_of(final(self).paths(), id) == Some(finished(resolved@, style)),
            id == 0 <==> !old(self).paths().contains(finished(resolved@, style)) && old(
                self,
            ).paths().len() >= u32::MAX,
    {
        let fp = finish_path(resolved, style);
        let key = chars_of(fp.as_str());
        proof {
            self.lemma_index();
            lemma_intern_again(self.paths(), key@);
            lemma_id_and_path(interned(self.paths(), key@), key@, 0);
        }
        match self.id_by_file.get(&key) {
            Some(id) => {
                return *id;
            },
            None => {},
        }
        if self.files_by_id.len() >= u32::MAX as usize {
            return 0;
        }
        let id: u32 = (self.files_by_id.len() + 1) as u32;
        let ghost old_paths = self.paths();
        let ghost old_index = self.id_by_file@;
        self.files_by_id.push(fp);
        self.id_by_file.insert(key, id);
        proof {
            assert(self.paths() =~= old_paths.push(key@));
            assert forall|i: int| 0 <= i < self.paths().len() implies {
                &&& self.id_by_file@.dom().contains(#[trigger] self.paths()[i])
                &&& self.id_by_file@[self.paths()[i]] == i + 1
            } by {
                if i < old_paths.len() {
                    assert(old_paths[i] == self.paths()[i]);
                    assert(old_index.dom().contains(old_paths[i]));
                }
            }
            assert forall|p: Seq<char>| #[trigger] self.id_by_file@.dom().contains(p) implies {
                &&& 1 <= self.id_by_file@[p] <= self.paths().len()
                &&& self.paths()[self.id_by_file@[p] - 1] == p
            } by {
                if p != key@ {
                    assert(old_index.dom().contains(p));
                    assert(old_paths[old_index[p] - 1] == p);
                }
            }
            assert(self.paths()[id - 1] == key@);
            assert(self.paths().contains(key@));
            assert(self.wf());
            self.lemma_index();
        }
        id
    }

    /// The name that stands under `id`.
    pub fn get_by_id(&self, id: u32) -> (r: Option<&String>)
        requires
            self.wf(),
        ensures
            match r {
                Some(s) => path_of(self.paths(), id) == Some(s@),
                None => path_of(self.paths(), id) is None,
            },
    {
        if id >= 1 && (id as usize) <= self.files_by_id.len() {
            Some(&self.files_by_id[(id - 1) as usize])
        } else {
            None
        }
    }

    /// The id of the name `path`, taken as it is or, where the table does
    /// not hold it so, in its written form.
    pub fn get_by_path(&self, path: &str, style: PathStyle) -> (r: Option<u32>)
        requires
            self.wf(),
        ensures
            r == if self.paths().contains(path@) {
                Some(id_in(self.paths(), path@))
            } else if self.paths().contains(finished(path@, style)) {
                Some(id_in(self.paths(), finished(path@, style)))
            } else {
                None
            },
    {
        proof {
            self.lemma_index();
        }
        let key = chars_of(path);
        match self.id_by_file.get(&key) {
            Some(id) => {
                return Some(*id);
            },
            None => {},
        }
        let fp = finish_path(path, style);
        let canon = chars_of(fp.as_str());
        match self.id_by_file.get(&canon) {
            Some(id) => Some(*id),
            None => None,
        }
    }
}

/// The source lines behind one address.
#[derive(Debug)]
pub struct LineInfoEntry {
    pub file_id: u32,
    pub line: Vec<u64>,
}

/// An entry as a mathematical value.
pub struct EntryModel {
    pub file_id: u32,
    pub lines: Seq<u64>,
}

impl View for LineInfoEntry {
    type V = EntryModel;

    open spec fn view(&self) -> EntryModel {
        EntryModel { file_id: self.file_id, lines: self.line@ }
    }
}

/// Whether an entry holds at least one line, and positive line numbers
/// only.
pub open spec fn entry_valid(e: EntryModel) -> bool {
    &&& e.lines.len() > 0
    &&& forall|i: int| 0 <= i < e.lines.len() ==> e.lines[i] > 0
}

impl LineInfoEntry {
    /// An entry with one line.
    pub fn new(file_id: u32, line: u64) -> (r: Self)
        requires
            line > 0,
        ensures
            r@ == (EntryModel { file_id, lines: seq![line] }),
            entry_valid(r@),
    {
        let mut lines: Vec<u64> = Vec::new();
        lines.push(line);
        assert(lines@ =~= seq![line]);
        LineInfoEntry { file_id, line: lines }
    }

    /// Adds a line; a line that the entry holds already is added again.
    pub fn add_line(&mut self, line: u64)
        requires
            line > 0,
        ensures
            final(self)@ == (EntryModel {
                file_id: old(self).file_id,
                lines: old(self)@.lines.push(line),
            }),
            entry_valid(old(self)@) ==> entry_valid(final(self)@),
    {
        self.line.push(line);
    }
}

/// What `append_or_insert` makes of an index: a line for an address that
/// the index holds joins the lines of that address, whose file stays the
/// one it was; a line for a new address makes an entry of its own.
pub open spec fn appended(m: Map<u64, EntryModel>, address: u64, file_id: u32, line: u64) -> Map<
    u64,
    EntryModel,
> {
    if m.dom().contains(address) {
        m.insert(
            address,
            EntryModel { file_id: m[address].file_id, lines: m[address].lines.push(line) },
        )
    } else {
        m.insert(address, EntryModel { file_id, lines: seq![line] })
    }
}

/// The index from addresses to source lines.
pub struct AddrtoLineInfo {
    pub entries: BTreeMap<u64, LineInfoEntry>,
}

impl AddrtoLineInfo {
    /// The index as a mathematical map.
    pub open spec fn model(&self) -> Map<u64, EntryModel> {
        self.entries@.map_values(|e: LineInfoEntry| e@)
    }

    /// The invariant of the index: every entry holds at least one line, and
    /// positive line numbers only.
    pub open spec fn wf(&self) -> bool {
        forall|a: u64| #[trigger] self.entries@.dom().contains(a) ==> entry_valid(self.entries@[a]@)
    }

    /// An empty index.
    pub fn new() -> (r: Self)
        ensures
            r.wf(),
            r.model() == Map::<u64, EntryModel>::empty(),
    {
        let r = AddrtoLineInfo { entries: BTreeMap::new() };
        assert(r.model() =~= Map::<u64, EntryModel>::empty());
        r
    }

    /// Puts an entry with the one line in place of whatever the index held
    /// for the address.
    pub fn add_entry(&mut self, address: u64, file_id: u32, line: u64)
        requires
            old(self).wf(),
            line > 0,
        ensures
            final(self).wf(),
            final(self).model() == old(self).model().insert(
                address,
                EntryModel { file_id, lines: seq![line] },
            ),
    {
        let ent = LineInfoEntry::new(file_id, line);
        let _ = self.entries.insert(address, ent);
        assert(self.model() =~= old(self).model().insert(
            address,
            EntryModel { file_id, lines: seq![line] },
        ));
    }

    /// The entry of an address.
    pub fn get_entry(&self, address: u64) -> (r: Option<&LineInfoEntry>)
        requires
            self.wf(),
        ensures
            match r {
                Some(e) => self.model().dom().contains(address) && self.model()[address] == e@
                    && entry_valid(e@),
                None => !self.model().dom().contains(address),
            },
    {
        self.entries.get(&address)
    }

    /// Adds a line to the entry of an address, or makes the entry.
    pub fn append_or_insert(&mut self, address: u64, file_id: u32, line: u64)
        requires
            old(self).wf(),
            line > 0,
        ensures
            final(self).wf(),
            final(self).model() == appended(old(self).model(), address, file_id, line),
    {
        match self.entries.remove(&address) {
            Some(existing) => {
                let mut entry = existing;
                entry.add_line(line);
                let _ = self.entries.insert(address, entry);
                proof {
                    assert(self.entries@ =~= old(self).entries@.insert(address, entry));
                    assert(self.model() =~= appended(old(self).model(), address, file_id, line));
                }
            },
            None => {
                let ent = LineInfoEntry::new(file_id, line);
                let _ = self.entries.insert(address, ent);
                assert(self.model() =~= appended(old(self).model(), address, file_id, line));
            },
        }
    }
}

/// The symbols as mathematical values.
pub open spec fn models(v: Seq<Arc<Symbol>>) -> Seq<SymbolModel> {
    v.map_values(|s: Arc<Symbol>| s@)
}

/// Where a symbol named `name` joins a list in name order: behind the last
/// symbol whose name does not come after `name`.
pub open spec fn place_of(s: Seq<SymbolModel>, name: Seq<char>) -> nat
    decreases s.len(),
{
    if s.len() == 0 {
        0
    } else if lex_lt(name, s.last().name) {
        place_of(s.drop_last(), name)
    } else {
        s.len()
    }
}

/// The symbols in lexicographic order of their names; symbols of one name
/// keep the order in which they stood.
pub open spec fn sorted_by_name(s: Seq<SymbolModel>) -> Seq<SymbolModel>
    decreases s.len(),
{
    if s.len() == 0 {
        s
    } else {
        let front = sorted_by_name(s.drop_last());
        front.insert(place_of(front, s.last().name) as int, s.last())
    }
}

/// Whether no symbol of the list has a name that comes before the name of a
/// symbol in front of it.
pub open spec fn in_name_order(s: Seq<SymbolModel>) -> bool {
    forall|i: int, j: int| 0 <= i < j < s.len() ==> !lex_lt(s[j].name, s[i].name)
}

/// Where a symbol joins a list in name order: the symbols from there on
/// have names that come after its name, and the one in front, if any, does
/// not.
pub proof fn lemma_place_of(s: Seq<SymbolModel>, name: Seq<char>)
    ensures
        place_of(s, name) <= s.len(),
        forall|k: int| place_of(s, name) <= k < s.len() ==> lex_lt(name, s[k].name),
        place_of(s, name) > 0 ==> !lex_lt(name, s[place_of(s, name) - 1].name),
    decreases s.len(),
{
    if s.len() > 0 && lex_lt(name, s.last().name) {
        let t = s.drop_last();
        lemma_place_of(t, name);
        assert forall|k: int| place_of(s, name) <= k < s.len() implies lex_lt(name, s[k].name) by {
            if k < t.len() {
                assert(t[k] == s[k]);
            }
        }
        if place_of(s, name) > 0 {
            assert(t[place_of(s, name) - 1] == s[place_of(s, name) - 1]);
        }
    }
}

/// Sorting by name gives the same symbols, each as often as before, in name
/// order.
pub proof fn lemma_sorted_by_name(s: Seq<SymbolModel>)
    ensures
        sorted_by_name(s).len() == s.len(),
        in_name_order(sorted_by_name(s)),
        sorted_by_name(s).to_multiset() == s.to_multiset(),
    decreases s.len(),
{
    if s.len() > 0 {
        let x = s.last();
        let front = sorted_by_name(s.drop_last());
        lemma_sorted_by_name(s.drop_last());
        lemma_place_of(front, x.name);
        let p = place_of(front, x.name) as int;
        let out = front.insert(p, x);
        assert forall|i: int, j: int| 0 <= i < j < out.len() implies !lex_lt(
            out[j].name,
            out[i].name,
        ) by {
            if j < p {
                assert(out[i] == front[i] && out[j] == front[j]);
            } else if j == p {
                // out[i] is in front of the place: it does not come after x
                assert(out[i] == front[i]);
                if lex_lt(x.name, front[i].name) {
                    if i < p - 1 {
                        assert(!lex_lt(front[p - 1].name, front[i].name));
                        lemma_lex_total(front[p - 1].name, front[i].name);
                        if front[p - 1].name != front[i].name {
                            lemma_lex_transitive(x.name, front[i].name, front[p - 1].name);
                        }
                    }
                    assert(false);
                }
            } else if i < p {
                assert(out[i] == front[i] && out[j] == front[j - 1]);
            } else if i == p {
                assert(out[j] == front[j - 1]);
                lemma_lex_asymmetric(x.name, front[j - 1].name);
            } else {
                assert(out[i] == front[i - 1] && out[j] == front[j - 1]);
            }
        }
        assert(out.remove(p) =~= front);
        vstd::seq_lib::to_multiset_remove(out, p);
        out.to_multiset_ensures();
        assert(out.to_multiset() =~= front.to_multiset().insert(x)) by {
            assert(out.contains(x)) by {
                assert(out[p] == x);
            }
        }
        assert(s =~= s.drop_last().push(x));
        vstd::seq_lib::to_multiset_build(s.drop_last(), x);
    }
}

/// Sorts the symbols by name.
pub fn sort_by_name(v: &mut Vec<Arc<Symbol>>)
    ensures
        models(final(v)@) == sorted_by_name(models(old(v)@)),
        in_name_order(models(final(v)@)),
        models(final(v)@).to_multiset() == models(old(v)@).to_multiset(),
        final(v)@.len() == old(v)@.len(),
{
    let mut out: Vec<Arc<Symbol>> = Vec::new();
    let mut keys: Vec<Vec<char>> = Vec::new();
    let ghost input = models(v@);
    let mut i: usize = 0;
    assert(input.take(0) =~= Seq::<SymbolModel>::empty());
    assert(models(out@) =~= Seq::<SymbolModel>::empty());
    while i < v.len()
        invariant
            i <= v.len(),
            input == models(v@),
            keys.len() == out.len(),
            forall|k: int| 0 <= k < out.len() ==> (#[trigger] keys[k])@ == out[k].name@,
            models(out@) == sorted_by_name(input.take(i as int)),
        decreases v.len() - i,
    {
        let x = share(&v[i]);
        let name = chars_of(x.name.as_str());
        let ghost front = models(out@);
        let mut p: usize = out.len();
        assert(front.take(p as int) == front);
        while p > 0 && lex_place(&name, &keys[p - 1]) == Placement::Before
            invariant
                p <= out.len(),
                keys.len() == out.len(),
                front == models(out@),
                forall|k: int| 0 <= k < out.len() ==> (#[trigger] keys[k])@ == out[k].name@,
                place_of(front, name@) == place_of(front.take(p as int), name@),
            decreases p,
        {
            assert(front.take(p as int).drop_last() == front.take(p - 1));
            assert(front.take(p as int).last().name == keys[p - 1]@);
            p -= 1;
        }
        proof {
            if p > 0 {
                assert(front.take(p as int).last().name == keys[p - 1]@);
            }
            assert(place_of(front, name@) == p);
            assert(input.take(i + 1).drop_last() =~= input.take(i as int));
            assert(input.take(i + 1).last() == x@);
        }
        out.insert(p, x);
        keys.insert(p, name);
        proof {
            assert(models(out@) =~= front.insert(p as int, x@));
        }
        i += 1;
    }
    proof {
        assert(input.take(v.len() as int) =~= input);
        lemma_sorted_by_name(input);
    }
    *v = out;
}

/// The statics of each source file, under the written form of its name.
pub struct StaticFileMapping {
    pub file_map: NameMap<Vec<Arc<Symbol>>>,
}

impl StaticFileMapping {
    /// The mapping as a mathematical map.
    pub open spec fn model(&self) -> Map<Seq<char>, Seq<SymbolModel>> {
        self.file_map@.map_values(|v: Vec<Arc<Symbol>>| models(v@))
    }

    /// The invariant of the mapping.
    pub open spec fn wf(&self) -> bool {
        self.file_map.wf()
    }

    /// An empty mapping.
    pub fn new() -> (r: Self)
        ensures
            r.wf(),
            r.model() == Map::<Seq<char>, Seq<SymbolModel>>::empty(),
    {
        let r = StaticFileMapping { file_map: NameMap::new() };
        assert(r.model() =~= Map::<Seq<char>, Seq<SymbolModel>>::empty());
        r
    }

    /// Adds a symbol at the end of the statics of a file.
    pub fn insert(&mut self, file_path: &CanonicalPath, symbol: Arc<Symbol>)
        requires
            old(self).wf(),
        ensures
            final(self).wf(),
            final(self).model() == old(self).model().insert(
                file_path@,
                if old(self).model().dom().contains(file_path@) {
                    old(self).model()[file_path@].push(symbol@)
                } else {
                    seq![symbol@]
                },
            ),
    {
        let key = chars_of(file_path.as_str());
        let ghost before = self.model();
        match self.file_map.find(&key) {
            Some(i) => {
                proof {
                    self.file_map.lemma_view_at(i as int);
                }
                let mut list = self.file_map.replace_value_at(i, Vec::new());
                let ghost old_list = list@;
                list.push(symbol);
                let _ = self.file_map.replace_value_at(i, list);
                proof {
                    assert(models(list@) =~= models(old_list).push(symbol@));
                    assert(self.file_map@ =~= old(self).file_map@.insert(key@, list));
                    assert(self.model() =~= before.insert(key@, before[key@].push(symbol@)));
                }
            },
            None => {
                let mut list: Vec<Arc<Symbol>> = Vec::new();
                list.push(symbol);
                assert(models(list@) =~= seq![symbol@]);
                self.file_map.insert(key, list);
                assert(self.model() =~= before.insert(key@, seq![symbol@]));
            },
        }
    }

    /// Sorts the statics of every file by name.
    pub fn sort_symbols(&mut self)
        requires
            old(self).wf(),
        ensures
            final(self).wf(),
            final(self).model() == old(self).model().map_values(
                |s: Seq<SymbolModel>| sorted_by_name(s),
            ),
    {
        let n: usize = self.file_map.len();
        let ghost before = self.file_map;
        let mut i: usize = 0;
        while i < n
            invariant
                i <= n,
                before == old(self).file_map,
                before.wf(),
                self.file_map.wf(),
                n == before.spec_keys().len(),
                self.file_map.spec_keys() == before.spec_keys(),
                self.file_map.spec_values().len() == n,
                forall|k: int|
                    0 <= k < i ==> models((#[trigger] self.file_map.spec_values()[k])@)
                        == sorted_by_name(models(before.spec_values()[k]@)),
                forall|k: int|
                    i <= k < n ==> (#[trigger] self.file_map.spec_values()[k])
                        == before.spec_values()[k],
            decreases n - i,
        {
            let mut list = self.file_map.replace_value_at(i, Vec::new());
            sort_by_name(&mut list);
            let _ = self.file_map.replace_value_at(i, list);
            i += 1;
        }
        proof {
            let want = old(self).model().map_values(|s: Seq<SymbolModel>| sorted_by_name(s));
            assert forall|p: Seq<char>| #[trigger] want.dom().contains(p) implies self.model().dom().contains(
                p,
            ) && self.model()[p] == want[p] by {
                let k = before.spec_keys().index_of(p);
                before.lemma_view_at(k);
                self.file_map.lemma_view_at(k);
            }
            assert forall|p: Seq<char>| #[trigger] self.model().dom().contains(p) implies want.dom().contains(
                p,
            ) by {
                assert(before.spec_keys().contains(p));
            }
            assert(self.model() =~= want);
        }
    }

    /// The statics of a file, in the order in which the mapping holds them;
    /// none for a file that it does not know.
    pub fn get_statics_for_file(&self, file_path: &CanonicalPath) -> (r: Vec<Arc<Symbol>>)
        requires
            self.wf(),
        ensures
            models(r@) == if self.model().dom().contains(file_path@) {
                self.model()[file_path@]
            } else {
                Seq::empty()
            },
    {
        let key = chars_of(file_path.as_str());
        match self.file_map.get(&key) {
            Some(list) => share_all(list),
            None => {
                let r: Vec<Arc<Symbol>> = Vec::new();
                assert(models(r@) =~= Seq::<SymbolModel>::empty());
                r
            },
        }
    }
}

/// One more handle on each symbol of the list.
pub fn share_all(list: &Vec<Arc<Symbol>>) -> (r: Vec<Arc<Symbol>>)
    ensures
        r@ == list@,
{
    let mut r: Vec<Arc<Symbol>> = Vec::new();
    let mut i: usize = 0;
    while i < list.len()
        invariant
            i <= list.len(),
            r@ == list@.take(i as int),
        decreases list.len() - i,
    {
        r.push(share(&list[i]));
        i += 1;
        assert(list@.take(i as int) == list@.take(i - 1).push(list@[i - 1]));
    }
    assert(list@.take(list.len() as int) == list@);
    r
}

/// All that was learned from an object file.
pub struct ObjectInfo {
    /// The source lines behind each address.
    pub addr_to_line: AddrtoLineInfo,
    /// The symbols that the debug information describes.
    pub dwarf_symbols: SymbolTable,
    /// The source files.
    pub file_table: FileTable,
    /// The sections that take up memory.
    pub memory_ranges: Vec<MemoryRegion>,
    /// The symbols of the object file's own table.
    pub elf_symbols: SymbolTable,
    /// The statics of each source file.
    pub static_file_mapping: StaticFileMapping,
    /// The data symbols of global scope.
    pub global_symbols: Vec<Arc<Symbol>>,
    /// Where the RTT control block stands, if the object file has one.
    pub rtt_symbol_address: Option<u64>,
}

/// A symbol store as a mathematical value: its two indexes.
pub struct TableModel {
    pub by_addr: Map<u64, SymbolModel>,
    pub by_name: Map<Seq<char>, SymbolModel>,
}

/// The store with one more symbol: it takes the place under its start
/// address and the place under its name.
pub open spec fn table_with(t: TableModel, s: SymbolModel) -> TableModel {
    TableModel { by_addr: t.by_addr.insert(s.address, s), by_name: t.by_name.insert(s.name, s) }
}

/// The statics with one more symbol at the end of those of `file`.
pub open spec fn statics_with(
    m: Map<Seq<char>, Seq<SymbolModel>>,
    file: Seq<char>,
    s: SymbolModel,
) -> Map<Seq<char>, Seq<SymbolModel>> {
    m.insert(
        file,
        if m.dom().contains(file) {
            m[file].push(s)
        } else {
            seq![s]
        },
    )
}

/// All that was learned from an object file, as a mathematical value.
pub struct InfoModel {
    pub lines: Map<u64, EntryModel>,
    pub dwarf: TableModel,
    pub elf: TableModel,
    pub files: Seq<Seq<char>>,
    pub regions: Seq<RegionModel>,
    pub statics: Map<Seq<char>, Seq<SymbolModel>>,
    pub globals: Seq<SymbolModel>,
    pub rtt: Option<u64>,
}

impl SymbolTable {
    /// The store as a mathematical value.
    pub open spec fn model(&self) -> TableModel {
        TableModel { by_addr: self.by_addr(), by_name: self.by_name() }
    }
}

impl ObjectInfo {
    /// The whole as a mathematical value.
    pub open spec fn model(&self) -> InfoModel {
        InfoModel {
            lines: self.addr_to_line.model(),
            dwarf: self.dwarf_symbols.model(),
            elf: self.elf_symbols.model(),
            files: self.file_table.paths(),
            regions: self.regions(),
            statics: self.static_file_mapping.model(),
            globals: self.globals(),
            rtt: self.rtt_symbol_address,
        }
    }

    /// The invariant of the whole: that of each part.
    pub open spec fn wf(&self) -> bool {
        &&& self.addr_to_line.wf()
        &&& self.dwarf_symbols.wf()
        &&& self.file_table.wf()
        &&& self.elf_symbols.wf()
        &&& self.static_file_mapping.wf()
    }

    /// The sections as mathematical values.
    pub open spec fn regions(&self) -> Seq<RegionModel> {
        self.memory_ranges@.map_values(|r: MemoryRegion| r@)
    }

    /// The globals as mathematical values.
    pub open spec fn globals(&self) -> Seq<SymbolModel> {
        models(self.global_symbols@)
    }

    /// Nothing learned yet.
    pub fn new() -> (r: Self)
        ensures
            r.wf(),
            r.addr_to_line.model() == Map::<u64, EntryModel>::empty(),
            r.dwarf_symbols.by_addr() == Map::<u64, SymbolModel>::empty(),
            r.dwarf_symbols.by_name() == Map::<Seq<char>, SymbolModel>::empty(),
            r.elf_symbols.by_addr() == Map::<u64, SymbolModel>::empty(),
            r.elf_symbols.by_name() == Map::<Seq<char>, SymbolModel>::empty(),
            r.file_table.paths() == Seq::<Seq<char>>::empty(),
            r.regions() == Seq::<RegionModel>::empty(),
            r.static_file_mapping.model() == Map::<Seq<char>, Seq<SymbolModel>>::empty(),
            r.globals() == Seq::<SymbolModel>::empty(),
            r.rtt_symbol_address is None,
    {
        let r = ObjectInfo {
            addr_to_line: AddrtoLineInfo::new(),
            dwarf_symbols: SymbolTable::new(),
            file_table: FileTable::new(),
            memory_ranges: Vec::new(),
            elf_symbols: SymbolTable::new(),
            static_file_mapping: StaticFileMapping::new(),
            global_symbols: Vec::new(),
            rtt_symbol_address: None,
        };
        assert(r.regions() =~= Seq::<RegionModel>::empty());
        assert(r.globals() =~= Seq::<SymbolModel>::empty());
        r
    }

    /// Sorts the globals, and the statics of every file, by name. This is
    /// the last step of loading; readers rely on the order.
    pub fn sort_globals_and_statics(&mut self)
        requires
            old(self).wf(),
        ensures
            final(self).wf(),
            final(self).globals() == sorted_by_name(old(self).globals()),
            in_name_order(final(self).globals()),
            final(self).globals().to_multiset() == old(self).globals().to_multiset(),
            final(self).static_file_mapping.model() == old(self).static_file_mapping.model().map_values(
                |s: Seq<SymbolModel>| sorted_by_name(s),
            ),
            final(self).addr_to_line == old(self).addr_to_line,
            final(self).dwarf_symbols == old(self).dwarf_symbols,
            final(self).file_table == old(self).file_table,
            final(self).memory_ranges == old(self).memory_ranges,
            final(self).elf_symbols == old(self).elf_symbols,
            final(self).rtt_symbol_address == old(self).rtt_symbol_address,
    {
        sort_by_name(&mut self.global_symbols);
        self.static_file_mapping.sort_symbols();
    }
}

impl Default for FileTable {
    /// An empty table.
    fn default() -> (r: Self)
        ensures
            r.wf(),
            r.paths() == Seq::<Seq<char>>::empty(),
    {
        FileTable::new()
    }
}

impl Default for AddrtoLineInfo {
    /// An empty index.
    fn default() -> (r: Self)
        ensures
            r.wf(),
            r.model() == Map::<u64, EntryModel>::empty(),
    {
        AddrtoLineInfo::new()
    }
}

} // verus!
