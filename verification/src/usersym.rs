//! User-space symbol resolution: `/proc/<pid>/maps` mappings plus ELF
//! symbol tables, cached per binary by `(dev, inode)` so that a library
//! shared across many processes is read only once.

use vstd::prelude::*;

use object::{Object, ObjectSymbol, SymbolKind as K};

use crate::assoc::{key_index, lemma_key_index};
use crate::num::{parse_u64, parse_unsigned};
use crate::symtab::{
    first_arrangement, lemma_first_insert, lemma_lookup_first, lookup_first, shifted_positions,
    upper_bound,
};
use crate::text::{
    chars_of, join, join_from, lines, split_lines, split_once, split_once_at, split_words, views,
    words,
};

verus! {

/// One mapping of `/proc/<pid>/maps`.
#[derive(Clone, Debug)]
pub struct MapEntry {
    pub start: u64,
    pub end: u64,
    pub file_offset: u64,
    pub dev: u64,
    pub inode: u64,
    pub path: Option<String>,
}

/// The value of a mapping.
pub struct MapEntryModel {
    pub start: u64,
    pub end: u64,
    pub file_offset: u64,
    pub dev: u64,
    pub inode: u64,
    pub path: Option<Seq<char>>,
}

impl View for MapEntry {
    type V = MapEntryModel;

    open spec fn view(&self) -> MapEntryModel {
        MapEntryModel {
            start: self.start,
            end: self.end,
            file_offset: self.file_offset,
            dev: self.dev,
            inode: self.inode,
            path: match self.path {
                Some(p) => Some(p@),
                None => None,
            },
        }
    }
}

/// The mapping a `/proc/<pid>/maps` line describes: `start-end perms
/// offset major:minor inode [path]`, numbers in hexadecimal but the inode in
/// decimal, the device number being `(major << 8) | minor`, and the path the
/// remaining words joined by single spaces; none when a field is missing or
/// malformed.
pub open spec fn maps_line_entry(line: Seq<char>) -> Option<MapEntryModel> {
    let t = words(line);
    if t.len() < 5 {
        None
    } else {
        match (split_once(t[0], '-'), split_once(t[3], ':')) {
            (Some((start_s, end_s)), Some((maj_s, min_s))) => match (
                parse_unsigned(start_s, 16),
                parse_unsigned(end_s, 16),
                parse_unsigned(t[2], 16),
                parse_unsigned(maj_s, 16),
                parse_unsigned(min_s, 16),
                parse_unsigned(t[4], 10),
            ) {
                (Ok(start), Ok(end), Ok(file_offset), Ok(maj), Ok(min), Ok(inode)) => Some(
                    MapEntryModel {
                        start,
                        end,
                        file_offset,
                        dev: (maj << 8u64) | min,
                        inode,
                        path: if t.len() > 5 {
                            Some(join(t.skip(5), seq![' ']))
                        } else {
                            None
                        },
                    },
                ),
                _ => None,
            },
            _ => None,
        }
    }
}

/// The mappings described by the well-formed lines of `ls`, in order.
pub open spec fn maps_entries(ls: Seq<Seq<char>>) -> Seq<MapEntryModel>
    decreases ls.len(),
{
    if ls.len() == 0 {
        seq![]
    } else {
        let rest = maps_entries(ls.drop_last());
        match maps_line_entry(ls.last()) {
            Some(e) => rest.push(e),
            None => rest,
        }
    }
}

/// The models of a list of mappings.
pub open spec fn entry_models(v: Seq<MapEntry>) -> Seq<MapEntryModel> {
    v.map_values(|e: MapEntry| e@)
}

/// A mapping that resolves `ip`: backed by a file (non-zero inode and a
/// path; anonymous mappings never resolve) and containing `ip`.
pub open spec fn resolves(e: MapEntryModel, ip: u64) -> bool {
    e.inode != 0 && e.path is Some && e.start <= ip && ip < e.end
}

/// `i` is the first mapping of `es` that resolves `ip`.
pub open spec fn first_resolving(es: Seq<MapEntryModel>, ip: u64, i: int) -> bool {
    &&& 0 <= i < es.len()
    &&& resolves(es[i], ip)
    &&& forall|j: int| 0 <= j < i ==> !resolves(#[trigger] es[j], ip)
}

/// The first mapping of `es` that resolves `ip`, if any.
pub open spec fn mapping_for(es: Seq<MapEntryModel>, ip: u64) -> Option<MapEntryModel> {
    if exists|i: int| first_resolving(es, ip, i) {
        Some(es[choose|i: int| first_resolving(es, ip, i)])
    } else {
        None
    }
}

/// Only file-backed mappings resolve addresses: the mapping found for `ip`
/// has a non-zero inode and a path, and contains `ip`.
pub proof fn law_only_file_backed_mappings_resolve(es: Seq<MapEntryModel>, ip: u64)
    ensures
        mapping_for(es, ip) matches Some(e) ==> e.inode != 0 && e.path is Some && e.start <= ip
            && ip < e.end,
{
    if exists|i: int| first_resolving(es, ip, i) {
        let i = choose|i: int| first_resolving(es, ip, i);
        assert(resolves(es[i], ip));
    }
}

/// Parses one line of `/proc/<pid>/maps`.
pub fn parse_maps_line(line: &[char]) -> (r: Option<MapEntry>)
    ensures
        match r {
            None => maps_line_entry(line@) is None,
            Some(e) => maps_line_entry(line@) == Some(e@),
        },
{
    let t = split_words(line);
    proof {
        assert(views(t@) == words(line@));
    }
    if t.len() < 5 {
        return None;
    }
    let ghost tv = views(t@);
    assert(tv[0] == t@[0]@ && tv[2] == t@[2]@ && tv[3] == t@[3]@ && tv[4] == t@[4]@);
    let range = split_once_at(t[0].as_slice(), '-');
    let devs = split_once_at(t[3].as_slice(), ':');
    let (start_s, end_s) = match range {
        Some(x) => x,
        None => return None,
    };
    let (maj_s, min_s) = match devs {
        Some(x) => x,
        None => return None,
    };
    let start = match parse_u64(start_s.as_slice(), 16) {
        Ok(v) => v,
        Err(_) => return None,
    };
    let end = match parse_u64(end_s.as_slice(), 16) {
        Ok(v) => v,
        Err(_) => return None,
    };
    let file_offset = match parse_u64(t[2].as_slice(), 16) {
        Ok(v) => v,
        Err(_) => return None,
    };
    let maj = match parse_u64(maj_s.as_slice(), 16) {
        Ok(v) => v,
        Err(_) => return None,
    };
    let min = match parse_u64(min_s.as_slice(), 16) {
        Ok(v) => v,
        Err(_) => return None,
    };
    let inode = match parse_u64(t[4].as_slice(), 10) {
        Ok(v) => v,
        Err(_) => return None,
    };
    let dev = (maj << 8u64) | min;
    let path = if t.len() > 5 {
        let p = join_from(&t, 5, ' ');
        Some(crate::text::string_of(p.as_slice()))
    } else {
        None
    };
    Some(MapEntry { start, end, file_offset, dev, inode, path })
}

/// The memory mappings of one process.
pub struct ProcMaps {
    entries: Vec<MapEntry>,
}

impl View for ProcMaps {
    type V = Seq<MapEntryModel>;

    closed spec fn view(&self) -> Seq<MapEntryModel> {
        entry_models(self.entries@)
    }
}

impl ProcMaps {
    /// Reads the text of `/proc/<pid>/maps`, keeping the mappings of its
    /// well-formed lines in order.
    pub fn parse(text: &str) -> (m: ProcMaps)
        ensures
            m@ == maps_entries(lines(text@)),
    {
        let chars = chars_of(text);
        let ls = split_lines(chars.as_slice());
        let ghost lv = views(ls@);
        let mut entries: Vec<MapEntry> = Vec::new();
        let mut i: usize = 0;
        while i < ls.len()
            invariant
                lv == views(ls@),
                lv == lines(text@),
                i <= ls@.len(),
                entry_models(entries@) == maps_entries(lv.take(i as int)),
            decreases ls@.len() - i,
        {
            assert(lv.take(i + 1).drop_last() =~= lv.take(i as int));
            assert(lv.take(i + 1).last() == ls@[i as int]@);
            let ghost before = entries@;
            match parse_maps_line(ls[i].as_slice()) {
                Some(e) => {
                    entries.push(e);
                    assert(entry_models(entries@) =~= entry_models(before).push(e@));
                },
                None => {},
            }
            i = i + 1;
        }
        assert(lv.take(ls@.len() as int) =~= lv);
        ProcMaps { entries }
    }

    /// The mapping containing `ip`, if it is backed by a real file
    /// (anonymous mappings have `inode == 0` and are never resolvable); the
    /// first such mapping when several contain `ip`.
    pub fn find(&self, ip: u64) -> (r: Option<&MapEntry>)
        ensures
            match r {
                None => mapping_for(self@, ip) is None,
                Some(e) => mapping_for(self@, ip) == Some(e@),
            },
    {
        let ghost es = self@;
        let mut i: usize = 0;
        while i < self.entries.len()
            invariant
                es == entry_models(self.entries@),
                i <= es.len(),
                forall|j: int| 0 <= j < i ==> !resolves(#[trigger] es[j], ip),
            decreases es.len() - i,
        {
            let e = &self.entries[i];
            assert(es[i as int] == e@);
            if e.inode != 0 && e.path.is_some() && ip >= e.start && ip < e.end {
                assert(first_resolving(es, ip, i as int));
                let ghost k = choose|k: int| first_resolving(es, ip, k);
                assert(k == i) by {
                    if k < i {
                        assert(!resolves(es[k], ip));
                    } else if k > i {
                        assert(!resolves(es[i as int], ip));
                    }
                }
                return Some(e);
            }
            i = i + 1;
        }
        assert forall|k: int| !first_resolving(es, ip, k) by {
            if 0 <= k < es.len() {
                assert(!resolves(es[k], ip));
            }
        }
        None
    }
}


/// The error type of the object-file reader.
#[verifier::external_type_specification]
#[verifier::external_body]
pub struct ExObjectReadError(object::read::Error);

/// How the object-file reader classifies a symbol.
#[derive(Clone, Copy, Debug, PartialEq, Eq, Structural)]
pub enum SymbolCategory {
    Unknown,
    Text,
    Data,
    Section,
    File,
    Label,
    Tls,
    Other,
}

/// One symbol as listed by an object file: its address, its category and
/// its name (none when the name could not be read).
pub struct SymbolRecord {
    pub address: u64,
    pub category: SymbolCategory,
    pub name: Option<String>,
}

impl View for SymbolRecord {
    type V = (u64, SymbolCategory, Option<Seq<char>>);

    open spec fn view(&self) -> (u64, SymbolCategory, Option<Seq<char>>) {
        (
            self.address,
            self.category,
            match self.name {
                Some(n) => Some(n@),
                None => None,
            },
        )
    }
}

/// The values of a list of symbol records.
pub open spec fn record_models(v: Seq<SymbolRecord>) -> Seq<(u64, SymbolCategory, Option<Seq<char>>)> {
    v.map_values(|r: SymbolRecord| r@)
}

/// The symbol table and the dynamic symbol table, in listing order, that the
/// object-file reader finds in `data`; none when `data` is not an object file
/// it can read.
pub uninterp spec fn object_symbol_tables(data: Seq<u8>) -> Option<
    (Seq<(u64, SymbolCategory, Option<Seq<char>>)>, Seq<(u64, SymbolCategory, Option<Seq<char>>)>),
>;

/// Reads the symbol table and the dynamic symbol table of an object file
/// with `object::File::parse`, `Object::symbols` and
/// `Object::dynamic_symbols`. Trusted: the records are `object_symbol_tables`
/// of the bytes, a function of the bytes alone.
#[verifier::external_body]
fn read_symbol_tables(data: &[u8]) -> (r: Result<
    (Vec<SymbolRecord>, Vec<SymbolRecord>),
    object::read::Error,
>)
    ensures
        match r {
            Ok((s, d)) => object_symbol_tables(data@) == Some((record_models(s@), record_models(d@))),
            Err(_) => object_symbol_tables(data@) is None,
        },
{
    let file = object::File::parse(data)?;
    let record = |s: object::Symbol<'_, '_>| SymbolRecord {
        address: s.address(),
        category: match s.kind() {
            K::Unknown => SymbolCategory::Unknown, K::Text => SymbolCategory::Text,
            K::Data => SymbolCategory::Data, K::Section => SymbolCategory::Section,
            K::File => SymbolCategory::File, K::Label => SymbolCategory::Label,
            K::Tls => SymbolCategory::Tls, _ => SymbolCategory::Other,
        },
        name: s.name().ok().map(|n| n.to_string()),
    };
    Ok((file.symbols().map(record).collect(), file.dynamic_symbols().map(record).collect()))
}

/// The named code symbols among `recs`: text symbols whose name could be
/// read and is not empty, as `(address, name)`, in listing order.
pub open spec fn text_symbols(recs: Seq<(u64, SymbolCategory, Option<Seq<char>>)>) -> Seq<
    (u64, Seq<char>),
>
    decreases recs.len(),
{
    if recs.len() == 0 {
        seq![]
    } else {
        let rest = text_symbols(recs.drop_last());
        let r = recs.last();
        match r.2 {
            Some(n) => if r.1 == SymbolCategory::Text && n.len() > 0 {
                rest.push((r.0, n))
            } else {
                rest
            },
            None => rest,
        }
    }
}

/// The symbols a binary is resolved against: its named code symbols, or,
/// when it has none (a binary stripped of `.symtab`), those of its dynamic
/// symbol table.
pub open spec fn chosen_symbols(
    tables: (Seq<(u64, SymbolCategory, Option<Seq<char>>)>, Seq<(u64, SymbolCategory, Option<Seq<char>>)>),
) -> Seq<(u64, Seq<char>)> {
    if text_symbols(tables.0).len() > 0 {
        text_symbols(tables.0)
    } else {
        text_symbols(tables.1)
    }
}

/// `r` is a named code symbol: a text symbol whose name was read and is not
/// empty.
pub open spec fn named_text(r: (u64, SymbolCategory, Option<Seq<char>>)) -> bool {
    r.1 == SymbolCategory::Text && r.2 is Some && r.2->0.len() > 0
}

/// The named code symbols of a table, in order, are exactly its named text
/// records; there are some exactly when some record is one.
proof fn lemma_text_symbols(recs: Seq<(u64, SymbolCategory, Option<Seq<char>>)>)
    ensures
        (text_symbols(recs).len() > 0) == (exists|i: int| 0 <= i < recs.len() && #[trigger] named_text(recs[i])),
        forall|j: int| #![trigger text_symbols(recs)[j]] 0 <= j < text_symbols(recs).len() ==> exists|i: int|
            0 <= i < recs.len() && #[trigger] named_text(recs[i]) && text_symbols(recs)[j] == (
                recs[i].0,
                recs[i].2->0,
            ),
    decreases recs.len(),
{
    if recs.len() > 0 {
        let init = recs.drop_last();
        lemma_text_symbols(init);
        let n = recs.len() - 1;
        assert(recs[n] == recs.last());
        assert forall|i: int| 0 <= i < init.len() implies init[i] == recs[i] by {}
        if exists|i: int| 0 <= i < init.len() && #[trigger] named_text(init[i]) {
            let i = choose|i: int| 0 <= i < init.len() && #[trigger] named_text(init[i]);
            assert(named_text(recs[i]));
        }
        if exists|i: int| 0 <= i < recs.len() && #[trigger] named_text(recs[i]) {
            let i = choose|i: int| 0 <= i < recs.len() && #[trigger] named_text(recs[i]);
            if i < n {
                assert(named_text(init[i]));
            }
        }
        let t = text_symbols(recs);
        let ti = text_symbols(init);
        let r = recs.last();
        if named_text(r) {
            assert(t == ti.push((r.0, r.2->0)));
            assert(named_text(recs[n]));
        } else {
            assert(t == ti);
        }
        assert forall|j: int| #![trigger t[j]] 0 <= j < t.len() implies exists|i: int|
            0 <= i < recs.len() && #[trigger] named_text(recs[i]) && t[j] == (recs[i].0, recs[i].2->0) by {
            if j < ti.len() {
                assert(t[j] == ti[j]);
                let i = choose|i: int|
                    0 <= i < init.len() && #[trigger] named_text(init[i]) && ti[j] == (init[i].0, init[i].2->0);
                assert(named_text(recs[i]));
            } else {
                assert(named_text(recs[n]));
            }
        }
    }
}

/// How a binary's symbols are chosen: its named code symbols when its symbol
/// table has any, else (a binary stripped of `.symtab`) those of its dynamic
/// symbol table; the choice is empty only when neither table has one, and
/// every chosen symbol is a named text symbol of one of the tables.
pub proof fn law_stripped_binaries_use_dynamic_symbols(
    tables: (Seq<(u64, SymbolCategory, Option<Seq<char>>)>, Seq<(u64, SymbolCategory, Option<Seq<char>>)>),
)
    ensures
        (exists|i: int| 0 <= i < tables.0.len() && #[trigger] named_text(tables.0[i])) ==> chosen_symbols(
            tables,
        ) == text_symbols(tables.0),
        !(exists|i: int| 0 <= i < tables.0.len() && #[trigger] named_text(tables.0[i])) ==> chosen_symbols(
            tables,
        ) == text_symbols(tables.1),
        (chosen_symbols(tables).len() > 0) == ((exists|i: int|
            0 <= i < tables.0.len() && #[trigger] named_text(tables.0[i])) || (exists|i: int|
            0 <= i < tables.1.len() && #[trigger] named_text(tables.1[i]))),
        forall|j: int| #![trigger chosen_symbols(tables)[j]] 0 <= j < chosen_symbols(tables).len() ==> (exists|i: int|
            0 <= i < tables.0.len() && #[trigger] named_text(tables.0[i]) && chosen_symbols(tables)[j] == (
                tables.0[i].0,
                tables.0[i].2->0,
            )) || (exists|i: int|
            0 <= i < tables.1.len() && #[trigger] named_text(tables.1[i]) && chosen_symbols(tables)[j] == (
                tables.1[i].0,
                tables.1[i].2->0,
            )),
{
    lemma_text_symbols(tables.0);
    lemma_text_symbols(tables.1);
}

/// The named code symbols among `recs`.
pub fn collect_text_symbols(recs: &Vec<SymbolRecord>) -> (r: Vec<(u64, String)>)
    ensures
        crate::symtab::entry_views(r@) == text_symbols(record_models(recs@)),
{
    let ghost rm = record_models(recs@);
    let mut r: Vec<(u64, String)> = Vec::new();
    let mut i: usize = 0;
    while i < recs.len()
        invariant
            rm == record_models(recs@),
            i <= recs@.len(),
            crate::symtab::entry_views(r@) == text_symbols(rm.take(i as int)),
        decreases recs@.len() - i,
    {
        assert(rm.take(i + 1).drop_last() =~= rm.take(i as int));
        assert(rm.take(i + 1).last() == recs@[i as int]@);
        let rec = &recs[i];
        let ghost before = r@;
        match &rec.name {
            Some(n) => {
                if rec.category == SymbolCategory::Text && !n.as_str().is_empty() {
                    r.push((rec.address, n.clone()));
                    assert(crate::symtab::entry_views(r@) =~= crate::symtab::entry_views(before).push(
                        (rec.address, n@),
                    ));
                }
            },
            None => {},
        }
        i = i + 1;
    }
    assert(rm.take(recs@.len() as int) =~= rm);
    r
}

/// Why an object file could not be read.
#[derive(Debug)]
pub struct ObjectReadError {
    pub message: String,
}

/// A symbol table for one binary, sorted by file-relative address, one
/// symbol per address.
pub struct BinarySymbolTable {
    entries: Vec<(u64, String)>,
    listed: Ghost<Seq<(u64, Seq<char>)>>,
    order: Ghost<Seq<int>>,
    pos: Ghost<Seq<int>>,
}

impl BinarySymbolTable {
    #[verifier::type_invariant]
    spec fn well_formed(self) -> bool {
        first_arrangement(self.entries@, self.listed@, self.order@, self.pos@)
    }

    /// The symbols the table was built from, in listing order.
    pub closed spec fn symbols(self) -> Seq<(u64, Seq<char>)> {
        self.listed@
    }

    /// Builds a table from `(address, name)` symbols: sorted by address, and
    /// of several symbols at one address only the first listed is kept.
    pub fn from_symbols(symbols: Vec<(u64, String)>) -> (t: BinarySymbolTable)
        ensures
            t.symbols() == crate::symtab::entry_views(symbols@),
    {
        let ghost src = crate::symtab::entry_views(symbols@);
        let mut entries: Vec<(u64, String)> = Vec::new();
        let ghost mut listed: Seq<(u64, Seq<char>)> = seq![];
        let ghost mut order: Seq<int> = seq![];
        let ghost mut pos: Seq<int> = seq![];
        let mut i: usize = 0;
        while i < symbols.len()
            invariant
                src == crate::symtab::entry_views(symbols@),
                i <= symbols@.len(),
                listed == src.take(i as int),
                first_arrangement(entries@, listed, order, pos),
            decreases symbols@.len() - i,
        {
            let a = symbols[i].0;
            let name = symbols[i].1.clone();
            assert(crate::symtab::addresses_sorted(entries@)) by {
                assert forall|x: int, y: int| 0 <= x <= y < entries@.len() implies #[trigger] entries@[x].0
                    <= #[trigger] entries@[y].0 by {
                    if x < y {
                        assert(entries@[x].0 < entries@[y].0);
                    }
                }
            }
            let p = upper_bound(&entries, a);
            proof {
                lemma_first_insert(entries@, listed, order, pos, p as int, (a, name));
            }
            if p > 0 && entries[p - 1].0 == a {
                proof {
                    pos = pos.push(p - 1);
                    listed = listed.push((a, name@));
                }
            } else {
                proof {
                    order = order.insert(p as int, listed.len() as int);
                    pos = shifted_positions(pos, p as int);
                    listed = listed.push((a, name@));
                }
                entries.insert(p, (a, name));
            }
            assert(listed =~= src.take(i + 1));
            i = i + 1;
        }
        assert(listed =~= src);
        BinarySymbolTable { entries, listed: Ghost(listed), order: Ghost(order), pos: Ghost(pos) }
    }

    /// Reads the table of an object file: its named code symbols, or those
    /// of its dynamic symbol table when it has none.
    pub fn from_object_bytes(data: &[u8]) -> (r: Result<BinarySymbolTable, ObjectReadError>)
        ensures
            match object_symbol_tables(data@) {
                None => r is Err,
                Some(tables) => r matches Ok(t) && t.symbols() == chosen_symbols(tables),
            },
    {
        match read_symbol_tables(data) {
            Err(e) => Err(ObjectReadError { message: e.to_string() }),
            Ok((s, d)) => {
                let mut t = collect_text_symbols(&s);
                if t.len() == 0 {
                    t = collect_text_symbols(&d);
                }
                Ok(BinarySymbolTable::from_symbols(t))
            },
        }
    }

    /// Resolves a file-relative address to `(symbol_name, offset)`: the
    /// symbol at the largest address not above it, the first listed among
    /// symbols at one address.
    pub fn resolve(&self, file_vaddr: u64) -> (r: Option<(&str, u64)>)
        ensures
            match r {
                None => lookup_first(self.symbols(), file_vaddr) is None,
                Some((name, off)) => lookup_first(self.symbols(), file_vaddr) == Some((name@, off)),
            },
    {
        proof {
            use_type_invariant(self);
        }
        assert(crate::symtab::addresses_sorted(self.entries@)) by {
            assert forall|x: int, y: int| 0 <= x <= y < self.entries@.len() implies #[trigger] self.entries@[x].0
                <= #[trigger] self.entries@[y].0 by {
                if x < y {
                    assert(self.entries@[x].0 < self.entries@[y].0);
                }
            }
        }
        let r = upper_bound(&self.entries, file_vaddr);
        proof {
            lemma_lookup_first(self.entries@, self.listed@, self.order@, self.pos@, file_vaddr, r as int);
        }
        if r == 0 {
            None
        } else {
            let e = &self.entries[r - 1];
            Some((e.1.as_str(), file_vaddr - e.0))
        }
    }
}


/// A request for the symbol table of a binary that is not cached yet: its
/// device and inode numbers and the path it is mapped from.
#[derive(Debug)]
pub struct TableRequest {
    pub dev: u64,
    pub inode: u64,
    pub path: String,
}

/// What resolving a user-space address leads to.
pub enum UserLookup {
    /// The symbol and offset found, or none.
    Resolved(Option<(Seq<char>, u64)>),
    /// The symbol table of the binary `(dev, inode)` at the path is needed.
    NeedsTable(u64, u64, Seq<char>),
}

/// The meaning of a result of `UserSymbolCache::resolve`.
pub open spec fn lookup_model(r: Result<Option<(String, u64)>, TableRequest>) -> UserLookup {
    match r {
        Ok(Some((n, off))) => UserLookup::Resolved(Some((n@, off))),
        Ok(None) => UserLookup::Resolved(None),
        Err(req) => UserLookup::NeedsTable(req.dev, req.inode, req.path@),
    }
}

/// The address within its file that `ip` maps to through `e`.
pub open spec fn file_address(e: MapEntryModel, ip: u64) -> int {
    ip - e.start + e.file_offset
}

/// The keys of a list of cached tables.
pub open spec fn table_keys_of(t: Seq<(u64, u64, BinarySymbolTable)>) -> Seq<(u64, u64)> {
    t.map_values(|x: (u64, u64, BinarySymbolTable)| (x.0, x.1))
}

/// The pids of a list of cached memory maps.
pub open spec fn pids_of(m: Seq<(u32, ProcMaps)>) -> Seq<u32> {
    m.map_values(|x: (u32, ProcMaps)| x.0)
}

/// Resolves user-space instruction pointers to `(function_name, offset)`,
/// caching symbol tables by `(dev, inode)` and memory maps by pid.
pub struct UserSymbolCache {
    tables: Vec<(u64, u64, BinarySymbolTable)>,
    proc_maps: Vec<(u32, ProcMaps)>,
}

impl UserSymbolCache {
    #[verifier::type_invariant]
    spec fn well_formed(self) -> bool {
        &&& table_keys_of(self.tables@).no_duplicates()
        &&& pids_of(self.proc_maps@).no_duplicates()
    }

    /// The binaries whose symbol tables are cached, in caching order.
    pub closed spec fn table_keys(self) -> Seq<(u64, u64)> {
        table_keys_of(self.tables@)
    }

    /// The symbols cached for the binary `(dev, inode)`.
    pub closed spec fn table_for(self, dev: u64, inode: u64) -> Option<Seq<(u64, Seq<char>)>> {
        match key_index(table_keys_of(self.tables@), (dev, inode)) {
            Some(i) => Some(self.tables@[i].2.symbols()),
            None => None,
        }
    }

    /// The memory maps cached for `pid`.
    pub closed spec fn maps_for(self, pid: u32) -> Option<Seq<MapEntryModel>> {
        match key_index(pids_of(self.proc_maps@), pid) {
            Some(i) => Some(self.proc_maps@[i].1@),
            None => None,
        }
    }

    /// The mapping of `pid` that resolves `ip`, if any.
    pub open spec fn mapping_of(self, pid: u32, ip: u64) -> Option<MapEntryModel> {
        match self.maps_for(pid) {
            Some(es) => mapping_for(es, ip),
            None => None,
        }
    }

    /// What resolving `ip` in process `pid` leads to with what is cached.
    pub open spec fn expected_lookup(self, pid: u32, ip: u64) -> UserLookup {
        match self.mapping_of(pid, ip) {
            None => UserLookup::Resolved(None),
            Some(e) => match self.table_for(e.dev, e.inode) {
                None => UserLookup::NeedsTable(e.dev, e.inode, e.path->0),
                Some(t) => UserLookup::Resolved(lookup_first(t, file_address(e, ip) as u64)),
            },
        }
    }

    /// Resolving `ip` in `pid` needs no arithmetic beyond `u64`.
    pub open spec fn in_range(self, pid: u32, ip: u64) -> bool {
        match self.mapping_of(pid, ip) {
            Some(e) => file_address(e, ip) <= u64::MAX,
            None => true,
        }
    }

    /// An empty cache.
    pub fn new() -> (c: UserSymbolCache)
        ensures
            c.table_keys().len() == 0,
            forall|pid: u32| #[trigger] c.maps_for(pid) is None,
            forall|dev: u64, inode: u64| #[trigger] c.table_for(dev, inode) is None,
    {
        let c = UserSymbolCache { tables: Vec::new(), proc_maps: Vec::new() };
        assert(table_keys_of(c.tables@) =~= Seq::<(u64, u64)>::empty());
        assert(pids_of(c.proc_maps@) =~= Seq::<u32>::empty());
        c
    }

    /// The position of `pid` among the cached memory maps.
    fn maps_index(&self, pid: u32) -> (r: Option<usize>)
        ensures
            r matches Some(i) ==> i < self.proc_maps@.len() && pids_of(self.proc_maps@)[i as int]
                == pid && key_index(pids_of(self.proc_maps@), pid) == Some(i as int),
            r is None ==> key_index(pids_of(self.proc_maps@), pid) is None,
            r is None ==> forall|t: int| 0 <= t < self.proc_maps@.len() ==> #[trigger] pids_of(self.proc_maps@)[t] != pid,
    {
        proof {
            use_type_invariant(self);
        }
        let ghost ks = pids_of(self.proc_maps@);
        let mut i: usize = 0;
        while i < self.proc_maps.len()
            invariant
                ks == pids_of(self.proc_maps@),
                ks.no_duplicates(),
                i <= ks.len(),
                forall|k: int| 0 <= k < i ==> #[trigger] ks[k] != pid,
            decreases ks.len() - i,
        {
            if self.proc_maps[i].0 == pid {
                proof {
                    lemma_key_index(ks, pid, i as int);
                }
                return Some(i);
            }
            i = i + 1;
        }
        None
    }

    /// The position of `(dev, inode)` among the cached tables.
    fn table_index(&self, dev: u64, inode: u64) -> (r: Option<usize>)
        ensures
            r matches Some(i) ==> i < self.tables@.len() && table_keys_of(self.tables@)[i as int]
                == (dev, inode) && key_index(table_keys_of(self.tables@), (dev, inode)) == Some(i as int),
            r is None ==> key_index(table_keys_of(self.tables@), (dev, inode)) is None,
            r is None ==> forall|t: int| 0 <= t < self.tables@.len() ==> #[trigger] table_keys_of(self.tables@)[t] != (dev, inode),
    {
        proof {
            use_type_invariant(self);
        }
        let ghost ks = table_keys_of(self.tables@);
        let mut i: usize = 0;
        while i < self.tables.len()
            invariant
                ks == table_keys_of(self.tables@),
                ks.no_duplicates(),
                i <= ks.len(),
                forall|k: int| 0 <= k < i ==> #[trigger] ks[k] != (dev, inode),
            decreases ks.len() - i,
        {
            if self.tables[i].0 == dev && self.tables[i].1 == inode {
                proof {
                    lemma_key_index(ks, (dev, inode), i as int);
                }
                return Some(i);
            }
            i = i + 1;
        }
        None
    }

    /// Caches the memory maps of `pid`, replacing any cached before.
    pub fn set_proc_maps(&mut self, pid: u32, maps: ProcMaps)
        ensures
            final(self).maps_for(pid) == Some(maps@),
            forall|other: u32|
                other != pid ==> #[trigger] final(self).maps_for(other) == old(self).maps_for(other),
            final(self).table_keys() == old(self).table_keys(),
            forall|dev: u64, inode: u64| #[trigger] final(self).table_for(dev, inode) == old(self).table_for(dev, inode),
    {
        proof {
            use_type_invariant(&*self);
        }
        let idx = self.maps_index(pid);
        let ghost old_maps = self.proc_maps@;
        let ghost ks = pids_of(old_maps);
        let mut all: Vec<(u32, ProcMaps)> = Vec::new();
        std::mem::swap(&mut all, &mut self.proc_maps);
        match idx {
            Some(i) => {
                assert(all@ == old_maps);
                assert(ks[i as int] == pid);
                all.set(i, (pid, maps));
                assert(pids_of(all@) =~= ks);
            },
            None => {
                assert(all@ == old_maps);
                assert(forall|t: int| 0 <= t < ks.len() ==> #[trigger] ks[t] != pid);
                all.push((pid, maps));
                assert(pids_of(all@) =~= ks.push(pid));
                assert(pids_of(all@).no_duplicates()) by {
                    assert forall|a: int, b: int|
                        0 <= a < pids_of(all@).len() && 0 <= b < pids_of(all@).len() && a != b
                        implies pids_of(all@)[a] != pids_of(all@)[b] by {
                        if a < ks.len() && b < ks.len() {
                            assert(ks[a] != ks[b]);
                        } else if a < ks.len() {
                            assert(ks[a] != pid);
                        } else if b < ks.len() {
                            assert(ks[b] != pid);
                        }
                    }
                }
            },
        }
        let ghost nks = pids_of(all@);
        let ghost nm = all@;
        self.proc_maps = all;
        proof {
            let n = nm.len() - 1;
            let j = if idx is Some { idx->0 as int } else { n };
            assert(nks[j] == pid);
            lemma_key_index(nks, pid, j);
            assert forall|other: u32| other != pid implies #[trigger] self.maps_for(other) == old(
                self,
            ).maps_for(other) by {
                if exists|t: int| 0 <= t < ks.len() && #[trigger] ks[t] == other {
                    let t = choose|t: int| 0 <= t < ks.len() && #[trigger] ks[t] == other;
                    lemma_key_index(ks, other, t);
                    assert(nks[t] == other);
                    lemma_key_index(nks, other, t);
                    assert(nm[t] == old_maps[t]);
                } else {
                    assert forall|t: int| 0 <= t < nks.len() implies #[trigger] nks[t] != other by {
                        if t < ks.len() {
                            assert(nks[t] == ks[t]);
                        }
                    }
                }
            }
        }
    }

    /// Re-reads the memory maps of `pid` from the text of
    /// `/proc/<pid>/maps`. Call once per drain cycle before resolving
    /// addresses of `pid`, since mmap/exec can change mappings between
    /// cycles.
    pub fn refresh_proc_maps(&mut self, pid: u32, maps_text: &str)
        ensures
            final(self).maps_for(pid) == Some(maps_entries(lines(maps_text@))),
            forall|other: u32|
                other != pid ==> #[trigger] final(self).maps_for(other) == old(self).maps_for(other),
            final(self).table_keys() == old(self).table_keys(),
            forall|dev: u64, inode: u64| #[trigger] final(self).table_for(dev, inode) == old(self).table_for(dev, inode),
    {
        let maps = ProcMaps::parse(maps_text);
        self.set_proc_maps(pid, maps);
    }

    /// Caches the symbol table of the binary `(dev, inode)`.
    pub fn insert_table(&mut self, dev: u64, inode: u64, table: BinarySymbolTable)
        ensures
            final(self).table_for(dev, inode) == Some(table.symbols()),
            forall|d: u64, i: u64|
                (d, i) != (dev, inode) ==> #[trigger] final(self).table_for(d, i) == old(self).table_for(d, i),
            final(self).table_keys() == if old(self).table_keys().contains((dev, inode)) {
                old(self).table_keys()
            } else {
                old(self).table_keys().push((dev, inode))
            },
            forall|pid: u32| #[trigger] final(self).maps_for(pid) == old(self).maps_for(pid),
    {
        proof {
            use_type_invariant(&*self);
        }
        let idx = self.table_index(dev, inode);
        let ghost old_tables = self.tables@;
        let ghost ks = table_keys_of(old_tables);
        let key = (dev, inode);
        let mut all: Vec<(u64, u64, BinarySymbolTable)> = Vec::new();
        std::mem::swap(&mut all, &mut self.tables);
        match idx {
            Some(i) => {
                assert(all@ == old_tables);
                all.set(i, (dev, inode, table));
                assert(table_keys_of(all@) =~= ks);
                assert(ks.contains(key));
            },
            None => {
                assert(all@ == old_tables);
                all.push((dev, inode, table));
                assert(table_keys_of(all@) =~= ks.push(key));
                assert(!ks.contains(key));
                assert(table_keys_of(all@).no_duplicates()) by {
                    let nk = table_keys_of(all@);
                    assert forall|a: int, b: int|
                        0 <= a < nk.len() && 0 <= b < nk.len() && a != b
                        implies nk[a] != nk[b] by {
                        if a < ks.len() && b < ks.len() {
                            assert(ks[a] != ks[b]);
                        } else if a < ks.len() {
                            assert(ks[a] != key);
                        } else if b < ks.len() {
                            assert(ks[b] != key);
                        }
                    }
                }
            },
        }
        let ghost nks = table_keys_of(all@);
        let ghost nt = all@;
        self.tables = all;
        proof {
            let n = nt.len() - 1;
            let j = if idx is Some { idx->0 as int } else { n };
            assert(nks[j] == key);
            lemma_key_index(nks, key, j);
            assert forall|d: u64, i: u64| (d, i) != (dev, inode) implies #[trigger] self.table_for(d, i)
                == old(self).table_for(d, i) by {
                let other = (d, i);
                if exists|t: int| 0 <= t < ks.len() && #[trigger] ks[t] == other {
                    let t = choose|t: int| 0 <= t < ks.len() && #[trigger] ks[t] == other;
                    lemma_key_index(ks, other, t);
                    assert(nks[t] == other);
                    lemma_key_index(nks, other, t);
                    assert(nt[t] == old_tables[t]);
                } else {
                    assert forall|t: int| 0 <= t < nks.len() implies #[trigger] nks[t] != other by {
                        if t < ks.len() {
                            assert(nks[t] == ks[t]);
                        }
                    }
                }
            }
        }
    }

    /// The number of binaries whose symbol tables are cached.
    pub fn cached_binary_count(&self) -> (n: usize)
        ensures
            n == self.table_keys().len(),
    {
        self.tables.len()
    }

    /// Whether resolving `ip` of process `pid` keeps its file address within
    /// `u64`, which `resolve` needs.
    pub fn can_resolve(&self, pid: u32, ip: u64) -> (b: bool)
        ensures
            b == self.in_range(pid, ip),
    {
        let i = match self.maps_index(pid) {
            None => return true,
            Some(i) => i,
        };
        match self.proc_maps[i].1.find(ip) {
            None => true,
            Some(e) => {
                proof {
                    let es = self.proc_maps@[i as int].1@;
                    let k = choose|k: int| first_resolving(es, ip, k);
                    assert(resolves(es[k], ip));
                }
                e.file_offset <= u64::MAX - (ip - e.start)
            },
        }
    }

    /// Resolves `ip` of process `pid` with what is cached: the symbol and
    /// offset found (none when no file-backed mapping of `pid` contains `ip`
    /// or its binary has no symbol at or below the address), or, when the
    /// binary's table is not cached yet, a request for it.
    pub fn resolve(&self, pid: u32, ip: u64) -> (r: Result<Option<(String, u64)>, TableRequest>)
        requires
            self.in_range(pid, ip),
        ensures
            lookup_model(r) == self.expected_lookup(pid, ip),
    {
        let mi = self.maps_index(pid);
        let i = match mi {
            None => return Ok(None),
            Some(i) => i,
        };
        let maps = &self.proc_maps[i].1;
        let e = match maps.find(ip) {
            None => return Ok(None),
            Some(e) => e,
        };
        proof {
            let es = maps@;
            let k = choose|k: int| first_resolving(es, ip, k);
            assert(resolves(es[k], ip));
        }
        let ti = self.table_index(e.dev, e.inode);
        match ti {
            None => {
                let path = match &e.path {
                    Some(p) => p.clone(),
                    None => {
                        return Ok(None);
                    },
                };
                Err(TableRequest { dev: e.dev, inode: e.inode, path })
            },
            Some(t) => {
                let vaddr = ip - e.start + e.file_offset;
                match self.tables[t].2.resolve(vaddr) {
                    Some((n, off)) => Ok(Some((n.to_owned(), off))),
                    None => Ok(None),
                }
            },
        }
    }
}

impl Default for UserSymbolCache {
    fn default() -> (c: UserSymbolCache)
        ensures
            c.table_keys().len() == 0,
            forall|pid: u32| #[trigger] c.maps_for(pid) is None,
            forall|dev: u64, inode: u64| #[trigger] c.table_for(dev, inode) is None,
    {
        UserSymbolCache::new()
    }
}


/// A binary has a cached table exactly when it is among the cached binaries
/// that `cached_binary_count` counts.
pub proof fn lemma_cached_table_listed(c: UserSymbolCache, dev: u64, inode: u64)
    ensures
        (c.table_for(dev, inode) is Some) == c.table_keys().contains((dev, inode)),
{
    let ks = c.table_keys();
    if ks.contains((dev, inode)) {
        let j = choose|j: int| 0 <= j < ks.len() && ks[j] == (dev, inode);
        assert(0 <= j < ks.len() && ks[j] == (dev, inode));
    }
}

/// Once the table a lookup requested is cached, and the memory maps of the
/// process are unchanged, the same lookup no longer requests a table: each
/// binary's table is read once.
pub proof fn law_cached_table_resolves(
    before: UserSymbolCache,
    after: UserSymbolCache,
    pid: u32,
    ip: u64,
    dev: u64,
    inode: u64,
    path: Seq<char>,
)
    requires
        before.expected_lookup(pid, ip) == UserLookup::NeedsTable(dev, inode, path),
        after.maps_for(pid) == before.maps_for(pid),
        after.table_for(dev, inode) is Some,
    ensures
        after.expected_lookup(pid, ip) is Resolved,
{
}

/// A binary's cached table serves every process that maps it: once the table
/// of the binary behind a mapping is cached, a lookup landing in that
/// mapping, in whichever process and under whichever path, asks for no table
/// and resolves the file address against that cached table.
pub proof fn law_table_serves_every_process(
    c: UserSymbolCache,
    pid: u32,
    ip: u64,
    e: MapEntryModel,
    symbols: Seq<(u64, Seq<char>)>,
)
    requires
        c.mapping_of(pid, ip) == Some(e),
        c.table_for(e.dev, e.inode) == Some(symbols),
    ensures
        c.expected_lookup(pid, ip) == UserLookup::Resolved(
            lookup_first(symbols, file_address(e, ip) as u64),
        ),
{
}

} // verus!
