//! Kernel symbol resolution from the text of `/proc/kallsyms`.

use vstd::prelude::*;

use crate::num::{parse_u64, parse_unsigned};
use crate::symtab::{
    addresses_sorted, lemma_lookup_stable, lemma_stable_insert, lookup_last, shifted_positions,
    stable_arrangement, upper_bound,
};
use crate::text::{chars_of, lines, split_lines, split_words, string_of, views, words};

verus! {

/// The symbol a `/proc/kallsyms` line lists: its first word as a hexadecimal
/// address and its third word as the name; none when the line has fewer than
/// three words or the first is not a hexadecimal `u64`.
pub open spec fn line_symbol(line: Seq<char>) -> Option<(u64, Seq<char>)> {
    let w = words(line);
    if w.len() >= 3 {
        match parse_unsigned(w[0], 16) {
            Ok(a) => Some((a, w[2])),
            Err(_) => None,
        }
    } else {
        None
    }
}

/// The symbols with a non-zero address listed by `ls`, in listing order.
pub open spec fn located_symbols(ls: Seq<Seq<char>>) -> Seq<(u64, Seq<char>)>
    decreases ls.len(),
{
    if ls.len() == 0 {
        seq![]
    } else {
        let rest = located_symbols(ls.drop_last());
        match line_symbol(ls.last()) {
            Some(e) => if e.0 != 0 {
                rest.push(e)
            } else {
                rest
            },
            None => rest,
        }
    }
}

/// `line` lists a symbol with a non-zero address.
pub open spec fn locates(line: Seq<char>) -> bool {
    line_symbol(line) matches Some(e) && e.0 != 0
}

/// Some line of `ls` lists a symbol with a non-zero address.
pub open spec fn lists_located_symbol(ls: Seq<Seq<char>>) -> bool {
    exists|i: int| 0 <= i < ls.len() && #[trigger] locates(ls[i])
}

/// Exactly when a located symbol is listed, the located list is not empty.
pub proof fn lemma_located_nonempty(ls: Seq<Seq<char>>)
    ensures
        located_symbols(ls).len() > 0 <==> lists_located_symbol(ls),
    decreases ls.len(),
{
    if ls.len() > 0 {
        let init = ls.drop_last();
        lemma_located_nonempty(init);
        if lists_located_symbol(init) {
            let i = choose|i: int|
                0 <= i < init.len() && #[trigger] locates(init[i]);
            assert(ls[i] == init[i]);
        }
        if lists_located_symbol(ls) {
            let i = choose|i: int|
                0 <= i < ls.len() && #[trigger] locates(ls[i]);
            if i < ls.len() - 1 {
                assert(ls[i] == init[i]);
            }
        }
        assert(ls[ls.len() - 1] == ls.last());
        if locates(ls.last()) {
            assert(locates(ls[ls.len() - 1]));
        }
    }
}

/// Every located symbol has a non-zero address.
pub proof fn lemma_located_nonzero(ls: Seq<Seq<char>>)
    ensures
        forall|i: int| 0 <= i < located_symbols(ls).len() ==> (#[trigger] located_symbols(ls)[i]).0 != 0,
    decreases ls.len(),
{
    if ls.len() > 0 {
        lemma_located_nonzero(ls.drop_last());
        let rest = located_symbols(ls.drop_last());
        assert forall|i: int| 0 <= i < located_symbols(ls).len() implies (#[trigger] located_symbols(ls)[i]).0 != 0 by {
            if i < rest.len() {
                assert(located_symbols(ls)[i] == rest[i]);
            }
        }
    }
}

/// Unlocated symbols (listed at address zero) are never what an address
/// resolves to: the symbol a lookup picks always has a non-zero address.
pub proof fn law_unlocated_symbols_never_resolve(ls: Seq<Seq<char>>, ip: u64, j: int)
    requires
        crate::symtab::is_last_at_or_below(located_symbols(ls), ip, j),
    ensures
        located_symbols(ls)[j].0 != 0,
{
    lemma_located_nonzero(ls);
}

/// A snapshot of `/proc/kallsyms`, sorted by address and resolvable by
/// binary search.
pub struct Kallsyms {
    /// Located symbols, sorted by address, listing order kept among equal
    /// addresses.
    entries: Vec<(u64, String)>,
    /// False if every address read as zero (e.g. `kptr_restrict` hides
    /// addresses from unprivileged reads): kernel frames then cannot be
    /// resolved at all.
    available: bool,
    listed: Ghost<Seq<(u64, Seq<char>)>>,
    order: Ghost<Seq<int>>,
    pos: Ghost<Seq<int>>,
}

impl Kallsyms {
    #[verifier::type_invariant]
    spec fn well_formed(self) -> bool {
        &&& stable_arrangement(self.entries@, self.listed@, self.order@, self.pos@)
        &&& self.available == (self.listed@.len() > 0)
    }

    /// The located symbols, in listing order.
    pub closed spec fn symbols(self) -> Seq<(u64, Seq<char>)> {
        self.listed@
    }

    /// Whether any listed symbol has a non-zero address.
    pub closed spec fn available(self) -> bool {
        self.available
    }

    /// Reads the text of `/proc/kallsyms`: one symbol per line whose first
    /// word is a hexadecimal address and whose third word is the name; other
    /// lines are skipped. Symbols at address zero (unlocated) are dropped.
    pub fn parse(text: &str) -> (k: Kallsyms)
        ensures
            k.symbols() == located_symbols(lines(text@)),
            k.available() == lists_located_symbol(lines(text@)),
            k.available() == (k.symbols().len() > 0),
    {
        let chars = chars_of(text);
        let ls = split_lines(chars.as_slice());
        let ghost lv = views(ls@);
        let mut entries: Vec<(u64, String)> = Vec::new();
        let mut available = false;
        let ghost mut listed: Seq<(u64, Seq<char>)> = seq![];
        let ghost mut order: Seq<int> = seq![];
        let ghost mut pos: Seq<int> = seq![];
        let mut idx: usize = 0;
        while idx < ls.len()
            invariant
                lv == views(ls@),
                lv == lines(text@),
                idx <= ls@.len(),
                listed == located_symbols(lv.take(idx as int)),
                stable_arrangement(entries@, listed, order, pos),
                available == (listed.len() > 0),
            decreases ls@.len() - idx,
        {
            assert(lv.take(idx + 1).drop_last() =~= lv.take(idx as int));
            assert(lv.take(idx + 1).last() == ls@[idx as int]@);
            let w = split_words(ls[idx].as_slice());
            if w.len() >= 3 {
                match parse_u64(w[0].as_slice(), 16) {
                    Ok(a) => {
                        if a != 0 {
                            let name = string_of(w[2].as_slice());
                            let p = upper_bound(&entries, a);
                            proof {
                                lemma_stable_insert(entries@, listed, order, pos, p as int, (a, name));
                                order = order.insert(p as int, listed.len() as int);
                                pos = shifted_positions(pos, p as int);
                                listed = listed.push((a, name@));
                            }
                            entries.insert(p, (a, name));
                            available = true;
                        }
                    },
                    Err(_) => {},
                }
            }
            idx = idx + 1;
        }
        assert(lv.take(ls@.len() as int) =~= lv);
        proof {
            lemma_located_nonempty(lv);
        }
        Kallsyms { entries, available, listed: Ghost(listed), order: Ghost(order), pos: Ghost(pos) }
    }

    /// Whether kernel addresses could be read at all.
    pub fn is_available(&self) -> (b: bool)
        ensures
            b == self.available(),
    {
        self.available
    }

    /// Resolves `ip` to `(symbol_name, offset)`, attributing addresses
    /// between two consecutive symbols to the lower one; among symbols at the
    /// same address, the one listed last wins.
    pub fn resolve(&self, ip: u64) -> (r: Option<(&str, u64)>)
        ensures
            !self.available() ==> r is None,
            match r {
                None => lookup_last(self.symbols(), ip) is None,
                Some((name, off)) => lookup_last(self.symbols(), ip) == Some((name@, off)),
            },
    {
        proof {
            use_type_invariant(self);
        }
        if !self.available {
            proof {
                lemma_lookup_stable(self.entries@, self.listed@, self.order@, self.pos@, ip, 0);
            }
            return None;
        }
        assert(addresses_sorted(self.entries@)) by {
            assert forall|i: int, j: int| 0 <= i <= j < self.entries@.len() implies #[trigger] self.entries@[i].0
                <= #[trigger] self.entries@[j].0 by {
                if i < j {
                    assert(self.entries@[i].0 < self.entries@[j].0 || self.entries@[i].0 == self.entries@[j].0);
                }
            }
        }
        let r = upper_bound(&self.entries, ip);
        proof {
            lemma_lookup_stable(self.entries@, self.listed@, self.order@, self.pos@, ip, r as int);
        }
        if r == 0 {
            None
        } else {
            let e = &self.entries[r - 1];
            Some((e.1.as_str(), ip - e.0))
        }
    }
}

} // verus!
