//! Address-sorted symbol lists and the "nearest symbol at or below an
//! address" lookup shared by the kernel and user-space resolvers.

use vstd::prelude::*;

verus! {

/// The address and name views of a list of `(address, name)` entries.
pub open spec fn entry_views(e: Seq<(u64, String)>) -> Seq<(u64, Seq<char>)> {
    e.map_values(|x: (u64, String)| (x.0, x.1@))
}

/// `j` is the entry that a lookup of `ip` attributes the address to when
/// duplicates resolve to the one listed last: its address is the largest one
/// not above `ip`, and no later entry has that address.
pub open spec fn is_last_at_or_below(src: Seq<(u64, Seq<char>)>, ip: u64, j: int) -> bool {
    &&& 0 <= j < src.len()
    &&& src[j].0 <= ip
    &&& forall|k: int|
        0 <= k < src.len() && #[trigger] src[k].0 <= ip ==> src[k].0 < src[j].0 || (src[k].0
            == src[j].0 && k <= j)
}

/// `j` is the entry that a lookup of `ip` attributes the address to when
/// duplicates resolve to the one listed first.
pub open spec fn is_first_at_or_below(src: Seq<(u64, Seq<char>)>, ip: u64, j: int) -> bool {
    &&& 0 <= j < src.len()
    &&& src[j].0 <= ip
    &&& forall|k: int|
        0 <= k < src.len() && #[trigger] src[k].0 <= ip ==> src[k].0 < src[j].0 || (src[k].0
            == src[j].0 && k >= j)
}

/// The symbol name that `ip` falls in and the offset of `ip` from its start,
/// among the entries of `src`, the last listed winning among equal addresses.
pub open spec fn lookup_last(src: Seq<(u64, Seq<char>)>, ip: u64) -> Option<(Seq<char>, u64)> {
    if exists|j: int| is_last_at_or_below(src, ip, j) {
        let j = choose|j: int| is_last_at_or_below(src, ip, j);
        Some((src[j].1, (ip - src[j].0) as u64))
    } else {
        None
    }
}

/// As `lookup_last`, the first listed winning among equal addresses.
pub open spec fn lookup_first(src: Seq<(u64, Seq<char>)>, ip: u64) -> Option<(Seq<char>, u64)> {
    if exists|j: int| is_first_at_or_below(src, ip, j) {
        let j = choose|j: int| is_first_at_or_below(src, ip, j);
        Some((src[j].1, (ip - src[j].0) as u64))
    } else {
        None
    }
}

/// Addresses never decrease along `e`.
pub open spec fn addresses_sorted(e: Seq<(u64, String)>) -> bool {
    forall|i: int, j: int| 0 <= i <= j < e.len() ==> #[trigger] e[i].0 <= #[trigger] e[j].0
}

/// `entries` holds every entry of `src` exactly once, sorted by address and,
/// among equal addresses, in the order of `src`; `order` maps a position of
/// `entries` to its index in `src` and `pos` is its inverse.
pub open spec fn stable_arrangement(
    entries: Seq<(u64, String)>,
    src: Seq<(u64, Seq<char>)>,
    order: Seq<int>,
    pos: Seq<int>,
) -> bool {
    &&& entries.len() == src.len()
    &&& order.len() == entries.len()
    &&& pos.len() == src.len()
    &&& forall|i: int|
        0 <= i < entries.len() ==> {
            &&& 0 <= #[trigger] order[i] < src.len()
            &&& entries[i].0 == src[order[i]].0
            &&& entries[i].1@ == src[order[i]].1
            &&& pos[order[i]] == i
        }
    &&& forall|k: int| 0 <= k < src.len() ==> 0 <= #[trigger] pos[k] < entries.len() && order[pos[k]] == k
    &&& forall|i: int, j: int|
        0 <= i < j < entries.len() ==> #[trigger] entries[i].0 < #[trigger] entries[j].0 || (
        entries[i].0 == entries[j].0 && order[i] < order[j])
}

/// `entries` holds one entry for each distinct address of `src`, the first
/// listed with that address, strictly sorted by address; `order` maps a
/// position of `entries` to its index in `src` and `pos` maps an index of
/// `src` to the position holding its address.
pub open spec fn first_arrangement(
    entries: Seq<(u64, String)>,
    src: Seq<(u64, Seq<char>)>,
    order: Seq<int>,
    pos: Seq<int>,
) -> bool {
    &&& order.len() == entries.len()
    &&& pos.len() == src.len()
    &&& forall|i: int|
        0 <= i < entries.len() ==> {
            &&& 0 <= #[trigger] order[i] < src.len()
            &&& entries[i].0 == src[order[i]].0
            &&& entries[i].1@ == src[order[i]].1
        }
    &&& forall|k: int|
        0 <= k < src.len() ==> {
            &&& 0 <= #[trigger] pos[k] < entries.len()
            &&& entries[pos[k]].0 == src[k].0
            &&& order[pos[k]] <= k
        }
    &&& forall|i: int, j: int|
        0 <= i < j < entries.len() ==> #[trigger] entries[i].0 < #[trigger] entries[j].0
}

/// The number of leading entries whose address is at most `a`
/// (`partition_point(|(addr, _)| *addr <= a)`).
pub fn upper_bound(entries: &Vec<(u64, String)>, a: u64) -> (r: usize)
    requires
        addresses_sorted(entries@),
    ensures
        r <= entries@.len(),
        forall|i: int| 0 <= i < r ==> #[trigger] entries@[i].0 <= a,
        forall|i: int| r <= i < entries@.len() ==> #[trigger] entries@[i].0 > a,
{
    let mut lo: usize = 0;
    let mut hi: usize = entries.len();
    while lo < hi
        invariant
            lo <= hi <= entries@.len(),
            addresses_sorted(entries@),
            forall|i: int| 0 <= i < lo ==> #[trigger] entries@[i].0 <= a,
            forall|i: int| hi <= i < entries@.len() ==> #[trigger] entries@[i].0 > a,
        decreases hi - lo,
    {
        let mid = lo + (hi - lo) / 2;
        if entries[mid].0 <= a {
            assert forall|i: int| 0 <= i < mid + 1 implies #[trigger] entries@[i].0 <= a by {
                assert(entries@[i].0 <= entries@[mid as int].0);
            }
            lo = mid + 1;
        } else {
            assert forall|i: int| mid <= i < entries@.len() implies #[trigger] entries@[i].0 > a by {
                assert(entries@[mid as int].0 <= entries@[i].0);
            }
            hi = mid;
        }
    }
    lo
}


/// The positions of a stable arrangement after an insertion at `p`.
pub open spec fn shifted_positions(pos: Seq<int>, p: int) -> Seq<int> {
    Seq::new(
        pos.len() + 1,
        |k: int|
            if k < pos.len() {
                if pos[k] >= p {
                    pos[k] + 1
                } else {
                    pos[k]
                }
            } else {
                p
            },
    )
}

/// Inserting an entry listed after all others at its upper bound keeps a
/// stable arrangement.
pub proof fn lemma_stable_insert(
    entries: Seq<(u64, String)>,
    src: Seq<(u64, Seq<char>)>,
    order: Seq<int>,
    pos: Seq<int>,
    p: int,
    e: (u64, String),
)
    requires
        stable_arrangement(entries, src, order, pos),
        0 <= p <= entries.len(),
        forall|i: int| 0 <= i < p ==> #[trigger] entries[i].0 <= e.0,
        forall|i: int| p <= i < entries.len() ==> #[trigger] entries[i].0 > e.0,
    ensures
        stable_arrangement(
            entries.insert(p, e),
            src.push((e.0, e.1@)),
            order.insert(p, src.len() as int),
            shifted_positions(pos, p),
        ),
{
    let n = src.len() as int;
    let e2 = entries.insert(p, e);
    let s2 = src.push((e.0, e.1@));
    let o2 = order.insert(p, n);
    let p2 = shifted_positions(pos, p);
    assert forall|i: int| 0 <= i < e2.len() implies {
        &&& 0 <= #[trigger] o2[i] < s2.len()
        &&& e2[i].0 == s2[o2[i]].0
        &&& e2[i].1@ == s2[o2[i]].1
        &&& p2[o2[i]] == i
    } by {
        if i < p {
            assert(o2[i] == order[i]);
            assert(e2[i] == entries[i]);
        } else if i > p {
            assert(o2[i] == order[i - 1]);
            assert(e2[i] == entries[i - 1]);
        }
    }
    assert forall|k: int| 0 <= k < s2.len() implies 0 <= #[trigger] p2[k] < e2.len() && o2[p2[k]]
        == k by {
        if k < n {
            if pos[k] >= p {
                assert(o2[pos[k] + 1] == order[pos[k]]);
            } else {
                assert(o2[pos[k]] == order[pos[k]]);
            }
        }
    }
    assert forall|i: int, j: int| 0 <= i < j < e2.len() implies #[trigger] e2[i].0
        < #[trigger] e2[j].0 || (e2[i].0 == e2[j].0 && o2[i] < o2[j]) by {
        if i < p && j < p {
            assert(e2[i] == entries[i] && e2[j] == entries[j]);
        } else if i < p && j == p {
            assert(e2[i] == entries[i]);
            assert(0 <= order[i] < n);
        } else if i < p && j > p {
            assert(e2[i] == entries[i] && e2[j] == entries[j - 1]);
            assert(entries[i].0 <= e.0 < entries[j - 1].0);
        } else if i == p {
            assert(e2[j] == entries[j - 1]);
        } else {
            assert(e2[i] == entries[i - 1] && e2[j] == entries[j - 1]);
        }
    }
}

/// Adding an entry listed after all others keeps a first-wins arrangement:
/// when its address is already present (`p > 0` and the entry before `p`
/// has it), nothing is inserted; otherwise it is inserted at its upper bound.
pub proof fn lemma_first_insert(
    entries: Seq<(u64, String)>,
    src: Seq<(u64, Seq<char>)>,
    order: Seq<int>,
    pos: Seq<int>,
    p: int,
    e: (u64, String),
)
    requires
        first_arrangement(entries, src, order, pos),
        0 <= p <= entries.len(),
        forall|i: int| 0 <= i < p ==> #[trigger] entries[i].0 <= e.0,
        forall|i: int| p <= i < entries.len() ==> #[trigger] entries[i].0 > e.0,
    ensures
        p > 0 && entries[p - 1].0 == e.0 ==> first_arrangement(
            entries,
            src.push((e.0, e.1@)),
            order,
            pos.push(p - 1),
        ),
        !(p > 0 && entries[p - 1].0 == e.0) ==> first_arrangement(
            entries.insert(p, e),
            src.push((e.0, e.1@)),
            order.insert(p, src.len() as int),
            shifted_positions(pos, p),
        ),
{
    let n = src.len() as int;
    let s2 = src.push((e.0, e.1@));
    if p > 0 && entries[p - 1].0 == e.0 {
        let p2 = pos.push(p - 1);
        assert forall|i: int| 0 <= i < entries.len() implies {
            &&& 0 <= #[trigger] order[i] < s2.len()
            &&& entries[i].0 == s2[order[i]].0
            &&& entries[i].1@ == s2[order[i]].1
        } by {}
        assert forall|k: int| 0 <= k < s2.len() implies {
            &&& 0 <= #[trigger] p2[k] < entries.len()
            &&& entries[p2[k]].0 == s2[k].0
            &&& order[p2[k]] <= k
        } by {
            if k < n {
                assert(p2[k] == pos[k]);
            } else {
                assert(0 <= order[p - 1] < n);
            }
        }
    } else {
        let e2 = entries.insert(p, e);
        let o2 = order.insert(p, n);
        let p2 = shifted_positions(pos, p);
        assert forall|i: int| 0 <= i < e2.len() implies {
            &&& 0 <= #[trigger] o2[i] < s2.len()
            &&& e2[i].0 == s2[o2[i]].0
            &&& e2[i].1@ == s2[o2[i]].1
        } by {
            if i < p {
                assert(o2[i] == order[i]);
                assert(e2[i] == entries[i]);
            } else if i > p {
                assert(o2[i] == order[i - 1]);
                assert(e2[i] == entries[i - 1]);
            }
        }
        assert forall|k: int| 0 <= k < s2.len() implies {
            &&& 0 <= #[trigger] p2[k] < e2.len()
            &&& e2[p2[k]].0 == s2[k].0
            &&& o2[p2[k]] <= k
        } by {
            if k < n {
                if pos[k] >= p {
                    assert(o2[pos[k] + 1] == order[pos[k]]);
                    assert(e2[pos[k] + 1] == entries[pos[k]]);
                } else {
                    assert(o2[pos[k]] == order[pos[k]]);
                    assert(e2[pos[k]] == entries[pos[k]]);
                }
            }
        }
        assert forall|i: int, j: int| 0 <= i < j < e2.len() implies #[trigger] e2[i].0
            < #[trigger] e2[j].0 by {
            if i < p && j < p {
                assert(e2[i] == entries[i] && e2[j] == entries[j]);
            } else if i < p && j == p {
                assert(e2[i] == entries[i]);
                if i < p - 1 {
                    assert(entries[i].0 < entries[p - 1].0);
                }
            } else if i < p && j > p {
                assert(e2[i] == entries[i] && e2[j] == entries[j - 1]);
                assert(entries[i].0 <= e.0 < entries[j - 1].0);
            } else if i == p {
                assert(e2[j] == entries[j - 1]);
            } else {
                assert(e2[i] == entries[i - 1] && e2[j] == entries[j - 1]);
            }
        }
    }
}


/// In a stable arrangement, the entry just before the upper bound of `ip` is
/// the one `lookup_last` picks, and there is none when the bound is zero.
pub proof fn lemma_lookup_stable(
    entries: Seq<(u64, String)>,
    src: Seq<(u64, Seq<char>)>,
    order: Seq<int>,
    pos: Seq<int>,
    ip: u64,
    r: int,
)
    requires
        stable_arrangement(entries, src, order, pos),
        0 <= r <= entries.len(),
        forall|i: int| 0 <= i < r ==> #[trigger] entries[i].0 <= ip,
        forall|i: int| r <= i < entries.len() ==> #[trigger] entries[i].0 > ip,
    ensures
        r == 0 ==> lookup_last(src, ip) is None,
        r > 0 ==> lookup_last(src, ip) == Some(
            (entries[r - 1].1@, (ip - entries[r - 1].0) as u64),
        ),
{
    if r == 0 {
        assert forall|j: int| !is_last_at_or_below(src, ip, j) by {
            if 0 <= j < src.len() && src[j].0 <= ip {
                let q = pos[j];
                assert(entries[q].0 == src[order[q]].0);
            }
        }
    } else {
        let i = r - 1;
        let j = order[i];
        assert forall|k: int| 0 <= k < src.len() && #[trigger] src[k].0 <= ip implies src[k].0
            < src[j].0 || (src[k].0 == src[j].0 && k <= j) by {
            let q = pos[k];
            assert(entries[q].0 == src[order[q]].0);
            if q > i {
                assert(entries[q].0 > ip);
            } else if q < i {
                assert(entries[q].0 < entries[i].0 || (entries[q].0 == entries[i].0 && order[q]
                    < order[i]));
            }
        }
        assert(is_last_at_or_below(src, ip, j));
        let j2 = choose|j2: int| is_last_at_or_below(src, ip, j2);
        assert(src[j].0 <= ip && src[j2].0 <= ip);
        assert(j2 == j);
    }
}

/// In a first-wins arrangement, the entry just before the upper bound of
/// `ip` is the one `lookup_first` picks, and there is none when the bound is
/// zero.
pub proof fn lemma_lookup_first(
    entries: Seq<(u64, String)>,
    src: Seq<(u64, Seq<char>)>,
    order: Seq<int>,
    pos: Seq<int>,
    ip: u64,
    r: int,
)
    requires
        first_arrangement(entries, src, order, pos),
        0 <= r <= entries.len(),
        forall|i: int| 0 <= i < r ==> #[trigger] entries[i].0 <= ip,
        forall|i: int| r <= i < entries.len() ==> #[trigger] entries[i].0 > ip,
    ensures
        r == 0 ==> lookup_first(src, ip) is None,
        r > 0 ==> lookup_first(src, ip) == Some(
            (entries[r - 1].1@, (ip - entries[r - 1].0) as u64),
        ),
{
    if r == 0 {
        assert forall|j: int| !is_first_at_or_below(src, ip, j) by {
            if 0 <= j < src.len() && src[j].0 <= ip {
                let q = pos[j];
                assert(entries[q].0 == src[j].0);
            }
        }
    } else {
        let i = r - 1;
        let j = order[i];
        assert forall|k: int| 0 <= k < src.len() && #[trigger] src[k].0 <= ip implies src[k].0
            < src[j].0 || (src[k].0 == src[j].0 && k >= j) by {
            let q = pos[k];
            assert(entries[q].0 == src[k].0);
            if q > i {
                assert(entries[q].0 > ip);
            } else if q < i {
                assert(entries[q].0 < entries[i].0);
            }
        }
        assert(is_first_at_or_below(src, ip, j));
        let j2 = choose|j2: int| is_first_at_or_below(src, ip, j2);
        assert(src[j].0 <= ip && src[j2].0 <= ip);
        assert(j2 == j);
    }
}

} // verus!
