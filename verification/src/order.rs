//! Lexicographic order on character sequences (the order of `str`, since
//! UTF-8 preserves code-point order) and on `(text, count)` lines.

use vstd::prelude::*;

verus! {

/// Three-way lexicographic comparison of `a` and `b` by code point: -1, 0
/// or 1.
pub open spec fn lex_compare(a: Seq<char>, b: Seq<char>) -> int
    decreases a.len(),
{
    if a.len() == 0 {
        if b.len() == 0 {
            0
        } else {
            -1
        }
    } else if b.len() == 0 {
        1
    } else if (a[0] as u32) < (b[0] as u32) {
        -1
    } else if (a[0] as u32) > (b[0] as u32) {
        1
    } else {
        lex_compare(a.drop_first(), b.drop_first())
    }
}

/// The comparison is zero exactly on equal sequences, reverses when its
/// arguments are swapped, and is one of -1, 0, 1.
pub proof fn lemma_compare_basics(a: Seq<char>, b: Seq<char>)
    ensures
        (lex_compare(a, b) == 0) == (a == b),
        lex_compare(a, b) == -lex_compare(b, a),
        -1 <= lex_compare(a, b) <= 1,
    decreases a.len(),
{
    if a.len() > 0 && b.len() > 0 {
        lemma_compare_basics(a.drop_first(), b.drop_first());
        if a[0] == b[0] && a.drop_first() == b.drop_first() {
            assert(a =~= seq![a[0]] + a.drop_first());
            assert(b =~= seq![b[0]] + b.drop_first());
        }
        if a == b {
            assert(a.drop_first() =~= b.drop_first());
        }
        if (a[0] as u32) == (b[0] as u32) {
            vstd::utf8::char_u32_cast(a[0], a[0] as u32);
            vstd::utf8::char_u32_cast(b[0], b[0] as u32);
            assert(a[0] == b[0]);
        }
    } else if a.len() == 0 && b.len() == 0 {
        assert(a =~= b);
    }
}

/// The comparison is transitive.
pub proof fn lemma_compare_trans(a: Seq<char>, b: Seq<char>, c: Seq<char>)
    requires
        lex_compare(a, b) <= 0,
        lex_compare(b, c) <= 0,
    ensures
        lex_compare(a, c) <= 0,
        lex_compare(a, b) < 0 || lex_compare(b, c) < 0 ==> lex_compare(a, c) < 0,
    decreases a.len(),
{
    if a.len() > 0 && b.len() > 0 && c.len() > 0 {
        if (a[0] as u32) == (b[0] as u32) && (b[0] as u32) == (c[0] as u32) {
            lemma_compare_trans(a.drop_first(), b.drop_first(), c.drop_first());
        }
    }
}

/// A `(text, count)` line: the order of the tuple `(String, u64)`.
pub open spec fn line_le(x: (Seq<char>, u64), y: (Seq<char>, u64)) -> bool {
    lex_compare(x.0, y.0) < 0 || (lex_compare(x.0, y.0) == 0 && x.1 <= y.1)
}

/// The line order is a total order.
pub proof fn lemma_line_order(x: (Seq<char>, u64), y: (Seq<char>, u64), z: (Seq<char>, u64))
    ensures
        line_le(x, x),
        line_le(x, y) || line_le(y, x),
        line_le(x, y) && line_le(y, x) ==> x == y,
        line_le(x, y) && line_le(y, z) ==> line_le(x, z),
{
    lemma_compare_basics(x.0, x.0);
    lemma_compare_basics(x.0, y.0);
    lemma_compare_basics(y.0, z.0);
    lemma_compare_basics(x.0, z.0);
    if line_le(x, y) && line_le(y, z) {
        lemma_compare_trans(x.0, y.0, z.0);
    }
}

/// Compares two character sequences lexicographically.
pub fn compare_chars(a: &[char], b: &[char]) -> (r: i8)
    ensures
        r == lex_compare(a@, b@),
{
    let mut i: usize = 0;
    assert(a@.skip(0) =~= a@);
    assert(b@.skip(0) =~= b@);
    while i < a.len() && i < b.len()
        invariant
            i <= a@.len(),
            i <= b@.len(),
            lex_compare(a@, b@) == lex_compare(a@.skip(i as int), b@.skip(i as int)),
        decreases a@.len() - i,
    {
        let x = a[i] as u32;
        let y = b[i] as u32;
        assert(a@.skip(i as int)[0] == a@[i as int]);
        assert(b@.skip(i as int)[0] == b@[i as int]);
        if x < y {
            return -1;
        }
        if x > y {
            return 1;
        }
        assert(a@.skip(i as int).drop_first() =~= a@.skip(i + 1));
        assert(b@.skip(i as int).drop_first() =~= b@.skip(i + 1));
        i = i + 1;
    }
    if i < a.len() {
        1
    } else if i < b.len() {
        -1
    } else {
        0
    }
}


/// The views of a list of `(text, count)` lines.
pub open spec fn line_views(v: Seq<(Vec<char>, u64)>) -> Seq<(Seq<char>, u64)> {
    v.map_values(|x: (Vec<char>, u64)| (x.0@, x.1))
}

/// Lines never decrease along `s`.
pub open spec fn lines_sorted(s: Seq<(Seq<char>, u64)>) -> bool {
    forall|i: int, j: int| 0 <= i <= j < s.len() ==> line_le(#[trigger] s[i], #[trigger] s[j])
}

/// `sorted` holds the lines of `src`, each as often as there, in line order.
pub open spec fn is_sorting_of(sorted: Seq<(Seq<char>, u64)>, src: Seq<(Seq<char>, u64)>) -> bool {
    lines_sorted(sorted) && sorted.to_multiset() == src.to_multiset()
}

/// Inserting a line at its upper bound keeps the lines sorted and adds it
/// to their multiset.
pub proof fn lemma_sorted_insert(sorted: Seq<(Seq<char>, u64)>, p: int, x: (Seq<char>, u64))
    requires
        lines_sorted(sorted),
        0 <= p <= sorted.len(),
        forall|i: int| 0 <= i < p ==> line_le(#[trigger] sorted[i], x),
        forall|i: int| p <= i < sorted.len() ==> !line_le(#[trigger] sorted[i], x),
    ensures
        lines_sorted(sorted.insert(p, x)),
        sorted.insert(p, x).to_multiset() == sorted.to_multiset().insert(x),
{
    broadcast use vstd::multiset::group_multiset_axioms;
    broadcast use vstd::seq_lib::group_to_multiset_ensures;

    let s2 = sorted.insert(p, x);
    assert forall|i: int, j: int| 0 <= i <= j < s2.len() implies line_le(
        #[trigger] s2[i],
        #[trigger] s2[j],
    ) by {
        if i == j {
            lemma_line_order(s2[i], s2[i], s2[i]);
        } else if j < p {
            assert(s2[i] == sorted[i] && s2[j] == sorted[j]);
        } else if j == p {
            assert(s2[i] == sorted[i]);
        } else if i < p {
            assert(s2[i] == sorted[i] && s2[j] == sorted[j - 1]);
            lemma_line_order(sorted[j - 1], x, sorted[j - 1]);
            lemma_line_order(sorted[i], x, sorted[j - 1]);
        } else if i == p {
            assert(s2[j] == sorted[j - 1]);
            lemma_line_order(sorted[j - 1], x, x);
        } else {
            assert(s2[i] == sorted[i - 1] && s2[j] == sorted[j - 1]);
        }
    }
    let head = sorted.take(p);
    let tail = sorted.skip(p);
    assert(sorted =~= head + tail);
    assert(s2 =~= head.push(x) + tail);
    vstd::seq_lib::lemma_multiset_commutative(head, tail);
    vstd::seq_lib::lemma_multiset_commutative(head.push(x), tail);
    assert(s2.to_multiset() =~= sorted.to_multiset().insert(x));
}

/// The sorted order of folded lines depends only on which lines there are,
/// each counted as often as it occurs, and not on the order they are listed
/// in: two sortings of the same lines are equal.
pub proof fn law_sorting_unique(
    a: Seq<(Seq<char>, u64)>,
    b: Seq<(Seq<char>, u64)>,
    src_a: Seq<(Seq<char>, u64)>,
    src_b: Seq<(Seq<char>, u64)>,
)
    requires
        is_sorting_of(a, src_a),
        is_sorting_of(b, src_b),
        src_a.to_multiset() == src_b.to_multiset(),
    ensures
        a == b,
{
    let leq = |x: (Seq<char>, u64), y: (Seq<char>, u64)| line_le(x, y);
    assert(vstd::relations::total_ordering(leq)) by {
        assert forall|x: (Seq<char>, u64)| #[trigger] leq(x, x) by {
            lemma_line_order(x, x, x);
        }
        assert forall|x: (Seq<char>, u64), y: (Seq<char>, u64)| #[trigger] leq(x, y) && #[trigger] leq(y, x) implies x == y by {
            lemma_line_order(x, y, x);
        }
        assert forall|x: (Seq<char>, u64), y: (Seq<char>, u64), z: (Seq<char>, u64)| #[trigger] leq(x, y) && #[trigger] leq(y, z) implies leq(x, z) by {
            lemma_line_order(x, y, z);
        }
        assert forall|x: (Seq<char>, u64), y: (Seq<char>, u64)| #[trigger] leq(x, y) || #[trigger] leq(y, x) by {
            lemma_line_order(x, y, x);
        }
    }
    assert(vstd::relations::sorted_by(a, leq));
    assert(vstd::relations::sorted_by(b, leq));
    vstd::seq_lib::lemma_sorted_unique(a, b, leq);
}

/// Whether line `x` comes no later than line `y`.
pub fn line_at_most(x: &(Vec<char>, u64), y: &(Vec<char>, u64)) -> (r: bool)
    ensures
        r == line_le((x.0@, x.1), (y.0@, y.1)),
{
    let c = compare_chars(x.0.as_slice(), y.0.as_slice());
    c < 0 || (c == 0 && x.1 <= y.1)
}

/// The number of leading lines of `sorted` that come no later than `x`.
pub fn line_upper_bound(sorted: &Vec<(Vec<char>, u64)>, x: &(Vec<char>, u64)) -> (r: usize)
    requires
        lines_sorted(line_views(sorted@)),
    ensures
        r <= sorted@.len(),
        forall|i: int| 0 <= i < r ==> line_le(#[trigger] line_views(sorted@)[i], (x.0@, x.1)),
        forall|i: int|
            r <= i < sorted@.len() ==> !line_le(#[trigger] line_views(sorted@)[i], (x.0@, x.1)),
{
    let ghost v = line_views(sorted@);
    let ghost xv = (x.0@, x.1);
    let mut lo: usize = 0;
    let mut hi: usize = sorted.len();
    while lo < hi
        invariant
            v == line_views(sorted@),
            xv == (x.0@, x.1),
            lo <= hi <= sorted@.len(),
            lines_sorted(v),
            forall|i: int| 0 <= i < lo ==> line_le(#[trigger] v[i], xv),
            forall|i: int| hi <= i < sorted@.len() ==> !line_le(#[trigger] v[i], xv),
        decreases hi - lo,
    {
        let mid = lo + (hi - lo) / 2;
        if line_at_most(&sorted[mid], x) {
            assert(v[mid as int] == (sorted@[mid as int].0@, sorted@[mid as int].1));
            assert forall|i: int| 0 <= i < mid + 1 implies line_le(#[trigger] v[i], xv) by {
                assert(line_le(v[i], v[mid as int]));
                lemma_line_order(v[i], v[mid as int], xv);
            }
            lo = mid + 1;
        } else {
            assert(v[mid as int] == (sorted@[mid as int].0@, sorted@[mid as int].1));
            assert forall|i: int| mid <= i < sorted@.len() implies !line_le(#[trigger] v[i], xv) by {
                assert(line_le(v[mid as int], v[i]));
                lemma_line_order(v[mid as int], v[i], xv);
            }
            hi = mid;
        }
    }
    lo
}

} // verus!
