//! Folded-stack aggregation: accumulates `(frame chain, count)` samples and
//! emits the `frame1;frame2;frame3 count` text format read by
//! `flamegraph.pl` and by this profiler's flame-graph builder.

use vstd::prelude::*;

use crate::num::{decimal, push_decimal};
use crate::order::{
    is_sorting_of, law_sorting_unique, lemma_sorted_insert, line_upper_bound, line_views, lines_sorted,
};
use crate::symbolize::{frame_models, stacks_equal, Frame, FrameModel};
use crate::text::{join, push_str, string_of};
use vstd::utf8::encode_utf8;

verus! {

/// The models of the aggregator's entries.
pub open spec fn entry_models(e: Seq<(Vec<Frame>, u64)>) -> Seq<(Seq<FrameModel>, u64)> {
    e.map_values(|x: (Vec<Frame>, u64)| (frame_models(x.0@), x.1))
}

/// No stack occurs twice among the entries.
pub open spec fn distinct_stacks(e: Seq<(Seq<FrameModel>, u64)>) -> bool {
    forall|i: int, j: int| 0 <= i < j < e.len() ==> #[trigger] e[i].0 != #[trigger] e[j].0
}

/// The position of `stack` among the entries, if it has one.
pub open spec fn position(e: Seq<(Seq<FrameModel>, u64)>, stack: Seq<FrameModel>) -> Option<int> {
    if exists|i: int| 0 <= i < e.len() && #[trigger] e[i].0 == stack {
        Some(choose|i: int| 0 <= i < e.len() && #[trigger] e[i].0 == stack)
    } else {
        None
    }
}

/// The number of samples recorded for `stack`.
pub open spec fn count_of(e: Seq<(Seq<FrameModel>, u64)>, stack: Seq<FrameModel>) -> nat {
    match position(e, stack) {
        Some(i) => e[i].1 as nat,
        None => 0,
    }
}

/// The number of samples over all stacks.
pub open spec fn total_of(e: Seq<(Seq<FrameModel>, u64)>) -> nat
    decreases e.len(),
{
    if e.len() == 0 {
        0
    } else {
        total_of(e.drop_last()) + e.last().1 as nat
    }
}

/// The entries after `count` samples of `stack` are added: the stack's count
/// grows in place, or the stack is appended.
pub open spec fn added(e: Seq<(Seq<FrameModel>, u64)>, stack: Seq<FrameModel>, count: u64) -> Seq<
    (Seq<FrameModel>, u64),
> {
    match position(e, stack) {
        Some(i) => e.update(i, (stack, (e[i].1 + count) as u64)),
        None => e.push((stack, count)),
    }
}

/// The frame chain of a stack: frame labels joined by `;`, outermost first.
pub open spec fn stack_chain(stack: Seq<FrameModel>) -> Seq<char> {
    join(stack.map_values(|f: FrameModel| f.label()), seq![';'])
}

/// The folded lines of the entries, `(chain, count)`, in entry order.
pub open spec fn folded_lines(e: Seq<(Seq<FrameModel>, u64)>) -> Seq<(Seq<char>, u64)> {
    e.map_values(|x: (Seq<FrameModel>, u64)| (stack_chain(x.0), x.1))
}

/// The folded text of `lines`: one `chain count` line each, in order.
pub open spec fn folded_text(lines: Seq<(Seq<char>, u64)>) -> Seq<char>
    decreases lines.len(),
{
    if lines.len() == 0 {
        seq![]
    } else {
        folded_text(lines.drop_last()) + lines.last().0 + seq![' '] + decimal(
            lines.last().1 as nat,
        ) + seq!['\n']
    }
}

/// The frame chain of a stack.
pub fn chain_of(frames: &Vec<Frame>) -> (c: Vec<char>)
    ensures
        c@ == stack_chain(frame_models(frames@)),
{
    let ghost labels = frame_models(frames@).map_values(|f: FrameModel| f.label());
    let mut c: Vec<char> = Vec::new();
    let mut i: usize = 0;
    while i < frames.len()
        invariant
            i <= frames@.len(),
            labels == frame_models(frames@).map_values(|f: FrameModel| f.label()),
            c@ == join(labels.take(i as int), seq![';']),
        decreases frames@.len() - i,
    {
        assert(labels.take(i + 1).drop_last() =~= labels.take(i as int));
        if i > 0 {
            c.push(';');
        }
        let label = frames[i].label();
        push_str(&mut c, label.as_str());
        assert(labels[i as int] == frames@[i as int]@.label());
        if i == 0 {
            assert(c@ =~= join(labels.take(1), seq![';']));
        } else {
            assert(c@ =~= join(labels.take(i + 1), seq![';']));
        }
        i = i + 1;
    }
    assert(labels.take(frames@.len() as int) =~= labels);
    c
}

/// Accumulated sample counts per unique stack, in order of first appearance.
pub struct Aggregator {
    counts: Vec<(Vec<Frame>, u64)>,
}

impl View for Aggregator {
    type V = Seq<(Seq<FrameModel>, u64)>;

    closed spec fn view(&self) -> Seq<(Seq<FrameModel>, u64)> {
        entry_models(self.counts@)
    }
}

impl Aggregator {
    #[verifier::type_invariant]
    spec fn well_formed(self) -> bool {
        distinct_stacks(entry_models(self.counts@))
    }

    /// An aggregator with no samples.
    pub fn new() -> (a: Aggregator)
        ensures
            a@ == Seq::<(Seq<FrameModel>, u64)>::empty(),
    {
        let a = Aggregator { counts: Vec::new() };
        assert(entry_models(a.counts@) =~= Seq::<(Seq<FrameModel>, u64)>::empty());
        a
    }

    /// Records `count` more samples of the stack `frames`.
    pub fn add(&mut self, frames: Vec<Frame>, count: u64)
        requires
            count_of(old(self)@, frame_models(frames@)) + count <= u64::MAX,
        ensures
            final(self)@ == added(old(self)@, frame_models(frames@), count),
            distinct_stacks(final(self)@),
    {
        proof {
            use_type_invariant(&*self);
        }
        let ghost stack = frame_models(frames@);
        let ghost e = self@;
        let mut counts: Vec<(Vec<Frame>, u64)> = Vec::new();
        std::mem::swap(&mut counts, &mut self.counts);
        assert(e == entry_models(counts@));
        let n = counts.len();
        let mut i: usize = 0;
        while i < n
            invariant
                n == counts@.len(),
                i <= n,
                e == entry_models(counts@),
                e == old(self)@,
                distinct_stacks(e),
                stack == frame_models(frames@),
                count_of(e, stack) + count <= u64::MAX,
                forall|k: int| 0 <= k < i ==> #[trigger] e[k].0 != stack,
            decreases n - i,
        {
            if stacks_equal(&counts[i].0, &frames) {
                assert(e[i as int].0 == stack);
                assert(position(e, stack) == Some(i as int)) by {
                    let j = choose|j: int| 0 <= j < e.len() && #[trigger] e[j].0 == stack;
                    if j != i {
                        if j < i {
                            assert(e[j].0 != e[i as int].0);
                        } else {
                            assert(e[i as int].0 != e[j].0);
                        }
                    }
                }
                assert(e[i as int].1 == counts@[i as int].1);
                let c = counts[i].1 + count;
                counts.set(i, (frames, c));
                assert(entry_models(counts@) =~= e.update(i as int, (stack, c)));
                assert forall|a: int, b: int| 0 <= a < b < e.len() implies #[trigger] entry_models(
                    counts@,
                )[a].0 != #[trigger] entry_models(counts@)[b].0 by {
                    assert(e[a].0 != e[b].0);
                }
                self.counts = counts;
                return;
            }
            i = i + 1;
        }
        assert(position(e, stack) is None);
        counts.push((frames, count));
        assert(entry_models(counts@) =~= e.push((stack, count)));
        assert forall|a: int, b: int| 0 <= a < b < e.len() + 1 implies #[trigger] entry_models(
            counts@,
        )[a].0 != #[trigger] entry_models(counts@)[b].0 by {
            if b < e.len() {
                assert(e[a].0 != e[b].0);
            }
        }
        self.counts = counts;
    }

    /// The number of samples recorded for the stack `frames`.
    pub fn count_of_stack(&self, frames: &Vec<Frame>) -> (c: u64)
        ensures
            c == count_of(self@, frame_models(frames@)),
    {
        proof {
            use_type_invariant(self);
        }
        let ghost e = self@;
        let ghost stack = frame_models(frames@);
        let mut i: usize = 0;
        while i < self.counts.len()
            invariant
                e == entry_models(self.counts@),
                distinct_stacks(e),
                stack == frame_models(frames@),
                i <= e.len(),
                forall|k: int| 0 <= k < i ==> #[trigger] e[k].0 != stack,
            decreases e.len() - i,
        {
            if stacks_equal(&self.counts[i].0, frames) {
                assert(e[i as int].0 == stack);
                assert(position(e, stack) == Some(i as int)) by {
                    let j = choose|j: int| 0 <= j < e.len() && #[trigger] e[j].0 == stack;
                    if j != i {
                        if j < i {
                            assert(e[j].0 != e[i as int].0);
                        } else {
                            assert(e[i as int].0 != e[j].0);
                        }
                    }
                }
                return self.counts[i].1;
            }
            i = i + 1;
        }
        assert(position(e, stack) is None);
        0
    }

    /// The number of samples over all stacks, or `None` when it does not
    /// fit in a `u64`.
    pub fn checked_total(&self) -> (t: Option<u64>)
        ensures
            match t {
                Some(v) => v == total_of(self@),
                None => total_of(self@) > u64::MAX,
            },
    {
        let ghost e = self@;
        let mut t: u64 = 0;
        let mut i: usize = 0;
        while i < self.counts.len()
            invariant
                e == entry_models(self.counts@),
                i <= e.len(),
                t == total_of(e.take(i as int)),
            decreases e.len() - i,
        {
            assert(e.take(i + 1).drop_last() =~= e.take(i as int));
            proof {
                lemma_total_prefix(e, i + 1);
            }
            let c = self.counts[i].1;
            if c > u64::MAX - t {
                return None;
            }
            t = t + c;
            i = i + 1;
        }
        assert(e.take(e.len() as int) =~= e);
        Some(t)
    }

    /// The entries, in order of first appearance.
    pub fn iter(&self) -> (r: &[(Vec<Frame>, u64)])
        ensures
            entry_models(r@) == self@,
            distinct_stacks(self@),
    {
        proof {
            use_type_invariant(self);
        }
        self.counts.as_slice()
    }

    /// Whether no samples were recorded.
    pub fn is_empty(&self) -> (b: bool)
        ensures
            b == (self@.len() == 0),
    {
        self.counts.len() == 0
    }

    /// The number of samples over all stacks.
    pub fn total(&self) -> (t: u64)
        requires
            total_of(self@) <= u64::MAX,
        ensures
            t == total_of(self@),
    {
        let ghost e = self@;
        let mut t: u64 = 0;
        let mut i: usize = 0;
        while i < self.counts.len()
            invariant
                e == entry_models(self.counts@),
                total_of(e) <= u64::MAX,
                i <= e.len(),
                t == total_of(e.take(i as int)),
            decreases e.len() - i,
        {
            assert(e.take(i + 1).drop_last() =~= e.take(i as int));
            proof {
                lemma_total_prefix(e, i + 1);
            }
            t = t + self.counts[i].1;
            i = i + 1;
        }
        assert(e.take(e.len() as int) =~= e);
        t
    }
}

impl Aggregator {
    /// Writes one `frame1;frame2;...;frameN count` line per unique stack,
    /// sorted by chain and then by count for deterministic output, as UTF-8
    /// bytes appended to `out`.
    pub fn write_folded(&self, out: &mut Vec<u8>)
        ensures
            exists|sorted: Seq<(Seq<char>, u64)>|
                is_sorting_of(sorted, folded_lines(self@)) && final(out)@ == old(out)@
                    + encode_utf8(folded_text(sorted)),
    {
        let ghost src = folded_lines(self@);
        let mut sorted: Vec<(Vec<char>, u64)> = Vec::new();
        assert(line_views(sorted@) =~= src.take(0));
        let mut i: usize = 0;
        while i < self.counts.len()
            invariant
                src == folded_lines(self@),
                self@ == entry_models(self.counts@),
                i <= self.counts@.len(),
                lines_sorted(line_views(sorted@)),
                line_views(sorted@).to_multiset() == src.take(i as int).to_multiset(),
            decreases self.counts@.len() - i,
        {
            broadcast use vstd::seq_lib::group_to_multiset_ensures;

            let line = (chain_of(&self.counts[i].0), self.counts[i].1);
            assert((line.0@, line.1) == src[i as int]);
            let p = line_upper_bound(&sorted, &line);
            let ghost before = line_views(sorted@);
            proof {
                lemma_sorted_insert(before, p as int, (line.0@, line.1));
            }
            sorted.insert(p, line);
            assert(line_views(sorted@) =~= before.insert(p as int, (line.0@, line.1)));
            assert(src.take(i + 1) =~= src.take(i as int).push(src[i as int]));
            i = i + 1;
        }
        assert(src.take(src.len() as int) =~= src);
        let ghost sv = line_views(sorted@);
        let mut text: Vec<char> = Vec::new();
        let mut k: usize = 0;
        while k < sorted.len()
            invariant
                sv == line_views(sorted@),
                k <= sorted@.len(),
                text@ == folded_text(sv.take(k as int)),
            decreases sorted@.len() - k,
        {
            assert(sv.take(k + 1).drop_last() =~= sv.take(k as int));
            let line = &sorted[k];
            let mut j: usize = 0;
            let ghost before = text@;
            while j < line.0.len()
                invariant
                    j <= line.0@.len(),
                    text@ == before + line.0@.take(j as int),
                decreases line.0@.len() - j,
            {
                text.push(line.0[j]);
                j = j + 1;
                assert(text@ =~= before + line.0@.take(j as int));
            }
            assert(line.0@.take(line.0@.len() as int) =~= line.0@);
            text.push(' ');
            push_decimal(line.1, &mut text);
            text.push('\n');
            assert(text@ =~= folded_text(sv.take(k + 1)));
            k = k + 1;
        }
        assert(sv.take(sv.len() as int) =~= sv);
        let s = string_of(text.as_slice());
        let bytes = s.as_str().as_bytes();
        let mut b: usize = 0;
        while b < bytes.len()
            invariant
                b <= bytes@.len(),
                bytes@ == encode_utf8(folded_text(sv)),
                out@ == old(out)@ + bytes@.take(b as int),
            decreases bytes@.len() - b,
        {
            out.push(bytes[b]);
            b = b + 1;
            assert(out@ =~= old(out)@ + bytes@.take(b as int));
        }
        assert(bytes@.take(bytes@.len() as int) =~= bytes@);
        assert(is_sorting_of(sv, folded_lines(self@)));
    }
}

impl Default for Aggregator {
    fn default() -> (a: Aggregator)
        ensures
            a@ == Seq::<(Seq<FrameModel>, u64)>::empty(),
    {
        Aggregator::new()
    }
}

/// The total of a prefix is at most the total.
pub proof fn lemma_total_prefix(e: Seq<(Seq<FrameModel>, u64)>, k: int)
    requires
        0 <= k <= e.len(),
    ensures
        total_of(e.take(k)) <= total_of(e),
    decreases e.len() - k,
{
    if k < e.len() {
        lemma_total_prefix(e, k + 1);
        assert(e.take(k + 1).drop_last() =~= e.take(k));
    } else {
        assert(e.take(k) =~= e);
    }
}


/// Changing one count changes the total by the difference.
pub proof fn lemma_total_update(e: Seq<(Seq<FrameModel>, u64)>, i: int, x: (Seq<FrameModel>, u64))
    requires
        0 <= i < e.len(),
    ensures
        total_of(e.update(i, x)) + e[i].1 == total_of(e) + x.1,
    decreases e.len(),
{
    let u = e.update(i, x);
    if i < e.len() - 1 {
        lemma_total_update(e.drop_last(), i, x);
        assert(u.drop_last() =~= e.drop_last().update(i, x));
    } else {
        assert(u.drop_last() =~= e.drop_last());
    }
}

/// Adding samples of a stack: its count grows by the number added, every
/// other stack keeps its count, the total grows by the number added, and
/// stacks stay distinct.
pub proof fn law_add_accumulates(
    e: Seq<(Seq<FrameModel>, u64)>,
    stack: Seq<FrameModel>,
    count: u64,
    other: Seq<FrameModel>,
)
    requires
        distinct_stacks(e),
        count_of(e, stack) + count <= u64::MAX,
    ensures
        count_of(added(e, stack, count), other) == count_of(e, other) + (if other == stack {
            count as nat
        } else {
            0
        }),
        total_of(added(e, stack, count)) == total_of(e) + count,
        distinct_stacks(added(e, stack, count)),
{
    let a = added(e, stack, count);
    match position(e, stack) {
        Some(i) => {
            assert(a == e.update(i, (stack, (e[i].1 + count) as u64)));
            lemma_total_update(e, i, (stack, (e[i].1 + count) as u64));
            assert forall|p: int, q: int| 0 <= p < q < a.len() implies #[trigger] a[p].0
                != #[trigger] a[q].0 by {
                assert(e[p].0 != e[q].0);
            }
            if exists|j: int| 0 <= j < a.len() && #[trigger] a[j].0 == other {
                let j = choose|j: int| 0 <= j < a.len() && #[trigger] a[j].0 == other;
                let pj = position(a, other)->0;
                assert(pj == j) by {
                    if pj != j {
                        if pj < j {
                            assert(a[pj].0 != a[j].0);
                        } else {
                            assert(a[j].0 != a[pj].0);
                        }
                    }
                }
                assert(e[j].0 == other);
                let ej = position(e, other)->0;
                assert(ej == j) by {
                    if ej != j {
                        if ej < j {
                            assert(e[ej].0 != e[j].0);
                        } else {
                            assert(e[j].0 != e[ej].0);
                        }
                    }
                }
            } else {
                assert forall|j: int| 0 <= j < e.len() implies #[trigger] e[j].0 != other by {
                    assert(a[j].0 == e[j].0);
                    assert(!(0 <= j < a.len() && a[j].0 == other));
                }
            }
        },
        None => {
            assert(a == e.push((stack, count)));
            assert(a.drop_last() =~= e);
            assert forall|p: int, q: int| 0 <= p < q < a.len() implies #[trigger] a[p].0
                != #[trigger] a[q].0 by {
                if q < e.len() {
                    assert(e[p].0 != e[q].0);
                }
            }
            if other == stack {
                assert(a[e.len() as int].0 == other);
                let pj = position(a, other)->0;
                assert(pj == e.len()) by {
                    if pj < e.len() {
                        assert(e[pj].0 == other);
                    }
                }
            } else {
                if exists|j: int| 0 <= j < e.len() && #[trigger] e[j].0 == other {
                    let ej = position(e, other)->0;
                    assert(a[ej].0 == other);
                    let pj = position(a, other)->0;
                    assert(pj == ej) by {
                        if pj != ej {
                            if pj < ej {
                                assert(a[pj].0 != a[ej].0);
                            } else {
                                assert(a[ej].0 != a[pj].0);
                            }
                        }
                    }
                } else {
                    assert forall|j: int| 0 <= j < a.len() implies #[trigger] a[j].0 != other by {
                        if j < e.len() {
                            assert(a[j] == e[j]);
                        }
                    }
                }
            }
        },
    }
}

/// The entries after each `(stack, count)` of `adds` is added, in order, to
/// an empty aggregator.
pub open spec fn fed(adds: Seq<(Seq<FrameModel>, u64)>) -> Seq<(Seq<FrameModel>, u64)>
    decreases adds.len(),
{
    if adds.len() == 0 {
        seq![]
    } else {
        added(fed(adds.drop_last()), adds.last().0, adds.last().1)
    }
}

/// The step that sums the samples of `stack`.
pub open spec fn sample_step(stack: Seq<FrameModel>) -> spec_fn(nat, (Seq<FrameModel>, u64)) -> nat {
    |acc: nat, x: (Seq<FrameModel>, u64)| acc + if x.0 == stack {
        x.1 as nat
    } else {
        0nat
    }
}

/// The number of samples of `stack` among `adds`.
pub open spec fn samples_of(adds: Seq<(Seq<FrameModel>, u64)>, stack: Seq<FrameModel>) -> nat {
    adds.fold_left(0nat, sample_step(stack))
}

/// Some add of `adds` is of `stack`.
pub open spec fn adds_stack(adds: Seq<(Seq<FrameModel>, u64)>, stack: Seq<FrameModel>) -> bool {
    exists|i: int| 0 <= i < adds.len() && #[trigger] adds[i].0 == stack
}

/// Adding samples of a stack lists that stack, and no other new one.
proof fn lemma_added_lists(e: Seq<(Seq<FrameModel>, u64)>, stack: Seq<FrameModel>, count: u64, s: Seq<FrameModel>)
    ensures
        (position(added(e, stack, count), s) is Some) == (position(e, s) is Some || s == stack),
{
    let a = added(e, stack, count);
    match position(e, stack) {
        Some(i) => {
            assert(e[i].0 == stack);
            if position(e, s) is Some {
                let j = position(e, s)->0;
                assert(a[j].0 == s);
            }
            if position(a, s) is Some {
                let j = position(a, s)->0;
                assert(e[j].0 == s);
            }
            if s == stack {
                assert(a[i].0 == s);
            }
        },
        None => {
            assert(a[e.len() as int].0 == stack);
            if position(e, s) is Some {
                let j = position(e, s)->0;
                assert(a[j].0 == s);
            }
            if position(a, s) is Some {
                let j = position(a, s)->0;
                if j < e.len() {
                    assert(e[j].0 == s);
                }
            }
        },
    }
}

/// What adding `adds` in order gives: distinct stacks, each stack that was
/// added, with the sum of its samples.
proof fn lemma_fed(adds: Seq<(Seq<FrameModel>, u64)>)
    requires
        forall|s: Seq<FrameModel>| #[trigger] samples_of(adds, s) <= u64::MAX,
    ensures
        distinct_stacks(fed(adds)),
        forall|s: Seq<FrameModel>| #[trigger] count_of(fed(adds), s) == samples_of(adds, s),
        forall|s: Seq<FrameModel>| (#[trigger] position(fed(adds), s) is Some) == adds_stack(adds, s),
    decreases adds.len(),
{
    if adds.len() == 0 {
        assert forall|s: Seq<FrameModel>| #[trigger] count_of(fed(adds), s) == samples_of(adds, s) by {
            assert(position(fed(adds), s) is None);
        }
    } else {
        let init = adds.drop_last();
        let (st, c) = adds.last();
        assert forall|s: Seq<FrameModel>| #[trigger] samples_of(init, s) <= u64::MAX by {
            assert(samples_of(adds, s) == sample_step(s)(samples_of(init, s), adds.last()));
        }
        lemma_fed(init);
        let e = fed(init);
        assert(samples_of(adds, st) == samples_of(init, st) + c);
        law_add_accumulates(e, st, c, st);
        assert forall|s: Seq<FrameModel>| #[trigger] count_of(fed(adds), s) == samples_of(adds, s) by {
            law_add_accumulates(e, st, c, s);
            assert(samples_of(adds, s) == sample_step(s)(samples_of(init, s), adds.last()));
        }
        assert forall|s: Seq<FrameModel>| (#[trigger] position(fed(adds), s) is Some) == adds_stack(adds, s) by {
            lemma_added_lists(e, st, c, s);
            if adds_stack(init, s) {
                let i = choose|i: int| 0 <= i < init.len() && #[trigger] init[i].0 == s;
                assert(adds[i].0 == s);
            }
            if adds_stack(adds, s) {
                let i = choose|i: int| 0 <= i < adds.len() && #[trigger] adds[i].0 == s;
                if i < init.len() {
                    assert(init[i].0 == s);
                }
            }
            assert(adds[adds.len() - 1].0 == st);
        }
    }
}

/// Entries with distinct stacks that list the same stacks with the same
/// counts hold the same entries.
proof fn lemma_same_entries(e1: Seq<(Seq<FrameModel>, u64)>, e2: Seq<(Seq<FrameModel>, u64)>)
    requires
        distinct_stacks(e1),
        distinct_stacks(e2),
        forall|s: Seq<FrameModel>| #[trigger] count_of(e1, s) == count_of(e2, s),
        forall|s: Seq<FrameModel>| (#[trigger] position(e1, s) is Some) == (position(e2, s) is Some),
    ensures
        e1.to_multiset() == e2.to_multiset(),
{
    broadcast use vstd::seq_lib::group_to_multiset_ensures;
    broadcast use vstd::multiset::group_multiset_axioms;

    assert forall|e: Seq<(Seq<FrameModel>, u64)>, x: (Seq<FrameModel>, u64)|
        distinct_stacks(e) implies #[trigger] e.contains(x) == (position(e, x.0) is Some && count_of(e, x.0) == x.1) by {
        if e.contains(x) {
            let i = choose|i: int| 0 <= i < e.len() && e[i] == x;
            let j = position(e, x.0)->0;
            assert(e[j].0 == x.0);
            if i != j {
                if i < j {
                    assert(e[i].0 != e[j].0);
                } else {
                    assert(e[j].0 != e[i].0);
                }
            }
        }
        if position(e, x.0) is Some && count_of(e, x.0) == x.1 {
            let j = position(e, x.0)->0;
            assert(e[j] == x);
        }
    }
    assert forall|e: Seq<(Seq<FrameModel>, u64)>| distinct_stacks(e) implies #[trigger] e.no_duplicates() by {
        assert forall|i: int, j: int| 0 <= i < e.len() && 0 <= j < e.len() && i != j implies e[i] != e[j] by {
            if i < j {
                assert(e[i].0 != e[j].0);
            } else {
                assert(e[j].0 != e[i].0);
            }
        }
    }
    assert(e1.no_duplicates() && e2.no_duplicates());
    e1.lemma_multiset_has_no_duplicates();
    e2.lemma_multiset_has_no_duplicates();
    assert forall|x: (Seq<FrameModel>, u64)| e1.to_multiset().count(x) == e2.to_multiset().count(x) by {
        assert(e1.contains(x) == e2.contains(x));
    }
    assert(e1.to_multiset() =~= e2.to_multiset());
}

/// Mapping two sequences with the same elements gives two sequences with the
/// same elements.
proof fn lemma_map_values_multiset<A, B>(a: Seq<A>, b: Seq<A>, f: spec_fn(A) -> B)
    requires
        a.to_multiset() == b.to_multiset(),
    ensures
        a.map_values(f).to_multiset() == b.map_values(f).to_multiset(),
    decreases a.len(),
{
    broadcast use vstd::seq_lib::group_to_multiset_ensures;
    broadcast use vstd::multiset::group_multiset_axioms;

    if a.len() == 0 {
        assert(a.to_multiset().len() == a.len());
        assert(b.to_multiset().len() == b.len());
        assert(b.len() == 0);
        assert(a.map_values(f) =~= Seq::<B>::empty());
        assert(b.map_values(f) =~= Seq::<B>::empty());
    } else {
        let x = a.last();
        let a2 = a.drop_last();
        assert(a =~= a2.push(x));
        assert(a.to_multiset() == a2.to_multiset().insert(x));
        assert(b.to_multiset().count(x) > 0);
        assert(b.contains(x));
        let i = choose|i: int| 0 <= i < b.len() && b[i] == x;
        let b2 = b.remove(i);
        assert(b2.to_multiset() == b.to_multiset().remove(x));
        assert(b2.to_multiset() =~= a2.to_multiset());
        lemma_map_values_multiset(a2, b2, f);
        let am = a.map_values(f);
        let bm = b.map_values(f);
        assert(am =~= a2.map_values(f).push(f(x)));
        assert(bm.remove(i) =~= b2.map_values(f));
        assert(bm[i] == f(x));
        assert(bm.remove(i).to_multiset() == bm.to_multiset().remove(f(x)));
        assert(bm.to_multiset().count(f(x)) > 0) by {
            assert(bm.contains(f(x)));
        }
        assert(am.to_multiset() =~= bm.to_multiset());
    }
}

/// Adding the same samples in any order gives the same folded output: when
/// two sequences of adds hold the same `(stack, count)` pairs, each as often,
/// the sorted folded lines of the two aggregators are equal, and so are the
/// bytes `write_folded` writes.
pub proof fn law_add_order_irrelevant(
    adds1: Seq<(Seq<FrameModel>, u64)>,
    adds2: Seq<(Seq<FrameModel>, u64)>,
    sorted1: Seq<(Seq<char>, u64)>,
    sorted2: Seq<(Seq<char>, u64)>,
)
    requires
        adds1.to_multiset() == adds2.to_multiset(),
        forall|s: Seq<FrameModel>| #[trigger] samples_of(adds1, s) <= u64::MAX,
        is_sorting_of(sorted1, folded_lines(fed(adds1))),
        is_sorting_of(sorted2, folded_lines(fed(adds2))),
    ensures
        sorted1 == sorted2,
{
    broadcast use vstd::seq_lib::group_to_multiset_ensures;

    assert forall|s: Seq<FrameModel>| #[trigger] samples_of(adds1, s) == samples_of(adds2, s) by {
        let f = sample_step(s);
        assert(vstd::seq_lib::commutative_foldl(f));
        vstd::seq_lib::lemma_fold_left_permutation(adds1, adds2, f, 0nat);
    }
    assert forall|s: Seq<FrameModel>| #[trigger] adds_stack(adds1, s) == adds_stack(adds2, s) by {
        if adds_stack(adds1, s) {
            let i = choose|i: int| 0 <= i < adds1.len() && #[trigger] adds1[i].0 == s;
            assert(adds1.contains(adds1[i]));
            assert(adds1.to_multiset().count(adds1[i]) > 0);
            assert(adds2.to_multiset().count(adds1[i]) > 0);
            assert(adds2.contains(adds1[i]));
            let j = choose|j: int| 0 <= j < adds2.len() && adds2[j] == adds1[i];
            assert(adds2[j].0 == s);
        }
        if adds_stack(adds2, s) {
            let j = choose|j: int| 0 <= j < adds2.len() && #[trigger] adds2[j].0 == s;
            assert(adds2.contains(adds2[j]));
            assert(adds2.to_multiset().count(adds2[j]) > 0);
            assert(adds1.to_multiset().count(adds2[j]) > 0);
            assert(adds1.contains(adds2[j]));
            let i = choose|i: int| 0 <= i < adds1.len() && adds1[i] == adds2[j];
            assert(adds1[i].0 == s);
        }
    }
    assert forall|s: Seq<FrameModel>| #[trigger] samples_of(adds2, s) <= u64::MAX by {
        assert(samples_of(adds1, s) == samples_of(adds2, s));
    }
    lemma_fed(adds1);
    lemma_fed(adds2);
    let e1 = fed(adds1);
    let e2 = fed(adds2);
    assert forall|s: Seq<FrameModel>| #[trigger] count_of(e1, s) == count_of(e2, s) by {
        assert(samples_of(adds1, s) == samples_of(adds2, s));
    }
    assert forall|s: Seq<FrameModel>| (#[trigger] position(e1, s) is Some) == (position(e2, s) is Some) by {
        assert(adds_stack(adds1, s) == adds_stack(adds2, s));
    }
    lemma_same_entries(e1, e2);
    lemma_map_values_multiset(e1, e2, |x: (Seq<FrameModel>, u64)| (stack_chain(x.0), x.1));
    assert(folded_lines(e1) == e1.map_values(|x: (Seq<FrameModel>, u64)| (stack_chain(x.0), x.1)));
    law_sorting_unique(sorted1, sorted2, folded_lines(e1), folded_lines(e2));
}

} // verus!
