//! Flame-graph trees built from aggregated stacks, and the parts of SVG
//! rendering that involve no floating point: which frames are drawn in
//! which order and at which depth, their colours and their escaped labels.

use vstd::prelude::*;

use crate::assoc::{key_index, lemma_key_index};
use crate::folded::{entry_models, lemma_total_prefix, total_of, Aggregator};
use crate::symbolize::{frame_models, Frame, FrameKind, FrameModel};
use crate::symtab::shifted_positions;

verus! {

/// A flame-graph node: a frame, the number of samples whose stack passes
/// through it, and its children, one per distinct next frame.
pub struct FlameNode {
    pub name: String,
    pub kind: FrameKind,
    pub value: u64,
    pub children: Vec<FlameNode>,
}

/// What identifies a node among its siblings: its label and layer.
pub open spec fn node_key(n: FlameNode) -> (Seq<char>, FrameKind) {
    (n.name@, n.kind)
}

/// What identifies the node a frame goes to.
pub open spec fn frame_key(f: FrameModel) -> (Seq<char>, FrameKind) {
    (f.label(), f.kind())
}

/// The keys of a stack's frames.
pub open spec fn stack_keys(stack: Seq<FrameModel>) -> Seq<(Seq<char>, FrameKind)> {
    stack.map_values(|f: FrameModel| frame_key(f))
}

/// The keys of a node's children, in order.
pub open spec fn child_keys(n: FlameNode) -> Seq<(Seq<char>, FrameKind)> {
    n.children@.map_values(|c: FlameNode| node_key(c))
}

/// Children are distinct by key, at every level.
pub open spec fn well_formed(n: FlameNode) -> bool
    decreases n,
{
    &&& child_keys(n).no_duplicates()
    &&& forall|i: int| 0 <= i < n.children@.len() ==> well_formed(#[trigger] n.children@[i])
}


/// The node reached from `n` by following the child keys of `p`, if any.
pub open spec fn node_at(n: FlameNode, p: Seq<(Seq<char>, FrameKind)>) -> Option<FlameNode>
    decreases p.len(),
{
    if p.len() == 0 {
        Some(n)
    } else {
        match key_index(child_keys(n), p[0]) {
            Some(i) => node_at(n.children@[i], p.drop_first()),
            None => None,
        }
    }
}

/// The value of the node at path `p`, zero when there is none.
pub open spec fn value_at(n: FlameNode, p: Seq<(Seq<char>, FrameKind)>) -> nat {
    match node_at(n, p) {
        Some(m) => m.value as nat,
        None => 0,
    }
}

/// The child keys of the node at path `p`, none when there is no node.
pub open spec fn keys_at(n: FlameNode, p: Seq<(Seq<char>, FrameKind)>) -> Seq<(Seq<char>, FrameKind)> {
    match node_at(n, p) {
        Some(m) => child_keys(m),
        None => seq![],
    }
}

/// `p` is a prefix of `keys`.
pub open spec fn is_key_prefix(p: Seq<(Seq<char>, FrameKind)>, keys: Seq<(Seq<char>, FrameKind)>) -> bool {
    p.len() <= keys.len() && p == keys.take(p.len() as int)
}

/// The child keys at path `p` after a stack with keys `keys` is merged in:
/// the key that continues the stack is appended when it is new.
pub open spec fn merged_keys(
    old_keys: Seq<(Seq<char>, FrameKind)>,
    p: Seq<(Seq<char>, FrameKind)>,
    keys: Seq<(Seq<char>, FrameKind)>,
) -> Seq<(Seq<char>, FrameKind)> {
    if is_key_prefix(p, keys) && p.len() < keys.len() && !old_keys.contains(keys[p.len() as int]) {
        old_keys.push(keys[p.len() as int])
    } else {
        old_keys
    }
}

/// Merges the frames from `start` on into the subtree of `node`, adding
/// `count` to the value of every node along their path (but not to `node`
/// itself), creating missing nodes as new last children.
fn insert(node: &mut FlameNode, frames: &Vec<Frame>, start: usize, count: u64)
    requires
        well_formed(*old(node)),
        start <= frames@.len(),
        forall|p: Seq<(Seq<char>, FrameKind)>|
            p.len() >= 1 && is_key_prefix(p, stack_keys(frame_models(frames@)).skip(start as int))
                ==> #[trigger] value_at(*old(node), p) + count <= u64::MAX,
    ensures
        well_formed(*final(node)),
        node_key(*final(node)) == node_key(*old(node)),
        final(node).value == old(node).value,
        forall|p: Seq<(Seq<char>, FrameKind)>|
            (#[trigger] node_at(*final(node), p) is Some) == (node_at(*old(node), p) is Some
                || is_key_prefix(p, stack_keys(frame_models(frames@)).skip(start as int))),
        forall|p: Seq<(Seq<char>, FrameKind)>|
            #[trigger] value_at(*final(node), p) == value_at(*old(node), p) + if p.len() >= 1
                && is_key_prefix(p, stack_keys(frame_models(frames@)).skip(start as int)) {
                count as nat
            } else {
                0
            },
        forall|p: Seq<(Seq<char>, FrameKind)>|
            #[trigger] keys_at(*final(node), p) == merged_keys(
                keys_at(*old(node), p),
                p,
                stack_keys(frame_models(frames@)).skip(start as int),
            ),
    decreases frames@.len() - start,
{
    let ghost keys = stack_keys(frame_models(frames@)).skip(start as int);
    if start == frames.len() {
        assert forall|p: Seq<(Seq<char>, FrameKind)>| #[trigger] is_key_prefix(p, keys) implies p.len() == 0 by {}
        return;
    }
    let label = frames[start].label();
    let kind = frames[start].kind();
    let ghost k0 = (label@, kind);
    let ghost keys2 = stack_keys(frame_models(frames@)).skip(start + 1);
    assert(keys[0] == k0);
    assert(keys2 =~= keys.drop_first());
    let ghost old_n = *node;
    let ghost ck = child_keys(*node);
    let n = node.children.len();
    let mut i: usize = 0;
    let mut found = false;
    while i < n && !found
        invariant
            n == node.children@.len(),
            ck == child_keys(*node),
            *node == old_n,
            i <= n,
            k0 == (label@, kind),
            found ==> i < n && ck[i as int] == k0,
            forall|j: int| 0 <= j < i ==> #[trigger] ck[j] != k0,
        decreases n - i + if found { 0int } else { 1int },
    {
        assert(ck[i as int] == node_key(node.children@[i as int]));
        let same_name = node.children[i].name.eq(&label);
        let same_kind = node.children[i].kind == kind;
        assert(same_name == (node.children@[i as int].name@ == label@));
        assert(same_kind == (node.children@[i as int].kind == kind));
        if same_name && same_kind {
            found = true;
        } else {
            i = i + 1;
        }
    }
    if found {
        assert(ck[i as int] == node_key(node.children@[i as int]));
        assert(ck[i as int] == k0);
        proof {
            lemma_key_index(ck, k0, i as int);
        }
    } else {
        assert(!ck.contains(k0));
        node.children.push(FlameNode { name: label, kind, value: 0, children: Vec::new() });
        assert(child_keys(*node) =~= ck.push(k0));
    }
    let ghost mid = *node;
    let ghost mk = child_keys(mid);
    assert(mk.no_duplicates()) by {
        if !found {
            assert forall|a: int, b: int| 0 <= a < mk.len() && 0 <= b < mk.len() && a != b implies mk[a] != mk[b] by {
                if a < ck.len() && b < ck.len() {
                    assert(ck[a] != ck[b]);
                } else if a < ck.len() {
                    assert(ck[a] != k0);
                } else if b < ck.len() {
                    assert(ck[b] != k0);
                }
            }
        }
    }
    proof {
        lemma_key_index(mk, k0, i as int);
    }
    let mut child = node.children.remove(i);
    let ghost c0 = child;
    assert(c0 == mid.children@[i as int]);
    assert(well_formed(c0)) by {
        if found {
            assert(mid.children@[i as int] == old_n.children@[i as int]);
        }
    }
    assert(node_key(c0) == k0);
    // the path to the child within the old tree
    assert(found ==> node_at(old_n, seq![k0]) == Some(c0)) by {
        if found {
            assert(seq![k0][0] == k0);
            assert(seq![k0].drop_first() =~= Seq::<(Seq<char>, FrameKind)>::empty());
            assert(node_at(old_n.children@[i as int], seq![k0].drop_first()) == Some(
                old_n.children@[i as int],
            ));
            assert(mid.children@[i as int] == old_n.children@[i as int]);
        }
    }
    assert(value_at(old_n, seq![k0]) + count <= u64::MAX) by {
        assert(is_key_prefix(seq![k0], keys)) by {
            assert(keys.take(1) =~= seq![k0]);
        }
    }
    assert forall|q: Seq<(Seq<char>, FrameKind)>| q.len() >= 0 implies #[trigger] node_at(c0, q) == if found {
        node_at(old_n, seq![k0] + q)
    } else if q.len() == 0 {
        Some(c0)
    } else {
        None::<FlameNode>
    } by {
        let p = seq![k0] + q;
        assert(p[0] == k0);
        assert(p.drop_first() =~= q);
        if found {
            assert(mid.children@[i as int] == old_n.children@[i as int]);
        } else if q.len() > 0 {
            assert(child_keys(c0) =~= Seq::<(Seq<char>, FrameKind)>::empty());
        }
    }
    child.value = child.value + count;
    let ghost c1 = child;
    assert forall|q: Seq<(Seq<char>, FrameKind)>| q.len() >= 1 implies #[trigger] node_at(c1, q) == node_at(c0, q) by {
        assert(child_keys(c1) == child_keys(c0));
    }
    assert forall|q: Seq<(Seq<char>, FrameKind)>|
        q.len() >= 1 && is_key_prefix(q, keys2) implies #[trigger] value_at(c1, q) + count <= u64::MAX by {
        let p = seq![k0] + q;
        assert(p.drop_first() =~= q);
        assert(is_key_prefix(p, keys)) by {
            assert(keys.take(p.len() as int) =~= seq![k0] + keys2.take(q.len() as int));
        }
        assert(node_at(c1, q) == node_at(c0, q));
        if !found {
            assert(value_at(c1, q) == 0);
        } else {
            assert(value_at(c1, q) == value_at(old_n, p));
        }
    }
    assert(well_formed(c1)) by {
        assert(child_keys(c1) == child_keys(c0));
        assert forall|j: int| 0 <= j < c1.children@.len() implies well_formed(#[trigger] c1.children@[j]) by {
            assert(c1.children@[j] == c0.children@[j]);
        }
    }
    insert(&mut child, frames, start + 1, count);
    let ghost c2 = child;
    node.children.insert(i, child);
    assert(node.children@ =~= mid.children@.update(i as int, c2));
    assert(child_keys(*node) =~= mk);
    let ghost fin = *node;
    assert(well_formed(fin)) by {
        assert forall|j: int| 0 <= j < fin.children@.len() implies well_formed(#[trigger] fin.children@[j]) by {
            if j != i {
                assert(fin.children@[j] == mid.children@[j]);
                if j < ck.len() {
                    assert(mid.children@[j] == old_n.children@[j]);
                }
            }
        }
    }
    assert forall|p: Seq<(Seq<char>, FrameKind)>| p.len() >= 1 implies {
        &&& (#[trigger] node_at(fin, p) is Some) == (node_at(old_n, p) is Some || is_key_prefix(p, keys))
        &&& value_at(fin, p) == value_at(old_n, p) + if is_key_prefix(p, keys) { count as nat } else { 0 }
        &&& keys_at(fin, p) == merged_keys(keys_at(old_n, p), p, keys)
    } by {
        let q = p.drop_first();
        if p[0] == k0 {
            assert(node_at(fin, p) == node_at(c2, q));
            assert(p =~= seq![k0] + q);
            assert(is_key_prefix(p, keys) == is_key_prefix(q, keys2)) by {
                if is_key_prefix(q, keys2) {
                    assert(keys.take(p.len() as int) =~= seq![k0] + keys2.take(q.len() as int));
                }
                if is_key_prefix(p, keys) {
                    assert(keys2.take(q.len() as int) =~= keys.take(p.len() as int).drop_first());
                }
            }
            assert(node_at(c2, q) is Some == (node_at(c1, q) is Some || is_key_prefix(q, keys2)));
            assert(value_at(c2, q) == value_at(c1, q) + if q.len() >= 1 && is_key_prefix(q, keys2) {
                count as nat
            } else {
                0
            });
            assert(keys_at(c2, q) == merged_keys(keys_at(c1, q), q, keys2));
            if q.len() == 0 {
                assert(keys2.take(0) =~= q);
                assert(is_key_prefix(q, keys2));
                assert(node_at(c1, q) == Some(c1));
                assert(node_at(c0, q) == Some(c0));
                assert(keys_at(c1, q) == keys_at(c0, q));
            } else {
                assert(node_at(c1, q) == node_at(c0, q));
            }
            if found {
                assert(node_at(c0, q) == node_at(old_n, p));
            } else {
                assert(node_at(old_n, p) is None) by {
                    assert(key_index(ck, k0) is None);
                }
            }
            assert(merged_keys(keys_at(c1, q), q, keys2) == merged_keys(keys_at(old_n, p), p, keys)) by {
                assert(keys_at(c1, q) == keys_at(old_n, p));
                if is_key_prefix(q, keys2) && q.len() < keys2.len() {
                    assert(keys2[q.len() as int] == keys[p.len() as int]);
                }
            }
        } else {
            assert(!is_key_prefix(p, keys)) by {
                if is_key_prefix(p, keys) {
                    assert(keys.take(p.len() as int)[0] == keys[0]);
                }
            }
            let fk = child_keys(fin);
            assert(fk == mk);
            if exists|j: int| 0 <= j < ck.len() && #[trigger] ck[j] == p[0] {
                let j = choose|j: int| 0 <= j < ck.len() && #[trigger] ck[j] == p[0];
                lemma_key_index(ck, p[0], j);
                assert(mk[j] == ck[j]);
                lemma_key_index(mk, p[0], j);
                assert(j != i);
                assert(fin.children@[j] == old_n.children@[j]);
            } else {
                assert forall|j: int| 0 <= j < fk.len() implies #[trigger] fk[j] != p[0] by {
                    if j < ck.len() {
                        assert(fk[j] == ck[j]);
                    }
                }
            }
        }
    }
    assert(node_at(fin, Seq::<(Seq<char>, FrameKind)>::empty()) == Some(fin));
    assert(keys_at(fin, Seq::<(Seq<char>, FrameKind)>::empty()) == merged_keys(
        keys_at(old_n, Seq::<(Seq<char>, FrameKind)>::empty()),
        Seq::<(Seq<char>, FrameKind)>::empty(),
        keys,
    )) by {
        let e = Seq::<(Seq<char>, FrameKind)>::empty();
        assert(is_key_prefix(e, keys)) by {
            assert(keys.take(0) =~= e);
        }
        if found {
            assert(ck.contains(k0)) by {
                assert(ck[i as int] == k0);
            }
        }
    }
    assert forall|p: Seq<(Seq<char>, FrameKind)>| true implies {
        &&& (#[trigger] node_at(fin, p) is Some) == (node_at(old_n, p) is Some || is_key_prefix(p, keys))
        &&& value_at(fin, p) == value_at(old_n, p) + if p.len() >= 1 && is_key_prefix(p, keys) { count as nat } else { 0 }
        &&& keys_at(fin, p) == merged_keys(keys_at(old_n, p), p, keys)
    } by {
        if p.len() == 0 {
            assert(p =~= Seq::<(Seq<char>, FrameKind)>::empty());
        }
    }
}


/// The number of samples whose stack passes through path `p`: the sum of
/// the counts of the stacks that `p` is a prefix of.
pub open spec fn prefix_total(e: Seq<(Seq<FrameModel>, u64)>, p: Seq<(Seq<char>, FrameKind)>) -> nat
    decreases e.len(),
{
    if e.len() == 0 {
        0
    } else {
        prefix_total(e.drop_last(), p) + if is_key_prefix(p, stack_keys(e.last().0)) {
            e.last().1 as nat
        } else {
            0
        }
    }
}

/// Some stack among the entries has `p` as a prefix.
pub open spec fn reached(e: Seq<(Seq<FrameModel>, u64)>, p: Seq<(Seq<char>, FrameKind)>) -> bool {
    exists|i: int| 0 <= i < e.len() && is_key_prefix(p, stack_keys(#[trigger] e[i].0))
}

/// A prefix total is at most the total.
pub proof fn lemma_prefix_total_bound(e: Seq<(Seq<FrameModel>, u64)>, p: Seq<(Seq<char>, FrameKind)>)
    ensures
        prefix_total(e, p) <= total_of(e),
    decreases e.len(),
{
    if e.len() > 0 {
        lemma_prefix_total_bound(e.drop_last(), p);
    }
}

/// The children of `m` are the keys of `reference`, each once, ordered by
/// value, largest first, and among equal values in the order of `reference`.
pub open spec fn ordered_children(m: FlameNode, reference: Seq<(Seq<char>, FrameKind)>) -> bool {
    let ks = child_keys(m);
    &&& ks.len() == reference.len()
    &&& forall|k: (Seq<char>, FrameKind)| #[trigger] ks.contains(k) == reference.contains(k)
    &&& forall|i: int, j: int|
        0 <= i < j < ks.len() ==> #[trigger] m.children@[i].value > #[trigger] m.children@[j].value
            || (m.children@[i].value == m.children@[j].value && key_index(reference, ks[i])->0
            < key_index(reference, ks[j])->0)
}

/// `b` is `a` with the children of every node put in order of value: the
/// same nodes at the same paths with the same values, and each node's
/// children ordered by value, largest first, ties kept in their order in `a`.
pub open spec fn reordered(a: FlameNode, b: FlameNode) -> bool {
    &&& well_formed(b)
    &&& node_key(b) == node_key(a)
    &&& b.value == a.value
    &&& forall|p: Seq<(Seq<char>, FrameKind)>| (#[trigger] node_at(b, p) is Some) == (node_at(a, p) is Some)
    &&& forall|p: Seq<(Seq<char>, FrameKind)>| #[trigger] value_at(b, p) == value_at(a, p)
    &&& forall|p: Seq<(Seq<char>, FrameKind)>|
        #[trigger] keys_at(a, p) == keys_at(a, p) && node_at(b, p) is Some ==> ordered_children(
            node_at(b, p)->0,
            keys_at(a, p),
        )
}

/// Orders the children of every node of the subtree by value, largest
/// first, keeping the earlier child first among equal values.
fn sort_children(node: &mut FlameNode)
    requires
        well_formed(*old(node)),
    ensures
        reordered(*old(node), *final(node)),
    decreases *old(node),
{
    let ghost old_n = *node;
    let ghost ck = child_keys(old_n);
    let mut kids: Vec<FlameNode> = Vec::new();
    std::mem::swap(&mut kids, &mut node.children);
    let n = kids.len();
    let mut sorted: Vec<FlameNode> = Vec::new();
    let ghost mut perm: Seq<int> = seq![];
    let ghost mut pos: Seq<int> = seq![];
    let mut i: usize = 0;
    while i < n
        invariant
            n == old_n.children@.len(),
            i <= n,
            kids@ == old_n.children@.skip(i as int),
            old_n == *old(node),
            well_formed(old_n),
            ck == child_keys(old_n),
            sorted@.len() == i,
            perm.len() == i,
            pos.len() == i,
            forall|j: int| 0 <= j < i ==> 0 <= #[trigger] perm[j] < i && pos[perm[j]] == j,
            forall|m: int| 0 <= m < i ==> 0 <= #[trigger] pos[m] < i && perm[pos[m]] == m,
            forall|j: int| 0 <= j < i ==> reordered(old_n.children@[perm[j]], #[trigger] sorted@[j]),
            forall|a: int, b: int|
                0 <= a < b < i ==> #[trigger] sorted@[a].value > #[trigger] sorted@[b].value || (
                sorted@[a].value == sorted@[b].value && perm[a] < perm[b]),
        decreases n - i,
    {
        assert(kids@[0] == old_n.children@[i as int]);
        let mut c = kids.remove(0);
        assert(kids@ =~= old_n.children@.skip(i + 1));
        assert(well_formed(c));
        assert(decreases_to!(*old(node) => c));
        sort_children(&mut c);
        let v = c.value;
        let mut p: usize = 0;
        while p < sorted.len() && sorted[p].value >= v
            invariant
                p <= sorted@.len(),
                forall|a: int| 0 <= a < p ==> #[trigger] sorted@[a].value >= v,
            decreases sorted@.len() - p,
        {
            p = p + 1;
        }
        assert forall|a: int| p <= a < sorted@.len() implies #[trigger] sorted@[a].value < v by {
            if a > p {
                assert(sorted@[p as int].value > sorted@[a].value || sorted@[p as int].value
                    == sorted@[a].value);
            }
        }
        let ghost before = sorted@;
        let ghost old_perm = perm;
        let ghost old_pos = pos;
        sorted.insert(p, c);
        proof {
            perm = old_perm.insert(p as int, i as int);
            pos = shifted_positions(old_pos, p as int);
            assert forall|j: int| 0 <= j < i + 1 implies 0 <= #[trigger] perm[j] < i + 1 && pos[perm[j]]
                == j by {
                if j < p {
                    assert(perm[j] == old_perm[j]);
                } else if j > p {
                    assert(perm[j] == old_perm[j - 1]);
                }
            }
            assert forall|m: int| 0 <= m < i + 1 implies 0 <= #[trigger] pos[m] < i + 1 && perm[pos[m]]
                == m by {
                if m < i {
                    if old_pos[m] >= p {
                        assert(perm[old_pos[m] + 1] == old_perm[old_pos[m]]);
                    } else {
                        assert(perm[old_pos[m]] == old_perm[old_pos[m]]);
                    }
                }
            }
            assert forall|j: int| 0 <= j < i + 1 implies reordered(
                old_n.children@[perm[j]],
                #[trigger] sorted@[j],
            ) by {
                if j < p {
                    assert(sorted@[j] == before[j] && perm[j] == old_perm[j]);
                } else if j > p {
                    assert(sorted@[j] == before[j - 1] && perm[j] == old_perm[j - 1]);
                }
            }
            assert forall|a: int, b: int| 0 <= a < b < i + 1 implies #[trigger] sorted@[a].value
                > #[trigger] sorted@[b].value || (sorted@[a].value == sorted@[b].value && perm[a]
                < perm[b]) by {
                if b < p {
                    assert(sorted@[a] == before[a] && sorted@[b] == before[b]);
                } else if b == p {
                    assert(sorted@[a] == before[a]);
                } else if a < p {
                    assert(sorted@[a] == before[a] && sorted@[b] == before[b - 1]);
                } else if a == p {
                    assert(sorted@[b] == before[b - 1]);
                } else {
                    assert(sorted@[a] == before[a - 1] && sorted@[b] == before[b - 1]);
                }
            }
        }
        i = i + 1;
    }
    node.children = sorted;
    proof {
        lemma_reordered_children(old_n, *node, perm, pos);
    }
}

/// A node whose children are those of `a`, each reordered, placed by the
/// permutation `perm` (with inverse `pos`) that orders them by value, is `a`
/// reordered.
proof fn lemma_reordered_children(a: FlameNode, b: FlameNode, perm: Seq<int>, pos: Seq<int>)
    requires
        well_formed(a),
        node_key(b) == node_key(a),
        b.value == a.value,
        b.children@.len() == a.children@.len(),
        perm.len() == a.children@.len(),
        pos.len() == a.children@.len(),
        forall|j: int| 0 <= j < perm.len() ==> 0 <= #[trigger] perm[j] < perm.len() && pos[perm[j]] == j,
        forall|m: int| 0 <= m < pos.len() ==> 0 <= #[trigger] pos[m] < pos.len() && perm[pos[m]] == m,
        forall|j: int| 0 <= j < perm.len() ==> reordered(a.children@[perm[j]], #[trigger] b.children@[j]),
        forall|x: int, y: int|
            0 <= x < y < perm.len() ==> #[trigger] b.children@[x].value > #[trigger] b.children@[y].value
                || (b.children@[x].value == b.children@[y].value && perm[x] < perm[y]),
    ensures
        reordered(a, b),
{
    let n = perm.len();
    let ck = child_keys(a);
    let fk = child_keys(b);
    assert forall|j: int| 0 <= j < n implies #[trigger] fk[j] == ck[perm[j]] by {
        assert(reordered(a.children@[perm[j]], b.children@[j]));
    }
    assert(fk.no_duplicates()) by {
        assert forall|x: int, y: int| 0 <= x < fk.len() && 0 <= y < fk.len() && x != y implies fk[x]
            != fk[y] by {
            assert(fk[x] == ck[perm[x]] && fk[y] == ck[perm[y]]);
            assert(perm[x] != perm[y]) by {
                if perm[x] == perm[y] {
                    assert(pos[perm[x]] == x && pos[perm[y]] == y);
                }
            }
        }
    }
    assert(well_formed(b)) by {
        assert forall|j: int| 0 <= j < b.children@.len() implies well_formed(#[trigger] b.children@[j]) by {
            assert(reordered(a.children@[perm[j]], b.children@[j]));
        }
    }
    assert forall|p: Seq<(Seq<char>, FrameKind)>| p.len() >= 1 implies {
        &&& (#[trigger] node_at(b, p) is Some) == (node_at(a, p) is Some)
        &&& value_at(b, p) == value_at(a, p)
        &&& (node_at(b, p) is Some ==> ordered_children(node_at(b, p)->0, keys_at(a, p)))
    } by {
        let k = p[0];
        let q = p.drop_first();
        match key_index(ck, k) {
            Some(m) => {
                assert(0 <= m < n && ck[m] == k);
                assert(fk[pos[m]] == k);
                lemma_key_index(fk, k, pos[m]);
                let r = a.children@[m];
                let t = b.children@[pos[m]];
                assert(reordered(a.children@[perm[pos[m]]], t));
                assert(node_at(b, p) == node_at(t, q));
                assert(node_at(a, p) == node_at(r, q));
                assert(node_at(t, q) is Some == node_at(r, q) is Some);
                assert(value_at(t, q) == value_at(r, q));
                assert(keys_at(r, q) == keys_at(r, q));
                assert(keys_at(a, p) == keys_at(r, q));
            },
            None => {
                assert(node_at(a, p) is None);
                assert forall|j: int| 0 <= j < n implies #[trigger] fk[j] != k by {
                    if fk[j] == k {
                        assert(ck[perm[j]] == k);
                    }
                }
                assert(key_index(fk, k) is None);
                assert(node_at(b, p) is None);
            },
        }
    }
    let e = Seq::<(Seq<char>, FrameKind)>::empty();
    assert(node_at(b, e) == Some(b));
    assert(node_at(a, e) == Some(a));
    assert(keys_at(a, e) == ck);
    assert(ordered_children(b, ck)) by {
        assert forall|k: (Seq<char>, FrameKind)| #[trigger] fk.contains(k) == ck.contains(k) by {
            if fk.contains(k) {
                let j = choose|j: int| 0 <= j < fk.len() && fk[j] == k;
                assert(ck[perm[j]] == k);
            }
            if ck.contains(k) {
                let m = choose|m: int| 0 <= m < ck.len() && ck[m] == k;
                assert(fk[pos[m]] == k);
            }
        }
        assert forall|x: int, y: int| 0 <= x < y < fk.len() implies #[trigger] b.children@[x].value
            > #[trigger] b.children@[y].value || (b.children@[x].value == b.children@[y].value
            && key_index(ck, fk[x])->0 < key_index(ck, fk[y])->0) by {
            lemma_key_index(ck, fk[x], perm[x]);
            lemma_key_index(ck, fk[y], perm[y]);
        }
    }
    assert forall|p: Seq<(Seq<char>, FrameKind)>| #[trigger] keys_at(a, p) == keys_at(a, p) && node_at(b, p) is Some
        implies ordered_children(node_at(b, p)->0, keys_at(a, p)) by {
        if p.len() == 0 {
            assert(p =~= e);
        }
    }
    assert forall|p: Seq<(Seq<char>, FrameKind)>| (#[trigger] node_at(b, p) is Some) == (node_at(a, p) is Some) by {
        if p.len() == 0 {
            assert(p =~= e);
        }
    }
    assert forall|p: Seq<(Seq<char>, FrameKind)>| #[trigger] value_at(b, p) == value_at(a, p) by {
        if p.len() == 0 {
            assert(p =~= e);
        }
    }
}

/// The child keys at path `p` after the stacks of the entries are merged in
/// order into an empty tree: each new key is appended, so children come in
/// order of first appearance.
pub open spec fn keys_after(e: Seq<(Seq<FrameModel>, u64)>, p: Seq<(Seq<char>, FrameKind)>) -> Seq<
    (Seq<char>, FrameKind),
>
    decreases e.len(),
{
    if e.len() == 0 {
        seq![]
    } else {
        merged_keys(keys_after(e.drop_last(), p), p, stack_keys(e.last().0))
    }
}

/// Builds the flame-graph tree of the aggregated stacks: a root `all`
/// holding the total, and below it one node per distinct stack prefix whose
/// value is the number of samples whose stack starts with that prefix. Each
/// node's children are sorted by value, largest first, so that the same
/// aggregate always gives the same left-to-right order; children of equal
/// value keep the order in which their frames first appeared.
pub fn build_tree(agg: &Aggregator) -> (t: FlameNode)
    requires
        total_of(agg@) <= u64::MAX,
    ensures
        well_formed(t),
        t.name@ == "all"@,
        t.kind == FrameKind::Unknown,
        t.value == total_of(agg@),
        forall|p: Seq<(Seq<char>, FrameKind)>|
            p.len() >= 1 ==> #[trigger] value_at(t, p) == prefix_total(agg@, p),
        forall|p: Seq<(Seq<char>, FrameKind)>|
            p.len() >= 1 ==> ((#[trigger] node_at(t, p) is Some) == reached(agg@, p)),
        forall|p: Seq<(Seq<char>, FrameKind)>|
            #[trigger] node_at(t, p) is Some ==> ordered_children(node_at(t, p)->0, keys_after(agg@, p)),
{
    let entries = agg.iter();
    let ghost e = agg@;
    let mut root = FlameNode {
        name: "all".to_owned(),
        kind: FrameKind::Unknown,
        value: 0,
        children: Vec::new(),
    };
    assert(child_keys(root) =~= Seq::<(Seq<char>, FrameKind)>::empty());
    assert forall|p: Seq<(Seq<char>, FrameKind)>| p.len() >= 1 implies #[trigger] node_at(root, p) is None by {
        assert(key_index(child_keys(root), p[0]) is None);
    }
    let mut i: usize = 0;
    while i < entries.len()
        invariant
            e == entry_models(entries@),
            total_of(e) <= u64::MAX,
            i <= e.len(),
            well_formed(root),
            root.name@ == "all"@,
            root.kind == FrameKind::Unknown,
            root.value == total_of(e.take(i as int)),
            forall|p: Seq<(Seq<char>, FrameKind)>|
                p.len() >= 1 ==> #[trigger] value_at(root, p) == prefix_total(e.take(i as int), p),
            forall|p: Seq<(Seq<char>, FrameKind)>|
                p.len() >= 1 ==> ((#[trigger] node_at(root, p) is Some) == reached(e.take(i as int), p)),
            forall|p: Seq<(Seq<char>, FrameKind)>| #[trigger] keys_at(root, p) == keys_after(e.take(i as int), p),
        decreases e.len() - i,
    {
        let frames = &entries[i].0;
        let count = entries[i].1;
        let ghost pre = e.take(i as int);
        let ghost post = e.take(i + 1);
        assert(post.drop_last() =~= pre);
        assert(post.last() == e[i as int]);
        assert(e[i as int] == (frame_models(frames@), count));
        proof {
            lemma_total_prefix(e, i + 1);
        }
        let ghost r0 = root;
        root.value = root.value + count;
        assert forall|p: Seq<(Seq<char>, FrameKind)>| p.len() >= 1 implies #[trigger] node_at(root, p) == node_at(r0, p) by {
            assert(child_keys(root) == child_keys(r0));
        }
        assert forall|p: Seq<(Seq<char>, FrameKind)>| p.len() >= 1 implies #[trigger] value_at(root, p) == prefix_total(pre, p)
            && (node_at(root, p) is Some) == reached(pre, p) by {
            assert(node_at(root, p) == node_at(r0, p));
            assert(value_at(r0, p) == prefix_total(pre, p));
            assert(node_at(r0, p) is Some == reached(pre, p));
        }
        assert(well_formed(root)) by {
            assert(child_keys(root) == child_keys(r0));
            assert forall|j: int| 0 <= j < root.children@.len() implies well_formed(#[trigger] root.children@[j]) by {
                assert(root.children@[j] == r0.children@[j]);
            }
        }
        assert forall|p: Seq<(Seq<char>, FrameKind)>| #[trigger] keys_at(root, p) == keys_after(pre, p) by {
            assert(keys_at(r0, p) == keys_after(pre, p));
            if p.len() == 0 {
                assert(child_keys(root) == child_keys(r0));
            } else {
                assert(node_at(root, p) == node_at(r0, p));
            }
        }
        let ghost keys = stack_keys(frame_models(frames@));
        assert(keys.skip(0) =~= keys);
        assert forall|p: Seq<(Seq<char>, FrameKind)>|
            p.len() >= 1 && is_key_prefix(p, keys.skip(0)) implies #[trigger] value_at(root, p) + count <= u64::MAX by {
            lemma_prefix_total_bound(pre, p);
            assert(value_at(root, p) == prefix_total(pre, p));
        }
        let ghost before = root;
        insert(&mut root, frames, 0, count);
        assert forall|p: Seq<(Seq<char>, FrameKind)>| #[trigger] keys_at(root, p) == keys_after(post, p) by {
            assert(keys_at(before, p) == keys_after(pre, p));
        }
        assert forall|p: Seq<(Seq<char>, FrameKind)>|
            #![trigger value_at(root, p)]
            #![trigger node_at(root, p)]
            p.len() >= 1 implies {
            &&& value_at(root, p) == prefix_total(post, p)
            &&& (node_at(root, p) is Some) == reached(post, p)
        } by {
            assert(value_at(before, p) == prefix_total(pre, p));
            assert(node_at(before, p) is Some == reached(pre, p));
            if reached(pre, p) {
                let j = choose|j: int| 0 <= j < pre.len() && is_key_prefix(p, stack_keys(#[trigger] pre[j].0));
                assert(post[j] == pre[j]);
            }
            if reached(post, p) {
                let j = choose|j: int| 0 <= j < post.len() && is_key_prefix(p, stack_keys(#[trigger] post[j].0));
                if j < pre.len() {
                    assert(post[j] == pre[j]);
                }
            }
            if is_key_prefix(p, keys) {
                assert(is_key_prefix(p, stack_keys(post[i as int].0)));
            }
        }
        i = i + 1;
    }
    assert(e.take(e.len() as int) =~= e);
    let ghost unsorted = root;
    sort_children(&mut root);
    assert forall|p: Seq<(Seq<char>, FrameKind)>| #[trigger] node_at(root, p) is Some implies ordered_children(
        node_at(root, p)->0,
        keys_after(e, p),
    ) by {
        assert(keys_at(unsorted, p) == keys_after(e, p));
    }
    root
}


/// The depth of the tree below `n`: 0 for a leaf, else one more than the
/// deepest child.
pub open spec fn height(n: FlameNode) -> nat
    decreases n, 1nat, 0int,
{
    children_height(n, n.children@.len() as int)
}

/// One more than the largest height among the first `k` children of `n`,
/// or 0 when `k` is 0.
pub open spec fn children_height(n: FlameNode, k: int) -> nat
    decreases n, 0nat, k,
{
    if k <= 0 || k > n.children@.len() {
        0
    } else {
        let h = 1 + height(n.children@[k - 1]);
        let r = children_height(n, k - 1);
        if h > r {
            h
        } else {
            r
        }
    }
}

/// The depth of the deepest node below `node`.
pub fn max_depth(node: &FlameNode) -> (d: u32)
    requires
        height(*node) <= u32::MAX,
    ensures
        d == height(*node),
    decreases *node,
{
    let mut best: u32 = 0;
    let mut i: usize = 0;
    while i < node.children.len()
        invariant
            i <= node.children@.len(),
            height(*node) <= u32::MAX,
            best == children_height(*node, i as int),
        decreases node.children@.len() - i,
    {
        proof {
            lemma_children_height_monotone(*node, i + 1, node.children@.len() as int);
        }
        assert(children_height(*node, i + 1) <= height(*node));
        let c = 1 + max_depth(&node.children[i]);
        if c > best {
            best = c;
        }
        i = i + 1;
    }
    best
}

/// The depth of the deepest node below `node`, or `None` when it does not
/// fit in a `u32`.
pub fn checked_max_depth(node: &FlameNode) -> (d: Option<u32>)
    ensures
        match d {
            Some(v) => v == height(*node),
            None => height(*node) > u32::MAX,
        },
    decreases *node,
{
    let mut best: u32 = 0;
    let mut i: usize = 0;
    while i < node.children.len()
        invariant
            i <= node.children@.len(),
            best == children_height(*node, i as int),
        decreases node.children@.len() - i,
    {
        proof {
            lemma_children_height_monotone(*node, i + 1, node.children@.len() as int);
        }
        let c = match checked_max_depth(&node.children[i]) {
            Some(c) => c,
            None => return None,
        };
        if c == u32::MAX {
            return None;
        }
        if c + 1 > best {
            best = c + 1;
        }
        i = i + 1;
    }
    Some(best)
}

/// Taking more children never lowers the height.
pub proof fn lemma_children_height_monotone(n: FlameNode, k: int, m: int)
    requires
        0 <= k <= m <= n.children@.len(),
    ensures
        children_height(n, k) <= children_height(n, m),
    decreases m - k,
{
    if k < m {
        lemma_children_height_monotone(n, k, m - 1);
    }
}

/// The fill colour of a frame's layer.
pub open spec fn color_of(kind: FrameKind) -> Seq<char> {
    match kind {
        FrameKind::Kernel => "#e08030"@,
        FrameKind::User => "#3b82c4"@,
        FrameKind::Unknown => "#b0b0b0"@,
    }
}

/// The fill colour of a frame's layer: kernel orange, user blue, unknown
/// grey.
pub fn color_for(kind: FrameKind) -> (c: &'static str)
    ensures
        c@ == color_of(kind),
{
    match kind {
        FrameKind::Kernel => "#e08030",
        FrameKind::User => "#3b82c4",
        FrameKind::Unknown => "#b0b0b0",
    }
}

/// The XML text of one character: the five markup characters become
/// entities.
pub open spec fn escape_char(c: char) -> Seq<char> {
    if c == '&' {
        seq!['&', 'a', 'm', 'p', ';']
    } else if c == '<' {
        seq!['&', 'l', 't', ';']
    } else if c == '>' {
        seq!['&', 'g', 't', ';']
    } else if c == '"' {
        seq!['&', 'q', 'u', 'o', 't', ';']
    } else if c == '\'' {
        seq!['&', 'a', 'p', 'o', 's', ';']
    } else {
        seq![c]
    }
}

/// The XML text of `s`, character by character.
pub open spec fn escaped(s: Seq<char>) -> Seq<char>
    decreases s.len(),
{
    if s.len() == 0 {
        seq![]
    } else {
        escaped(s.drop_last()) + escape_char(s.last())
    }
}

/// Escapes `&`, `<`, `>`, `"` and `'` for use in XML text and attributes.
pub fn escape_xml(s: &str) -> (r: String)
    ensures
        r@ == escaped(s@),
{
    let cs = crate::text::chars_of(s);
    let mut out: Vec<char> = Vec::new();
    let mut i: usize = 0;
    while i < cs.len()
        invariant
            i <= cs@.len(),
            out@ == escaped(cs@.take(i as int)),
        decreases cs@.len() - i,
    {
        assert(cs@.take(i + 1).drop_last() =~= cs@.take(i as int));
        let c = cs[i];
        let ghost before = out@;
        if c == '&' {
            out.push('&');
            out.push('a');
            out.push('m');
            out.push('p');
            out.push(';');
        } else if c == '<' {
            out.push('&');
            out.push('l');
            out.push('t');
            out.push(';');
        } else if c == '>' {
            out.push('&');
            out.push('g');
            out.push('t');
            out.push(';');
        } else if c == '"' {
            out.push('&');
            out.push('q');
            out.push('u');
            out.push('o');
            out.push('t');
            out.push(';');
        } else if c == '\'' {
            out.push('&');
            out.push('a');
            out.push('p');
            out.push('o');
            out.push('s');
            out.push(';');
        } else {
            out.push(c);
        }
        assert(out@ =~= before + escape_char(c));
        i = i + 1;
    }
    assert(cs@.take(cs@.len() as int) =~= cs@);
    crate::text::string_of(out.as_slice())
}

/// Escaped text holds none of `<`, `>`, `"` and `'`, so a frame name cannot
/// close a tag or an attribute value.
pub proof fn law_escaped_is_markup_free(s: Seq<char>)
    ensures
        forall|i: int|
            0 <= i < escaped(s).len() ==> {
                let c = #[trigger] escaped(s)[i];
                c != '<' && c != '>' && c != '"' && c != '\''
            },
    decreases s.len(),
{
    if s.len() > 0 {
        law_escaped_is_markup_free(s.drop_last());
        let a = escaped(s.drop_last());
        let b = escape_char(s.last());
        assert forall|i: int| 0 <= i < escaped(s).len() implies {
            let c = #[trigger] escaped(s)[i];
            c != '<' && c != '>' && c != '"' && c != '\''
        } by {
            if i < a.len() {
                assert(escaped(s)[i] == a[i]);
            } else {
                assert(escaped(s)[i] == b[i - a.len()]);
            }
        }
    }
}

/// The five characters that XML text escapes.
pub open spec fn is_markup(c: char) -> bool {
    c == '&' || c == '<' || c == '>' || c == '"' || c == '\''
}

/// `t` begins with `e`.
pub open spec fn begins_with(t: Seq<char>, e: Seq<char>) -> bool {
    e.len() <= t.len() && t.take(e.len() as int) == e
}

/// Reads `t` left to right in one pass, replacing each of the five entities
/// `&amp;`, `&lt;`, `&gt;`, `&quot;` and `&apos;` by its character.
pub open spec fn unescaped(t: Seq<char>) -> Seq<char>
    decreases t.len(),
{
    if t.len() == 0 {
        seq![]
    } else if begins_with(t, escape_char('&')) {
        seq!['&'] + unescaped(t.skip(5))
    } else if begins_with(t, escape_char('<')) {
        seq!['<'] + unescaped(t.skip(4))
    } else if begins_with(t, escape_char('>')) {
        seq!['>'] + unescaped(t.skip(4))
    } else if begins_with(t, escape_char('"')) {
        seq!['"'] + unescaped(t.skip(6))
    } else if begins_with(t, escape_char('\'')) {
        seq!['\''] + unescaped(t.skip(6))
    } else {
        seq![t[0]] + unescaped(t.drop_first())
    }
}

/// An entity, the text of one of the five markup characters, starts at
/// position `i` of `t`.
pub open spec fn entity_at(t: Seq<char>, i: int) -> bool {
    exists|c: char|
        #[trigger] is_markup(c) && 0 <= i && i + escape_char(c).len() <= t.len() && t.subrange(
            i,
            i + escape_char(c).len(),
        ) == escape_char(c)
}

/// Escaping text piece by piece is escaping it whole.
pub proof fn lemma_escaped_concat(a: Seq<char>, b: Seq<char>)
    ensures
        escaped(a + b) == escaped(a) + escaped(b),
    decreases b.len(),
{
    if b.len() == 0 {
        assert(a + b =~= a);
        assert(escaped(a) + escaped(b) =~= escaped(a));
    } else {
        lemma_escaped_concat(a, b.drop_last());
        assert((a + b).drop_last() =~= a + b.drop_last());
        assert((a + b).last() == b.last());
        assert(escaped(a + b) =~= escaped(a) + escaped(b));
    }
}

/// The escaped text of a non-empty `s` is that of its first character
/// followed by that of the rest.
proof fn lemma_escaped_front(s: Seq<char>)
    requires
        s.len() > 0,
    ensures
        escaped(s) == escape_char(s[0]) + escaped(s.drop_first()),
{
    let head = seq![s[0]];
    assert(s =~= head + s.drop_first());
    lemma_escaped_concat(head, s.drop_first());
    assert(head.drop_last() =~= Seq::<char>::empty());
    assert(escaped(Seq::<char>::empty()) =~= Seq::<char>::empty());
    assert(head.last() == s[0]);
    assert(escaped(head) == escaped(head.drop_last()) + escape_char(head.last()));
    assert(escaped(head) =~= escape_char(s[0]));
}

/// Escaping loses nothing: decoding the five entities in one left-to-right
/// pass gives back the original text.
pub proof fn law_escape_round_trip(s: Seq<char>)
    ensures
        unescaped(escaped(s)) == s,
    decreases s.len(),
{
    if s.len() > 0 {
        let c = s[0];
        let rest = s.drop_first();
        lemma_escaped_front(s);
        law_escape_round_trip(rest);
        let e = escape_char(c);
        let r = escaped(rest);
        let t = e + r;
        assert(t.skip(e.len() as int) =~= r);
        assert(t.take(e.len() as int) =~= e);
        assert(t[0] == e[0]);
        if c == '&' {
        } else if c == '<' {
            assert(t[1] == 'l');
        } else if c == '>' {
            assert(t[1] == 'g');
            assert(t.take(4) != escape_char('<'));
        } else if c == '"' {
            assert(t[1] == 'q');
            assert(t.take(4) != escape_char('<'));
            assert(t.take(4) != escape_char('>'));
        } else if c == '\'' {
            assert(t[1] == 'a' && t[2] == 'p');
            assert(t.take(5) != escape_char('&'));
            assert(t.take(4) != escape_char('<'));
            assert(t.take(4) != escape_char('>'));
            assert(t.take(6) != escape_char('"'));
        } else {
            assert(t[0] == c);
            assert(t.drop_first() =~= r);
        }
        assert(unescaped(t) =~= seq![c] + rest);
        assert(s =~= seq![c] + rest);
    }
}

/// Text without markup characters is left as it is.
pub proof fn law_plain_text_unescaped(s: Seq<char>)
    requires
        forall|i: int| 0 <= i < s.len() ==> !is_markup(#[trigger] s[i]),
    ensures
        escaped(s) == s,
    decreases s.len(),
{
    if s.len() > 0 {
        assert forall|i: int| 0 <= i < s.drop_last().len() implies !is_markup(#[trigger] s.drop_last()[i]) by {
            assert(s.drop_last()[i] == s[i]);
        }
        law_plain_text_unescaped(s.drop_last());
        assert(!is_markup(s[s.len() - 1]));
        assert(escaped(s) =~= s);
    }
}

/// Every `&` of escaped text begins one of the five entities.
pub proof fn law_escaped_ampersands_begin_entities(s: Seq<char>)
    ensures
        forall|i: int| 0 <= i < escaped(s).len() && #[trigger] escaped(s)[i] == '&' ==> entity_at(escaped(s), i),
    decreases s.len(),
{
    if s.len() > 0 {
        let init = s.drop_last();
        let c = s.last();
        law_escaped_ampersands_begin_entities(init);
        let a = escaped(init);
        let b = escape_char(c);
        let t = escaped(s);
        assert(t == a + b);
        assert forall|i: int| 0 <= i < t.len() && #[trigger] t[i] == '&' implies entity_at(t, i) by {
            if i < a.len() {
                assert(a[i] == '&');
                assert(entity_at(a, i));
                let d = choose|d: char|
                    #[trigger] is_markup(d) && 0 <= i && i + escape_char(d).len() <= a.len() && a.subrange(
                        i,
                        i + escape_char(d).len(),
                    ) == escape_char(d);
                assert(t.subrange(i, i + escape_char(d).len()) =~= a.subrange(i, i + escape_char(d).len()));
                assert(is_markup(d));
            } else {
                let k = i - a.len();
                assert(b[k] == '&');
                assert(is_markup(c)) by {
                    if !is_markup(c) {
                        assert(b =~= seq![c]);
                    }
                }
                assert(k == 0);
                assert(t.subrange(i, i + b.len()) =~= b);
                assert(is_markup(c));
            }
        }
    }
}

/// One frame to draw: its depth below the root, its label escaped for XML,
/// its layer and its number of samples.
pub struct RenderItem {
    pub depth: u32,
    pub label: String,
    pub kind: FrameKind,
    pub value: u64,
}

impl View for RenderItem {
    type V = (nat, Seq<char>, FrameKind, u64);

    open spec fn view(&self) -> (nat, Seq<char>, FrameKind, u64) {
        (self.depth as nat, self.label@, self.kind, self.value)
    }
}

/// The views of a list of items.
pub open spec fn item_views(v: Seq<RenderItem>) -> Seq<(nat, Seq<char>, FrameKind, u64)> {
    v.map_values(|x: RenderItem| x@)
}

/// The frames drawn for the subtree of `n` at `depth`, parents before their
/// children and children in order; a subtree without samples is not drawn.
pub open spec fn drawn(n: FlameNode, depth: nat) -> Seq<(nat, Seq<char>, FrameKind, u64)>
    decreases n, 1nat, 0int,
{
    if n.value == 0 {
        seq![]
    } else {
        seq![(depth, escaped(n.name@), n.kind, n.value)] + drawn_children(
            n,
            n.children@.len() as int,
            depth + 1,
        )
    }
}

/// The frames drawn for the first `k` children of `n`, at `depth`.
pub open spec fn drawn_children(n: FlameNode, k: int, depth: nat) -> Seq<
    (nat, Seq<char>, FrameKind, u64),
>
    decreases n, 0nat, k,
{
    if k <= 0 || k > n.children@.len() {
        seq![]
    } else {
        drawn_children(n, k - 1, depth) + drawn(n.children@[k - 1], depth)
    }
}

/// Appends the frames drawn for the subtree of `node` at `depth`.
fn push_drawn(node: &FlameNode, depth: u32, out: &mut Vec<RenderItem>)
    requires
        depth + height(*node) <= u32::MAX,
    ensures
        item_views(final(out)@) == item_views(old(out)@) + drawn(*node, depth as nat),
    decreases *node,
{
    if node.value == 0 {
        assert(item_views(out@) =~= item_views(out@) + drawn(*node, depth as nat));
        return;
    }
    let ghost start = item_views(out@);
    let label = escape_xml(node.name.as_str());
    out.push(RenderItem { depth, label, kind: node.kind, value: node.value });
    let ghost head = start + seq![(depth as nat, escaped(node.name@), node.kind, node.value)];
    assert(item_views(out@) =~= head + drawn_children(*node, 0, (depth + 1) as nat));
    let mut i: usize = 0;
    while i < node.children.len()
        invariant
            i <= node.children@.len(),
            depth + height(*node) <= u32::MAX,
            node.value != 0,
            item_views(out@) == head + drawn_children(*node, i as int, (depth + 1) as nat),
        decreases node.children@.len() - i,
    {
        proof {
            lemma_children_height_monotone(*node, i + 1, node.children@.len() as int);
        }
        assert(1 + height(node.children@[i as int]) <= height(*node));
        push_drawn(&node.children[i], depth + 1, out);
        assert(item_views(out@) =~= head + drawn_children(*node, i + 1, (depth + 1) as nat));
        i = i + 1;
    }
    assert(drawn(*node, depth as nat) =~= seq![(depth as nat, escaped(node.name@), node.kind, node.value)]
        + drawn_children(*node, node.children@.len() as int, (depth + 1) as nat));
    assert(item_views(out@) =~= start + drawn(*node, depth as nat));
}

/// The frames to draw for a flame graph, root first and then each subtree
/// in order of its children, with the depth at which each frame is drawn;
/// subtrees without samples are left out. Only the geometry, which takes
/// floating point, is left to the renderer.
pub fn render_plan(tree: &FlameNode) -> (items: Vec<RenderItem>)
    requires
        height(*tree) <= u32::MAX,
    ensures
        item_views(items@) == drawn(*tree, 0),
{
    let mut items: Vec<RenderItem> = Vec::new();
    push_drawn(tree, 0, &mut items);
    assert(item_views(items@) =~= Seq::<(nat, Seq<char>, FrameKind, u64)>::empty() + drawn(*tree, 0));
    items
}

} // verus!
