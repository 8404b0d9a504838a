//! What holds of every graph: the walk of one block visits each node of the
//! sink's tree once, every source before the node it feeds; and the rules of
//! registration, wiring and settings, stated over several calls.
use vstd::prelude::*;
use vstd::set_lib::{set_int_range, lemma_int_range, lemma_len_subset, lemma_map_size};
use crate::error::ErrorCodes;
use crate::model::{GraphView, children_order, subtree_order};
use crate::node::AudioNodeType;
use crate::params::{AudioRuntimeParameters, params_error};

verus! {

impl GraphView {
    /// `y` reaches `x` by following parents fewer than `fuel` times.
    pub open spec fn below(self, y: usize, x: usize, fuel: nat) -> bool {
        exists|d: nat| d < fuel && #[trigger] self.ancestor(y, d) == Some(x)
    }

    /// In `s`, nothing comes after a node that it feeds, however far removed.
    pub open spec fn sources_first(self, s: Seq<usize>) -> bool {
        forall|p: int, q: int, k: nat|
            #![trigger self.ancestor(s[p], k), s[q]]
            0 <= p < s.len() && 0 <= q < s.len() && k > 0 && self.ancestor(s[p], k) == Some(s[q])
                ==> p < q
    }
}

/// Following parents `a` times and then `b` times is following them `a + b` times.
pub proof fn lemma_ancestor_add(g: GraphView, y: usize, a: nat, b: nat)
    ensures
        g.ancestor(y, a + b) == match g.ancestor(y, a) {
            Some(z) => g.ancestor(z, b),
            None => None,
        },
    decreases b,
{
    if b > 0 {
        lemma_ancestor_add(g, y, a, (b - 1) as nat);
        assert((a + b - 1) as nat == a + (b - 1) as nat);
    }
}

/// The nodes reached from an existing node exist.
pub proof fn lemma_ancestor_in_range(g: GraphView, y: usize, k: nat)
    requires
        g.wf(),
        y < g.len(),
    ensures
        match g.ancestor(y, k) {
            Some(z) => z < g.len(),
            None => true,
        },
    decreases k,
{
    if k > 0 {
        lemma_ancestor_in_range(g, y, (k - 1) as nat);
        match g.ancestor(y, (k - 1) as nat) {
            Some(z) => {
                if z < g.len() && g.parents[z as int] is Some {
                    assert(g.parents[z as int].unwrap() < g.len());
                }
            },
            None => {},
        }
    }
}

/// In a forest, a node is reached from `y` after one number of steps only.
pub proof fn lemma_ancestor_distinct(g: GraphView, y: usize, x: usize, a: nat, b: nat)
    requires
        g.wf(),
        g.is_forest(),
        y < g.len(),
        g.ancestor(y, a) == Some(x),
        g.ancestor(y, b) == Some(x),
    ensures
        a == b,
{
    lemma_ancestor_in_range(g, y, a);
    if a < b {
        lemma_ancestor_add(g, y, a, (b - a) as nat);
        assert(g.ancestor(x, (b - a) as nat) != Some(x));
    } else if b < a {
        lemma_ancestor_add(g, y, b, (a - b) as nat);
        assert(g.ancestor(x, (a - b) as nat) != Some(x));
    }
}

/// Two sources of one node that both lie on the way down from `y` are the same.
pub proof fn lemma_same_branch(g: GraphView, y: usize, x: usize, u: usize, v: usize, a: nat, b: nat)
    requires
        g.wf(),
        g.is_forest(),
        y < g.len(),
        u < g.len(),
        v < g.len(),
        g.ancestor(y, a) == Some(u),
        g.ancestor(y, b) == Some(v),
        g.parents[u as int] == Some(x),
        g.parents[v as int] == Some(x),
    ensures
        u == v,
{
    assert(g.ancestor(y, a + 1) == Some(x));
    assert(g.ancestor(y, b + 1) == Some(x));
    lemma_ancestor_distinct(g, y, x, a + 1, b + 1);
}

/// In a forest, a node is fewer steps away from any node below it than
/// there are nodes.
pub proof fn lemma_depth_bound(g: GraphView, y: usize, x: usize, d: nat)
    requires
        g.wf(),
        g.is_forest(),
        y < g.len(),
        g.ancestor(y, d) == Some(x),
    ensures
        d < g.len(),
{
    let steps = set_int_range(0, d as int + 1);
    let f = |i: int| g.ancestor(y, i as nat).unwrap() as int;
    lemma_int_range(0, d as int + 1);
    assert forall|i: int| 0 <= i <= d implies g.ancestor(y, i as nat) is Some && #[trigger] f(i) < g.len() by {
        lemma_ancestor_add(g, y, i as nat, (d - i) as nat);
        assert((i as nat + (d - i) as nat) == d);
        lemma_ancestor_in_range(g, y, i as nat);
    }
    assert forall|i: int, j: int| steps.contains(i) && steps.contains(j) && #[trigger] f(i) == #[trigger] f(j) implies i == j by {
        lemma_ancestor_distinct(g, y, g.ancestor(y, i as nat).unwrap(), i as nat, j as nat);
    }
    lemma_map_size(steps, steps.map(f), f);
    let nodes = set_int_range(0, g.len() as int);
    lemma_int_range(0, g.len() as int);
    assert(steps.map(f).subset_of(nodes));
    lemma_len_subset(steps.map(f), nodes);
}

/// From a node that feeds nothing, every walk of one step or more ends.
pub proof fn lemma_root_ancestor_none(g: GraphView, y: usize, k: nat)
    requires
        y < g.len(),
        g.parents[y as int] is None,
        k >= 1,
    ensures
        g.ancestor(y, k) is None,
    decreases k,
{
    assert(g.ancestor(y, 0) == Some(y));
    if k > 1 {
        lemma_root_ancestor_none(g, y, (k - 1) as nat);
    }
}

/// Following parents depends only on the number of nodes and their parents.
pub proof fn lemma_ancestor_same_parents(g1: GraphView, g2: GraphView, y: usize, k: nat)
    requires
        g1.len() == g2.len(),
        g1.parents == g2.parents,
    ensures
        g1.ancestor(y, k) == g2.ancestor(y, k),
    decreases k,
{
    if k > 0 {
        lemma_ancestor_same_parents(g1, g2, y, (k - 1) as nat);
    }
}

/// The graph with only its sink keeps the structural rules.
pub proof fn lemma_initial_wf()
    ensures
        GraphView::initial().wf(),
{
    let g = GraphView::initial();
    assert forall|y: usize, k: nat| y < g.len() && k > 0 implies #[trigger] g.ancestor(y, k) != Some(y) by {
        lemma_root_ancestor_none(g, y, k);
    }
    assert forall|c: usize, p: usize|
        c < g.len() && p < g.len() implies (g.parents[c as int] == Some(p)
            <==> #[trigger] g.children[p as int].contains(c)) by {
        assert(!g.children[0].contains(c));
    }
}

/// New settings keep the structural rules.
pub proof fn lemma_prepared_wf(g: GraphView, p: AudioRuntimeParameters)
    requires
        g.wf(),
    ensures
        g.prepared(p).wf(),
{
    let g2 = g.prepared(p);
    assert forall|y: usize, k: nat| y < g2.len() && k > 0 implies #[trigger] g2.ancestor(y, k) != Some(y) by {
        lemma_ancestor_same_parents(g, g2, y, k);
        assert(g.ancestor(y, k) != Some(y));
    }
}

/// Adding a node changes no walk from an existing node.
proof fn lemma_registered_ancestor(g: GraphView, t: AudioNodeType, n: nat, y: usize, k: nat)
    requires
        g.wf(),
        y < g.len(),
    ensures
        g.registered(t, n).ancestor(y, k) == g.ancestor(y, k),
    decreases k,
{
    if k > 0 {
        lemma_registered_ancestor(g, t, n, y, (k - 1) as nat);
        lemma_ancestor_in_range(g, y, (k - 1) as nat);
    }
}

/// Adding a node keeps the connections a forest with a sink that feeds nothing.
pub proof fn lemma_registered_forest(g: GraphView, t: AudioNodeType, n: nat)
    requires
        g.wf(),
    ensures
        g.registered(t, n).is_forest(),
        g.registered(t, n).parents[0] is None,
{
    let g2 = g.registered(t, n);
    assert forall|y: usize, k: nat| y < g2.len() && k > 0 implies #[trigger] g2.ancestor(y, k) != Some(y) by {
        if y < g.len() {
            lemma_registered_ancestor(g, t, n, y, k);
            assert(g.ancestor(y, k) != Some(y));
        } else {
            lemma_root_ancestor_none(g2, y, k);
        }
    }
}

/// After `out` is made a source of `inp`, a walk from `y` is either a walk of
/// the old graph, or one that reaches `out` and then goes on from `inp`.
proof fn lemma_connected_ancestor(g: GraphView, out: usize, inp: usize, y: usize, k: nat)
    requires
        g.wf(),
        out < g.len(),
        inp < g.len(),
        y < g.len(),
        !g.reaches(inp, out),
    ensures
        match g.connected(out, inp).ancestor(y, k) {
            Some(z) => g.ancestor(y, k) == Some(z) || exists|a: nat, b: nat|
                a + 1 + b == k && #[trigger] g.ancestor(y, a) == Some(out) && #[trigger] g.ancestor(inp, b) == Some(z),
            None => true,
        },
    decreases k,
{
    let g2 = g.connected(out, inp);
    if k > 0 {
        lemma_connected_ancestor(g, out, inp, y, (k - 1) as nat);
        match g2.ancestor(y, (k - 1) as nat) {
            Some(z1) => {
                if g.ancestor(y, (k - 1) as nat) == Some(z1) {
                    lemma_ancestor_in_range(g, y, (k - 1) as nat);
                    if z1 == out {
                        assert(g.ancestor(inp, 0) == Some(inp));
                        assert(g.ancestor(y, (k - 1) as nat) == Some(out));
                    }
                } else {
                    let (a, b) = choose|a: nat, b: nat|
                        a + 1 + b == (k - 1) as nat && #[trigger] g.ancestor(y, a) == Some(out) && #[trigger] g.ancestor(inp, b) == Some(z1);
                    assert(z1 != out);
                    lemma_ancestor_in_range(g, inp, b);
                    assert(g.ancestor(inp, b + 1) == g2.ancestor(y, k));
                    assert(a + 1 + (b + 1) == k);
                }
            },
            None => {},
        }
    }
}

/// Making `out`, which feeds nothing and is not the sink, a source of `inp`,
/// which does not feed `out`, keeps the connections a forest with a sink
/// that feeds nothing.
pub proof fn lemma_connected_forest(g: GraphView, out: usize, inp: usize)
    requires
        g.wf(),
        out < g.len(),
        inp < g.len(),
        out != 0,
        !g.reaches(inp, out),
    ensures
        g.connected(out, inp).is_forest(),
        g.connected(out, inp).parents[0] is None,
{
    let g2 = g.connected(out, inp);
    assert forall|y: usize, k: nat| y < g2.len() && k > 0 implies #[trigger] g2.ancestor(y, k) != Some(y) by {
        lemma_connected_ancestor(g, out, inp, y, k);
        if g2.ancestor(y, k) == Some(y) {
            if g.ancestor(y, k) == Some(y) {
                assert(g.ancestor(y, k) != Some(y));
            } else {
                let (a, b) = choose|a: nat, b: nat|
                    a + 1 + b == k && #[trigger] g.ancestor(y, a) == Some(out) && #[trigger] g.ancestor(inp, b) == Some(y);
                lemma_ancestor_add(g, inp, b, a);
                assert(g.ancestor(inp, b + a) == Some(out));
            }
        }
    }
}

/// An element of a concatenation comes from one of its parts.
proof fn lemma_concat_contains(a: Seq<usize>, b: Seq<usize>, y: usize)
    requires
        (a + b).contains(y),
    ensures
        a.contains(y) || b.contains(y),
{
    let i = (a + b).index_of(y);
    if i < a.len() {
        assert(a[i] == y);
    } else {
        assert(b[i - a.len()] == y);
    }
}

/// A source listed under `x` has `x` as its parent.
proof fn lemma_child_parent(g: GraphView, x: usize, l: int)
    requires
        g.wf(),
        x < g.len(),
        0 <= l < g.children[x as int].len(),
    ensures
        g.children[x as int][l] < g.len(),
        g.parents[g.children[x as int][l] as int] == Some(x),
{
    let c = g.children[x as int][l];
    assert(g.children[x as int].contains(c));
}

/// Whatever the walk of the sources of `x` visits lies below one of them.
pub proof fn lemma_children_order_sound(g: GraphView, x: usize, i: nat, f: nat, y: usize)
    requires
        g.wf(),
        x < g.len(),
        children_order(g.children, x, i, f).contains(y),
    ensures
        y < g.len(),
        exists|l: int| i <= l < g.children[x as int].len() && g.below(y, #[trigger] g.children[x as int][l], f),
    decreases f, g.children[x as int].len() - i,
{
    let ch = g.children;
    if i < ch[x as int].len() {
        let c = ch[x as int][i as int];
        lemma_child_parent(g, x, i as int);
        let rest = children_order(ch, x, i + 1, f);
        if f == 0 {
            assert(children_order(ch, x, i, f) == Seq::<usize>::empty() + rest);
            assert(Seq::<usize>::empty() + rest =~= rest);
            lemma_children_order_sound(g, x, i + 1, f, y);
            let l = choose|l: int| i + 1 <= l < ch[x as int].len() && g.below(y, #[trigger] ch[x as int][l], f);
            assert(i <= l);
        } else {
            let inner = children_order(ch, c, 0, (f - 1) as nat);
            let first = inner.push(c);
            assert(children_order(ch, x, i, f) == first + rest);
            lemma_concat_contains(first, rest, y);
            if first.contains(y) {
                if y == c {
                    assert(g.ancestor(y, 0) == Some(c));
                    assert(g.below(y, ch[x as int][i as int], f));
                } else {
                    let j = first.index_of(y);
                    assert(inner[j] == y);
                    assert(inner.contains(y));
                    lemma_children_order_sound(g, c, 0, (f - 1) as nat, y);
                    let l2 = choose|l: int| 0 <= l < ch[c as int].len() && g.below(y, #[trigger] ch[c as int][l], (f - 1) as nat);
                    let c2 = ch[c as int][l2];
                    lemma_child_parent(g, c, l2);
                    let d2 = choose|d: nat| d < (f - 1) as nat && #[trigger] g.ancestor(y, d) == Some(c2);
                    assert(g.ancestor(y, d2 + 1) == Some(c));
                    assert(g.below(y, ch[x as int][i as int], f));
                }
            } else {
                lemma_children_order_sound(g, x, i + 1, f, y);
                let l = choose|l: int| i + 1 <= l < ch[x as int].len() && g.below(y, #[trigger] ch[x as int][l], f);
                assert(i <= l);
            }
        }
    }
}

/// Whatever the walk of the subtree of `x` visits lies below `x`.
pub proof fn lemma_subtree_order_sound(g: GraphView, x: usize, f: nat, y: usize)
    requires
        g.wf(),
        x < g.len(),
        subtree_order(g.children, x, f).contains(y),
    ensures
        y < g.len(),
        g.below(y, x, f),
{
    let ch = g.children;
    let inner = children_order(ch, x, 0, (f - 1) as nat);
    if y == x {
        assert(g.ancestor(y, 0) == Some(x));
    } else {
        let j = subtree_order(ch, x, f).index_of(y);
        assert(inner[j] == y);
        assert(inner.contains(y));
        lemma_children_order_sound(g, x, 0, (f - 1) as nat, y);
        let l = choose|l: int| 0 <= l < ch[x as int].len() && g.below(y, #[trigger] ch[x as int][l], (f - 1) as nat);
        let c = ch[x as int][l];
        lemma_child_parent(g, x, l);
        let d = choose|d: nat| d < (f - 1) as nat && #[trigger] g.ancestor(y, d) == Some(c);
        assert(g.ancestor(y, d + 1) == Some(x));
    }
}

/// The walk of the sources of `x` from the `i`-th on covers the subtree of
/// each of them.
proof fn lemma_children_order_covers(g: GraphView, x: usize, i: nat, l: nat, f: nat, y: usize)
    requires
        i <= l < g.children[x as int].len(),
        subtree_order(g.children, g.children[x as int][l as int], f).contains(y),
    ensures
        children_order(g.children, x, i, f).contains(y),
    decreases l - i,
{
    let ch = g.children;
    let first = subtree_order(ch, ch[x as int][i as int], f);
    let rest = children_order(ch, x, i + 1, f);
    assert(children_order(ch, x, i, f) == first + rest);
    if i == l {
        let j = first.index_of(y);
        assert((first + rest)[j] == y);
    } else {
        lemma_children_order_covers(g, x, i + 1, l, f, y);
        let j = rest.index_of(y);
        assert((first + rest)[first.len() + j] == y);
    }
}

/// Every node fewer than `f` steps below `x` is in the walk of the subtree of `x`.
pub proof fn lemma_subtree_order_complete(g: GraphView, x: usize, f: nat, y: usize, d: nat)
    requires
        g.wf(),
        x < g.len(),
        y < g.len(),
        d < f,
        g.ancestor(y, d) == Some(x),
    ensures
        subtree_order(g.children, x, f).contains(y),
    decreases d,
{
    let ch = g.children;
    let inner = children_order(ch, x, 0, (f - 1) as nat);
    if d == 0 {
        assert(subtree_order(ch, x, f)[inner.len() as int] == x);
    } else {
        let c = g.ancestor(y, (d - 1) as nat).unwrap();
        lemma_ancestor_in_range(g, y, (d - 1) as nat);
        assert(g.parents[c as int] == Some(x));
        assert(ch[x as int].contains(c));
        let l = ch[x as int].index_of(c);
        lemma_subtree_order_complete(g, c, (f - 1) as nat, y, (d - 1) as nat);
        lemma_children_order_covers(g, x, 0, l as nat, (f - 1) as nat, y);
        let j = inner.index_of(y);
        assert(subtree_order(ch, x, f)[j] == y);
    }
}

proof fn lemma_push_no_dup(s: Seq<usize>, x: usize)
    requires
        s.no_duplicates(),
        !s.contains(x),
    ensures
        s.push(x).no_duplicates(),
{
    let t = s.push(x);
    assert forall|i: int, j: int| 0 <= i < t.len() && 0 <= j < t.len() && i != j implies t[i] != t[j] by {
        if i < s.len() && j < s.len() {
        } else if i < s.len() {
            assert(s[i] == t[i]);
        } else {
            assert(s[j] == t[j]);
        }
    }
}

/// In a forest no node lies below one of its own sources.
proof fn lemma_not_below_own_source(g: GraphView, x: usize, f: nat)
    requires
        g.wf(),
        g.is_forest(),
        x < g.len(),
    ensures
        !children_order(g.children, x, 0, f).contains(x),
{
    if children_order(g.children, x, 0, f).contains(x) {
        lemma_children_order_sound(g, x, 0, f, x);
        let l = choose|l: int| 0 <= l < g.children[x as int].len() && g.below(x, #[trigger] g.children[x as int][l], f);
        let c = g.children[x as int][l];
        lemma_child_parent(g, x, l);
        let d = choose|d: nat| d < f && #[trigger] g.ancestor(x, d) == Some(c);
        assert(g.ancestor(x, d + 1) == Some(x));
    }
}

/// In a forest the walk of the sources of `x` visits no node twice.
pub proof fn lemma_children_order_no_dup(g: GraphView, x: usize, i: nat, f: nat)
    requires
        g.wf(),
        g.is_forest(),
        x < g.len(),
    ensures
        children_order(g.children, x, i, f).no_duplicates(),
    decreases f, g.children[x as int].len() - i,
{
    let ch = g.children;
    if i < ch[x as int].len() {
        let c = ch[x as int][i as int];
        lemma_child_parent(g, x, i as int);
        let rest = children_order(ch, x, i + 1, f);
        lemma_children_order_no_dup(g, x, i + 1, f);
        if f == 0 {
            assert(children_order(ch, x, i, f) == Seq::<usize>::empty() + rest);
            assert(Seq::<usize>::empty() + rest =~= rest);
        } else {
            let inner = children_order(ch, c, 0, (f - 1) as nat);
            let first = inner.push(c);
            lemma_children_order_no_dup(g, c, 0, (f - 1) as nat);
            lemma_not_below_own_source(g, c, (f - 1) as nat);
            lemma_push_no_dup(inner, c);
            assert(first == subtree_order(ch, c, f));
            assert forall|a: int, b: int| 0 <= a < first.len() && 0 <= b < rest.len() implies first[a] != rest[b] by {
                if first[a] == rest[b] {
                    let y = first[a];
                    assert(first.contains(y));
                    assert(rest.contains(y));
                    lemma_subtree_order_sound(g, c, f, y);
                    let d1 = choose|d: nat| d < f && #[trigger] g.ancestor(y, d) == Some(c);
                    lemma_children_order_sound(g, x, i + 1, f, y);
                    let l = choose|l: int| i + 1 <= l < ch[x as int].len() && g.below(y, #[trigger] ch[x as int][l], f);
                    let cl = ch[x as int][l];
                    lemma_child_parent(g, x, l);
                    let d2 = choose|d: nat| d < f && #[trigger] g.ancestor(y, d) == Some(cl);
                    lemma_same_branch(g, y, x, c, cl, d1, d2);
                    assert(ch[x as int][i as int] == ch[x as int][l]);
                }
            }
            vstd::seq_lib::lemma_no_dup_in_concat(first, rest);
            assert(children_order(ch, x, i, f) == first + rest);
        }
    }
}

/// In a forest the walk of the subtree of `x` visits no node twice.
pub proof fn lemma_subtree_order_no_dup(g: GraphView, x: usize, f: nat)
    requires
        g.wf(),
        g.is_forest(),
        x < g.len(),
    ensures
        subtree_order(g.children, x, f).no_duplicates(),
{
    if f > 0 {
        lemma_children_order_no_dup(g, x, 0, (f - 1) as nat);
        lemma_not_below_own_source(g, x, (f - 1) as nat);
        lemma_push_no_dup(children_order(g.children, x, 0, (f - 1) as nat), x);
    }
}

proof fn lemma_concat_sources_first(g: GraphView, a: Seq<usize>, b: Seq<usize>)
    requires
        g.sources_first(a),
        g.sources_first(b),
        forall|p: int, q: int, k: nat|
            #![trigger g.ancestor(b[p], k), a[q]]
            0 <= p < b.len() && 0 <= q < a.len() && k > 0 ==> g.ancestor(b[p], k) != Some(a[q]),
    ensures
        g.sources_first(a + b),
{
    let s = a + b;
    assert forall|p: int, q: int, k: nat|
        #![trigger g.ancestor(s[p], k), s[q]]
        0 <= p < s.len() && 0 <= q < s.len() && k > 0 && g.ancestor(s[p], k) == Some(s[q]) implies p < q by {
        if p < a.len() && q < a.len() {
            assert(s[p] == a[p] && s[q] == a[q]);
        } else if p >= a.len() && q >= a.len() {
            assert(s[p] == b[p - a.len()] && s[q] == b[q - a.len()]);
            assert(g.ancestor(b[p - a.len()], k) == Some(b[q - a.len()]));
        } else if p >= a.len() {
            assert(s[p] == b[p - a.len()] && s[q] == a[q]);
            assert(g.ancestor(b[p - a.len()], k) != Some(a[q]));
        }
    }
}

proof fn lemma_push_sources_first(g: GraphView, a: Seq<usize>, x: usize)
    requires
        g.sources_first(a),
        g.is_forest(),
        x < g.len(),
        forall|q: int, k: nat|
            #![trigger g.ancestor(x, k), a[q]]
            0 <= q < a.len() && k > 0 ==> g.ancestor(x, k) != Some(a[q]),
    ensures
        g.sources_first(a.push(x)),
{
    let s = a.push(x);
    assert forall|p: int, q: int, k: nat|
        #![trigger g.ancestor(s[p], k), s[q]]
        0 <= p < s.len() && 0 <= q < s.len() && k > 0 && g.ancestor(s[p], k) == Some(s[q]) implies p < q by {
        if p < a.len() && q < a.len() {
            assert(s[p] == a[p] && s[q] == a[q]);
        } else if p == a.len() && q < a.len() {
            assert(s[q] == a[q]);
            assert(g.ancestor(x, k) != Some(a[q]));
        } else if p == a.len() && q == a.len() {
            assert(g.ancestor(x, k) != Some(x));
        }
    }
}

/// In a forest the walk of the sources of `x` puts no node after one it feeds.
pub proof fn lemma_children_order_sources_first(g: GraphView, x: usize, i: nat, f: nat)
    requires
        g.wf(),
        g.is_forest(),
        x < g.len(),
    ensures
        g.sources_first(children_order(g.children, x, i, f)),
    decreases f, g.children[x as int].len() - i,
{
    let ch = g.children;
    if i >= ch[x as int].len() {
        assert(g.sources_first(Seq::<usize>::empty()));
    } else {
        let c = ch[x as int][i as int];
        lemma_child_parent(g, x, i as int);
        let rest = children_order(ch, x, i + 1, f);
        lemma_children_order_sources_first(g, x, i + 1, f);
        if f == 0 {
            assert(children_order(ch, x, i, f) == Seq::<usize>::empty() + rest);
            assert(Seq::<usize>::empty() + rest =~= rest);
        } else {
            let first = subtree_order(ch, c, f);
            lemma_subtree_order_sources_first(g, c, f);
            assert forall|p: int, q: int, k: nat|
                #![trigger g.ancestor(rest[p], k), first[q]]
                0 <= p < rest.len() && 0 <= q < first.len() && k > 0 implies g.ancestor(rest[p], k) != Some(first[q]) by {
                let y = rest[p];
                let z = first[q];
                if g.ancestor(y, k) == Some(z) {
                    assert(rest.contains(y));
                    assert(first.contains(z));
                    lemma_children_order_sound(g, x, i + 1, f, y);
                    let l = choose|l: int| i + 1 <= l < ch[x as int].len() && g.below(y, #[trigger] ch[x as int][l], f);
                    let cl = ch[x as int][l];
                    lemma_child_parent(g, x, l);
                    let d2 = choose|d: nat| d < f && #[trigger] g.ancestor(y, d) == Some(cl);
                    lemma_subtree_order_sound(g, c, f, z);
                    let d1 = choose|d: nat| d < f && #[trigger] g.ancestor(z, d) == Some(c);
                    lemma_ancestor_add(g, y, k, d1);
                    lemma_same_branch(g, y, x, c, cl, k + d1, d2);
                    assert(ch[x as int][i as int] == ch[x as int][l]);
                }
            }
            lemma_concat_sources_first(g, first, rest);
            assert(children_order(ch, x, i, f) == first + rest);
        }
    }
}

/// In a forest the walk of the subtree of `x` puts no node after one it feeds.
pub proof fn lemma_subtree_order_sources_first(g: GraphView, x: usize, f: nat)
    requires
        g.wf(),
        g.is_forest(),
        x < g.len(),
    ensures
        g.sources_first(subtree_order(g.children, x, f)),
    decreases f, 0nat,
{
    if f == 0 {
        assert(g.sources_first(Seq::<usize>::empty()));
    } else {
        let inner = children_order(g.children, x, 0, (f - 1) as nat);
        lemma_children_order_sources_first(g, x, 0, (f - 1) as nat);
        assert forall|q: int, k: nat|
            #![trigger g.ancestor(x, k), inner[q]]
            0 <= q < inner.len() && k > 0 implies g.ancestor(x, k) != Some(inner[q]) by {
            let z = inner[q];
            if g.ancestor(x, k) == Some(z) {
                assert(inner.contains(z));
                lemma_children_order_sound(g, x, 0, (f - 1) as nat, z);
                let l = choose|l: int| 0 <= l < g.children[x as int].len() && g.below(z, #[trigger] g.children[x as int][l], (f - 1) as nat);
                let cl = g.children[x as int][l];
                lemma_child_parent(g, x, l);
                let d = choose|d: nat| d < (f - 1) as nat && #[trigger] g.ancestor(z, d) == Some(cl);
                lemma_ancestor_add(g, x, k, d);
                assert(g.ancestor(x, k + d + 1) == Some(x));
            }
        }
        lemma_push_sources_first(g, inner, x);
    }
}

/// The walk of one block: it visits each node whose signal reaches the sink,
/// and no other, exactly once; and it visits every node after all the nodes
/// that feed it, directly or not, and before the node it feeds. Every graph
/// keeps its connections a forest, so this holds of every graph.
pub proof fn lemma_schedule_is_source_first(g: GraphView)
    requires
        g.wf(),
    ensures
        g.schedule().no_duplicates(),
        forall|y: usize|
            #[trigger] g.schedule().contains(y) <==> (y < g.len() && exists|k: nat| #[trigger] g.ancestor(y, k) == Some(0usize)),
        g.sources_first(g.schedule()),
{
    lemma_subtree_order_no_dup(g, 0, g.len());
    lemma_subtree_order_sources_first(g, 0, g.len());
    assert forall|y: usize|
        #[trigger] g.schedule().contains(y) <==> (y < g.len() && exists|k: nat| #[trigger] g.ancestor(y, k) == Some(0usize)) by {
        if g.schedule().contains(y) {
            lemma_subtree_order_sound(g, 0, g.len(), y);
            let d = choose|d: nat| d < g.len() && #[trigger] g.ancestor(y, d) == Some(0usize);
        }
        if y < g.len() && exists|k: nat| #[trigger] g.ancestor(y, k) == Some(0usize) {
            let k = choose|k: nat| #[trigger] g.ancestor(y, k) == Some(0usize);
            lemma_depth_bound(g, y, 0, k);
            lemma_subtree_order_complete(g, 0, g.len(), y, k);
        }
    }
}

/// Adding nodes one after another to a graph that holds only its sink hands
/// out the ids 1, 2, ... in order: the node added `i`-th (from 0) finds
/// `i + 1` nodes in the graph, which is the id it gets. The sink keeps id 0,
/// and each added node keeps its category under its id.
pub proof fn lemma_ids_in_order(g: GraphView, ts: Seq<(AudioNodeType, nat)>)
    requires
        g.wf(),
        g.len() == 1,
    ensures
        forall|i: int| 0 <= i < ts.len() ==> #[trigger] g.registered_all(ts.take(i)).len() == i + 1,
        g.registered_all(ts).len() == ts.len() + 1,
        g.registered_all(ts).node_types[0] == AudioNodeType::Output,
        forall|i: int| 0 <= i < ts.len() ==> #[trigger] g.registered_all(ts).node_types[i + 1] == ts[i].0,
    decreases ts.len(),
{
    if ts.len() > 0 {
        let front = ts.drop_last();
        lemma_ids_in_order(g, front);
        assert forall|i: int| 0 <= i < ts.len() implies #[trigger] g.registered_all(ts.take(i)).len() == i + 1 by {
            if i < front.len() {
                assert(ts.take(i) =~= front.take(i));
            } else {
                assert(ts.take(i) =~= front);
            }
        }
        assert forall|i: int| 0 <= i < ts.len() implies #[trigger] g.registered_all(ts).node_types[i + 1] == ts[i].0 by {
            if i < front.len() {
                assert(front[i] == ts[i]);
            }
        }
    }
}

/// Connecting `a` to `b` a second time is refused as an existing edge,
/// as long as `b` still has a free port; the refusal leaves the graph as
/// the first call made it.
pub proof fn lemma_connect_twice(g: GraphView, a: usize, b: usize, p: usize)
    requires
        g.wf(),
        g.connect_result(a, b, p) == Ok::<(), ErrorCodes>(()),
        g.connected(a, b).used_inputs(b as int) < g.num_inputs[b as int],
    ensures
        g.connected(a, b).connect_result(a, b, p) == Err::<(), ErrorCodes>(ErrorCodes::ConnectionAlreadyExists),
{
    let g2 = g.connected(a, b);
    assert(g2.children[b as int][g.children[b as int].len() as int] == a);
}

/// A node cannot feed itself: once the ids and the port check out, the
/// connection is refused as one of a node with itself.
pub proof fn lemma_no_self_loop(g: GraphView, a: usize, p: usize)
    requires
        g.wf(),
        a < g.len(),
        p < g.num_inputs[a as int],
        g.used_inputs(a as int) < g.num_inputs[a as int],
    ensures
        g.connect_result(a, a, p) == Err::<(), ErrorCodes>(ErrorCodes::NodeConnectingToItself),
{
}

/// Once `a` feeds `b`, connecting it to another node `c` is refused because
/// `a` already has a parent, as long as the earlier rules hold for `c`.
pub proof fn lemma_one_parent(g: GraphView, a: usize, b: usize, c: usize, p: usize, q: usize)
    requires
        g.wf(),
        g.connect_result(a, b, p) == Ok::<(), ErrorCodes>(()),
        c != b,
        c != a,
        c < g.len(),
        q < g.num_inputs[c as int],
        g.connected(a, b).used_inputs(c as int) < g.num_inputs[c as int],
    ensures
        g.connected(a, b).connect_result(a, c, q) == Err::<(), ErrorCodes>(ErrorCodes::NodeParentAlreadyExists),
{
    assert(g.parents[a as int] is None);
    assert(!g.children[c as int].contains(a));
}

/// The sink takes one source: once a connection to it has succeeded, every
/// further one is refused for want of a free port. On a graph whose sink is
/// still free, the first connection of a node that feeds nothing succeeds.
pub proof fn lemma_output_admits_one(g: GraphView, a: usize, b: usize)
    requires
        g.wf(),
    ensures
        g.output_result(a) == Ok::<(), ErrorCodes>(()) ==> g.connected(a, 0).output_result(b)
            == Err::<(), ErrorCodes>(ErrorCodes::NodeNoMoreInputs),
        g.used_inputs(0) >= 1 ==> g.output_result(b) == Err::<(), ErrorCodes>(ErrorCodes::NodeNoMoreInputs),
        (g.used_inputs(0) == 0 && 0 < a < g.len() && g.parents[a as int] is None) ==> g.output_result(a)
            == Ok::<(), ErrorCodes>(()),
{
    if g.used_inputs(0) == 0 && 0 < a < g.len() && g.parents[a as int] is None {
        assert(g.children[0] =~= Seq::<usize>::empty());
        if g.reaches(0, a) {
            let k = choose|k: nat| #[trigger] g.ancestor(0, k) == Some(a);
            if k >= 1 {
                lemma_root_ancestor_none(g, 0, k);
            }
        }
    }
}

/// Preparing twice with the same valid settings leaves the graph as one
/// preparation does: the same settings, and the nodes and their connections
/// as they were.
pub proof fn lemma_prepare_idempotent(g: GraphView, p: AudioRuntimeParameters)
    requires
        params_error(p) is None,
    ensures
        g.prepared(p).prepared(p) == g.prepared(p),
        g.prepared(p).params == p,
        g.prepared(p).node_types == g.node_types,
        g.prepared(p).num_inputs == g.num_inputs,
        g.prepared(p).parents == g.parents,
        g.prepared(p).children == g.children,
{
}

/// What each call does to the nodes over any sequence of calls: only adding
/// a node changes their number, by one, keeping the categories of the nodes
/// already there; no call frees a port once used; and the sink never has more
/// than one source. So ids, once handed out, are never handed out again, and
/// after one source has been connected to the sink every later attempt is
/// refused.
pub proof fn lemma_calls_keep_nodes(
    g: GraphView,
    out: usize,
    inp: usize,
    t: AudioNodeType,
    n: nat,
    p: AudioRuntimeParameters,
)
    requires
        g.wf(),
    ensures
        g.children[0].len() <= 1,
        out < g.len() && inp < g.len() ==> {
            let g2 = g.connected(out, inp);
            &&& g2.len() == g.len()
            &&& g2.node_types == g.node_types
            &&& forall|i: int| 0 <= i < g.len() ==> #[trigger] g2.used_inputs(i) >= g.used_inputs(i)
        },
        ({
            let g2 = g.registered(t, n);
            &&& g2.len() == g.len() + 1
            &&& forall|i: int| 0 <= i < g.len() ==> #[trigger] g2.node_types[i] == g.node_types[i]
            &&& forall|i: int| 0 <= i < g.len() ==> #[trigger] g2.used_inputs(i) == g.used_inputs(i)
        }),
        g.prepared(p).node_types == g.node_types,
        g.prepared(p).children == g.children,
{
}

} // verus!
