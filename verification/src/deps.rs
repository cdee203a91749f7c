//! Dependency resolution: `requires` and `build_deps` into build order.
//!
//! `requires` are runtime dependencies; `build_deps` are needed to build only.
//! Both order a build, so resolution and the topological sort walk both; only
//! the runtime edges shape the tree display.

use crate::meta::SnapMeta;
use crate::text::{
    chars_of, contains, copy_texts, distinct, ends_with, extend_distinct, holds,
    law_cut_at_the_first, law_ends_are_taken_off, lemma_distinct, lemma_filter_members,
    lemma_find_from, lemma_texts_push, list_contains, occurs_at, str_eq, texts, trim, trimmed,
};
use vstd::prelude::*;

verus! {

/// A resolved dependency node.
#[derive(Debug)]
pub struct DepNode {
    pub name: String,
    pub requires: Vec<String>,
    pub build_deps: Vec<String>,
}

/// The model of a [`DepNode`].
#[verifier::ext_equal]
pub struct NodeView {
    pub name: Seq<char>,
    pub requires: Seq<Seq<char>>,
    pub build_deps: Seq<Seq<char>>,
}

impl View for DepNode {
    type V = NodeView;

    open spec fn view(&self) -> NodeView {
        NodeView {
            name: self.name@,
            requires: texts(self.requires@),
            build_deps: texts(self.build_deps@),
        }
    }
}

/// Every dependency edge of a node: `requires` and `build_deps`, each name
/// once, in declaration order.
pub open spec fn edges(n: NodeView) -> Seq<Seq<char>> {
    distinct(n.requires + n.build_deps)
}

impl DepNode {
    /// Every dependency edge of this node: `requires` and `build_deps`,
    /// deduplicated, declaration order preserved.
    pub fn all_deps(&self) -> (r: Vec<String>)
        ensures
            texts(r@) == edges(self@),
    {
        let mut all: Vec<String> = Vec::new();
        assert(texts(all@) =~= distinct(Seq::<Seq<char>>::empty()));
        extend_distinct(&mut all, &self.requires, Ghost(Seq::<Seq<char>>::empty()));
        assert(Seq::<Seq<char>>::empty() + texts(self.requires@) =~= texts(self.requires@));
        extend_distinct(&mut all, &self.build_deps, Ghost(texts(self.requires@)));
        all
    }

    /// A copy of the node.
    pub fn copy(&self) -> (r: DepNode)
        ensures
            r@ == self@,
    {
        DepNode {
            name: self.name.clone(),
            requires: copy_texts(&self.requires),
            build_deps: copy_texts(&self.build_deps),
        }
    }
}

/// The models of a list of nodes.
pub open spec fn node_views(v: Seq<DepNode>) -> Seq<NodeView> {
    v.map_values(|n: DepNode| n@)
}

/// Whether no two nodes have one name.
pub open spec fn distinct_names(ns: Seq<NodeView>) -> bool {
    forall|i: int, j: int|
        0 <= i < ns.len() && 0 <= j < ns.len() && i != j ==> (#[trigger] ns[i]).name != (
        #[trigger] ns[j]).name
}

/// Whether node `i` depends on node `j`.
pub open spec fn depends(ns: Seq<NodeView>, i: int, j: int) -> bool {
    edges(ns[i]).contains(ns[j].name)
}

/// Whether `order` lists nodes of `ns`, each at most once.
pub open spec fn is_selection(order: Seq<int>, n: int) -> bool {
    &&& order.no_duplicates()
    &&& forall|k: int| 0 <= k < order.len() ==> 0 <= #[trigger] order[k] < n
}

/// Whether each of the first `k` nodes of `order` comes after everything in
/// the graph that it depends on.
pub open spec fn deps_first(ns: Seq<NodeView>, order: Seq<int>, k: int) -> bool {
    forall|a: int, j: int|
        #![trigger order[a], depends(ns, order[a], j)]
        0 <= a < k && 0 <= j < ns.len() && depends(ns, order[a], j) ==> order.take(a).contains(j)
}

/// Whether node `i` depends on a node that is not among `placed`.
pub open spec fn waits(ns: Seq<NodeView>, placed: Seq<int>, i: int) -> bool {
    exists|j: int| 0 <= j < ns.len() && #[trigger] depends(ns, i, j) && !placed.contains(j)
}

/// Whether `order` is a build order of `ns`: every node once; the first `k`
/// with their dependencies before them; each of the others depending on
/// another of the others, so that no order could place it.
pub open spec fn is_build_order(ns: Seq<NodeView>, order: Seq<int>, k: int) -> bool {
    &&& is_selection(order, ns.len() as int)
    &&& order.len() == ns.len()
    &&& 0 <= k <= order.len()
    &&& deps_first(ns, order, k)
    &&& forall|a: int| k <= a < order.len() ==> waits(ns, order.take(k), #[trigger] order[a])
}

/// The nodes of `ns` in the order `order`.
pub open spec fn arranged(ns: Seq<NodeView>, order: Seq<int>) -> Seq<NodeView> {
    order.map_values(|i: int| ns[i])
}

/// Whether `r` is `ns` in a build order.
pub open spec fn build_ordered(ns: Seq<NodeView>, r: Seq<NodeView>) -> bool {
    exists|order: Seq<int>, k: int| #[trigger]
        is_build_order(ns, order, k) && r == arranged(ns, order)
}

/// The numbers of the nodes that each node depends on.
fn edge_lists(nodes: &Vec<DepNode>) -> (r: Vec<Vec<usize>>)
    ensures
        r@.len() == nodes@.len(),
        forall|i: int, j: int|
            #![trigger depends(node_views(nodes@), i, j)]
            0 <= i < nodes@.len() && 0 <= j < nodes@.len() ==> (depends(node_views(nodes@), i, j)
                <==> exists|m: int| 0 <= m < r@[i]@.len() && r@[i]@[m] == j),
        forall|i: int, m: int|
            0 <= i < nodes@.len() && 0 <= m < r@[i]@.len() ==> (#[trigger] r@[i]@[m])
                < nodes@.len(),
{
    let ghost ns = node_views(nodes@);
    let mut out: Vec<Vec<usize>> = Vec::new();
    let mut i: usize = 0;
    while i < nodes.len()
        invariant
            i <= nodes.len(),
            ns == node_views(nodes@),
            out@.len() == i,
            forall|a: int, j: int|
                #![trigger depends(ns, a, j)]
                0 <= a < i && 0 <= j < nodes@.len() ==> (depends(ns, a, j) <==> exists|m: int|
                    0 <= m < out@[a]@.len() && out@[a]@[m] == j),
            forall|a: int, m: int|
                0 <= a < i && 0 <= m < out@[a]@.len() ==> (#[trigger] out@[a]@[m]) < nodes@.len(),
        decreases nodes.len() - i,
    {
        let deps = nodes[i].all_deps();
        let mut list: Vec<usize> = Vec::new();
        let mut j: usize = 0;
        while j < nodes.len()
            invariant
                i < nodes.len(),
                j <= nodes.len(),
                ns == node_views(nodes@),
                texts(deps@) == edges(ns[i as int]),
                forall|b: int|
                    #![trigger depends(ns, i as int, b)]
                    0 <= b < j ==> (depends(ns, i as int, b) <==> exists|m: int|
                        0 <= m < list@.len() && list@[m] == b),
                forall|m: int| 0 <= m < list@.len() ==> #[trigger] list@[m] < j,
            decreases nodes.len() - j,
        {
            let ghost before = list@;
            assert(ns[j as int].name == nodes@[j as int].name@);
            if list_contains(&deps, nodes[j].name.as_str()) {
                list.push(j);
                assert(list@[before.len() as int] == j);
            }
            assert forall|b: int|
                #![trigger depends(ns, i as int, b)]
                0 <= b < j + 1 implies (depends(ns, i as int, b) <==> exists|m: int|
                0 <= m < list@.len() && list@[m] == b) by {
                if b < j {
                    if depends(ns, i as int, b) {
                        let m = choose|m: int| 0 <= m < before.len() && before[m] == b;
                        assert(list@[m] == b);
                    }
                    if exists|m: int| 0 <= m < list@.len() && list@[m] == b {
                        let m = choose|m: int| 0 <= m < list@.len() && list@[m] == b;
                        assert(before[m] == b);
                    }
                }
            }
            j += 1;
        }
        let ghost before = out@;
        out.push(list);
        assert forall|a: int, b: int|
            #![trigger depends(ns, a, b)]
            0 <= a < i + 1 && 0 <= b < nodes@.len() implies (depends(ns, a, b) <==> exists|m: int|
            0 <= m < out@[a]@.len() && out@[a]@[m] == b) by {
            if a < i {
                assert(out@[a] == before[a]);
                assert(depends(ns, a, b) <==> exists|m: int|
                    0 <= m < before[a]@.len() && before[a]@[m] == b);
            } else {
                assert(out@[a] == list);
                assert(depends(ns, i as int, b) <==> exists|m: int|
                    0 <= m < list@.len() && list@[m] == b);
            }
        }
        i += 1;
    }
    out
}

/// Topological sort: dependencies first. Both kinds of edges count; a
/// dependency outside the graph is no edge. Nodes on or behind a cycle come
/// last.
pub fn topological_sort(nodes: &Vec<DepNode>) -> (r: Vec<DepNode>)
    requires
        distinct_names(node_views(nodes@)),
    ensures
        build_ordered(node_views(nodes@), node_views(r@)),
{
    let ghost ns = node_views(nodes@);
    let n: usize = nodes.len();
    let lists = edge_lists(nodes);
    let mut placed: Vec<bool> = Vec::new();
    let mut z: usize = 0;
    while z < n
        invariant
            z <= n,
            placed@.len() == z,
            forall|i: int| 0 <= i < z ==> !#[trigger] placed@[i],
        decreases n - z,
    {
        placed.push(false);
        z += 1;
    }
    let mut out: Vec<DepNode> = Vec::new();
    let ghost mut order: Seq<int> = Seq::empty();
    let mut progress: bool = true;
    assert(node_views(out@) =~= arranged(ns, order));
    while progress
        invariant
            n == nodes@.len(),
            ns == node_views(nodes@),
            lists@.len() == n,
            forall|i: int, j: int|
                #![trigger depends(ns, i, j)]
                0 <= i < n && 0 <= j < n ==> (depends(ns, i, j) <==> exists|m: int|
                    0 <= m < lists@[i]@.len() && lists@[i]@[m] == j),
            forall|i: int, m: int|
                0 <= i < n && 0 <= m < lists@[i]@.len() ==> (#[trigger] lists@[i]@[m]) < n,
            placed@.len() == n,
            is_selection(order, n as int),
            forall|i: int| 0 <= i < n ==> #[trigger] placed@[i] == order.contains(i),
            deps_first(ns, order, order.len() as int),
            node_views(out@) == arranged(ns, order),
            out@.len() == order.len(),
            !progress ==> forall|i: int|
                0 <= i < n && !#[trigger] placed@[i] ==> waits(ns, order, i),
        decreases n - order.len(), progress as int,
    {
        proof {
            lemma_selection_len(order, n as int);
        }
        progress = false;
        let ghost start = order;
        let mut i: usize = 0;
        while i < n
            invariant
                i <= n,
                n == nodes@.len(),
                ns == node_views(nodes@),
                lists@.len() == n,
                forall|a: int, j: int|
                    #![trigger depends(ns, a, j)]
                    0 <= a < n && 0 <= j < n ==> (depends(ns, a, j) <==> exists|m: int|
                        0 <= m < lists@[a]@.len() && lists@[a]@[m] == j),
                forall|a: int, m: int|
                    0 <= a < n && 0 <= m < lists@[a]@.len() ==> (#[trigger] lists@[a]@[m]) < n,
                placed@.len() == n,
                is_selection(order, n as int),
                forall|a: int| 0 <= a < n ==> #[trigger] placed@[a] == order.contains(a),
                deps_first(ns, order, order.len() as int),
                node_views(out@) == arranged(ns, order),
                out@.len() == order.len(),
                order.len() >= start.len(),
                progress ==> order.len() > start.len(),
                !progress ==> order == start,
                !progress ==> forall|a: int|
                    0 <= a < i && !#[trigger] placed@[a] ==> waits(ns, order, a),
            decreases n - i,
        {
            if !placed[i] {
                let mut free: bool = true;
                let mut m: usize = 0;
                while m < lists[i].len()
                    invariant
                        i < n,
                        m <= lists@[i as int]@.len(),
                        lists@.len() == n,
                        placed@.len() == n,
                        forall|a: int, b: int|
                            0 <= a < n && 0 <= b < lists@[a]@.len() ==> (
                            #[trigger] lists@[a]@[b]) < n,
                        free ==> forall|b: int|
                            0 <= b < m ==> placed@[(#[trigger] lists@[i as int]@[b]) as int],
                        !free ==> exists|b: int|
                            0 <= b < lists@[i as int]@.len()
                                && !placed@[(#[trigger] lists@[i as int]@[b]) as int],
                    decreases lists@[i as int]@.len() - m,
                {
                    if !placed[lists[i][m]] {
                        assert(!placed@[lists@[i as int]@[m as int] as int]);
                        free = false;
                    }
                    m += 1;
                }
                if free {
                    let ghost before = order;
                    let ghost flags = placed@;
                    proof {
                        order = order.push(i as int);
                    }
                    let ghost old_out = out@;
                    out.push(nodes[i].copy());
                    placed.set(i, true);
                    progress = true;
                    proof {
                        lemma_place(ns, before, i as int);
                        assert(node_views(out@) =~= node_views(old_out).push(ns[i as int]));
                        assert(arranged(ns, order) =~= arranged(ns, before).push(ns[i as int]));
                        assert forall|a: int| 0 <= a < n implies #[trigger] placed@[a]
                            == order.contains(a) by {
                            lemma_push_contains(before, i as int, a);
                            assert(flags[a] == before.contains(a));
                        }
                    }
                } else {
                    proof {
                        let b = choose|b: int|
                            0 <= b < lists@[i as int]@.len()
                                && !placed@[(#[trigger] lists@[i as int]@[b]) as int];
                        let j = lists@[i as int]@[b] as int;
                        assert(0 <= j < n);
                        assert(depends(ns, i as int, j));
                        assert(placed@[j] == order.contains(j));
                        assert(waits(ns, order, i as int));
                    }
                }
            }
            i += 1;
        }
        proof {
            lemma_selection_len(order, n as int);
        }
    }
    let ghost k = order.len() as int;
    let ghost front = order;
    let mut i: usize = 0;
    while i < n
        invariant
            i <= n,
            n == nodes@.len(),
            ns == node_views(nodes@),
            placed@.len() == n,
            is_selection(front, n as int),
            is_selection(order, n as int),
            k == front.len(),
            k <= order.len(),
            order.take(k) == front,
            forall|a: int| 0 <= a < n ==> #[trigger] placed@[a] == front.contains(a),
            forall|a: int| 0 <= a < n ==> (#[trigger] order.contains(a) <==> placed@[a] || a < i),
            deps_first(ns, front, k),
            forall|a: int| 0 <= a < n && !#[trigger] placed@[a] ==> waits(ns, front, a),
            node_views(out@) == arranged(ns, order),
            forall|a: int| k <= a < order.len() ==> !placed@[#[trigger] order[a]],
        decreases n - i,
    {
        if !placed[i] {
            let ghost before = order;
            let ghost old_out = out@;
            proof {
                order = order.push(i as int);
                assert(order.take(k) =~= before.take(k));
                assert forall|a: int| 0 <= a < n implies (#[trigger] order.contains(a)
                    <==> placed@[a] || a < i + 1) by {
                    lemma_push_contains(before, i as int, a);
                    assert(before.contains(a) <==> placed@[a] || a < i);
                }
                assert(!before.contains(i as int));
            }
            out.push(nodes[i].copy());
            assert(node_views(out@) =~= node_views(old_out).push(ns[i as int]));
            assert(arranged(ns, order) =~= arranged(ns, before).push(ns[i as int]));
        }
        i += 1;
    }
    proof {
        lemma_full_selection(order, n as int);
        assert(deps_first(ns, order, k)) by {
            assert forall|a: int, j: int|
                #![trigger order[a], depends(ns, order[a], j)]
                0 <= a < k && 0 <= j < ns.len() && depends(ns, order[a], j) implies order.take(
                a,
            ).contains(j) by {
                assert(front[a] == order[a]);
                assert(front.take(a) =~= order.take(a));
                assert(depends(ns, front[a], j));
            }
        }
        assert forall|a: int| k <= a < order.len() implies waits(
            ns,
            order.take(k),
            #[trigger] order[a],
        ) by {
            assert(!placed@[order[a]]);
        }
        assert(is_build_order(ns, order, k));
    }
    out
}

proof fn lemma_push_contains(s: Seq<int>, x: int, a: int)
    ensures
        s.push(x).contains(a) <==> s.contains(a) || a == x,
{
    let t = s.push(x);
    if s.contains(a) {
        let k = choose|k: int| 0 <= k < s.len() && s[k] == a;
        assert(t[k] == a);
    }
    if t.contains(a) {
        let k = choose|k: int| 0 <= k < t.len() && t[k] == a;
        if k < s.len() {
            assert(s[k] == a);
        }
    }
    assert(t[s.len() as int] == x);
}

/// Placing a node whose dependencies are all placed keeps the order.
proof fn lemma_place(ns: Seq<NodeView>, order: Seq<int>, i: int)
    requires
        is_selection(order, ns.len() as int),
        0 <= i < ns.len(),
        !order.contains(i),
        deps_first(ns, order, order.len() as int),
        forall|j: int| 0 <= j < ns.len() && #[trigger] depends(ns, i, j) ==> order.contains(j),
    ensures
        is_selection(order.push(i), ns.len() as int),
        deps_first(ns, order.push(i), order.len() as int + 1),
{
    let t = order.push(i);
    assert forall|a: int, b: int| 0 <= a < t.len() && 0 <= b < t.len() && a != b implies t[a]
        != t[b] by {
        if a == order.len() {
            assert(order[b] != i);
        } else if b == order.len() {
            assert(order[a] != i);
        }
    }
    assert forall|a: int, j: int|
        #![trigger t[a], depends(ns, t[a], j)]
        0 <= a < order.len() + 1 && 0 <= j < ns.len() && depends(ns, t[a], j) implies t.take(
        a,
    ).contains(j) by {
        assert(t.take(a) =~= order.take(a));
        if a < order.len() {
            assert(order[a] == t[a]);
            assert(depends(ns, order[a], j));
        } else {
            assert(order.take(a) =~= order);
        }
    }
}

/// A selection has at most as many entries as there are nodes.
proof fn lemma_selection_len(order: Seq<int>, n: int)
    requires
        is_selection(order, n),
        0 <= n,
    ensures
        order.len() <= n,
{
    let s = order.to_set();
    let all = vstd::set_lib::set_int_range(0, n);
    vstd::set_lib::lemma_int_range(0, n);
    order.unique_seq_to_set();
    assert(s.subset_of(all)) by {
        assert forall|x: int| s.contains(x) implies all.contains(x) by {
            let k = choose|k: int| 0 <= k < order.len() && order[k] == x;
            assert(0 <= order[k] < n);
        }
    }
    vstd::set_lib::lemma_len_subset(s, all);
}

/// A selection that holds every node has as many entries as there are nodes.
proof fn lemma_full_selection(order: Seq<int>, n: int)
    requires
        is_selection(order, n),
        0 <= n,
        forall|a: int| 0 <= a < n ==> #[trigger] order.contains(a),
    ensures
        order.len() == n,
{
    let s = order.to_set();
    let all = vstd::set_lib::set_int_range(0, n);
    vstd::set_lib::lemma_int_range(0, n);
    order.unique_seq_to_set();
    assert(s =~= all) by {
        assert forall|x: int| s.contains(x) <==> all.contains(x) by {
            if s.contains(x) {
                let k = choose|k: int| 0 <= k < order.len() && order[k] == x;
                assert(0 <= order[k] < n);
            }
        }
    }
}

/// In a build order without waiting nodes every node comes after all that it
/// depends on; and where some order of all nodes has that property, no build
/// order leaves a node waiting.
pub proof fn law_order_is_complete_without_cycles(
    ns: Seq<NodeView>,
    order: Seq<int>,
    k: int,
    other: Seq<int>,
)
    requires
        is_build_order(ns, order, k),
        is_selection(other, ns.len() as int),
        other.len() == ns.len(),
        deps_first(ns, other, other.len() as int),
    ensures
        k == ns.len(),
        deps_first(ns, order, ns.len() as int),
{
    if k < order.len() {
        // The first waiting node of `other` would depend on an earlier one.
        let w = order[k];
        lemma_selection_is_full(other, ns.len() as int, w);
        let m = choose|m: int| 0 <= m < other.len() && other[m] == w;
        assert(!order.take(k).contains(w)) by {
            if order.take(k).contains(w) {
                let a = choose|a: int| 0 <= a < order.take(k).len() && order.take(k)[a] == w;
                assert(order[a] == order[k]);
            }
        }
        lemma_no_waiting(ns, order, k, other, m);
    }
}

/// No node of `other` waits in `order`: each comes after its dependencies.
proof fn lemma_no_waiting(ns: Seq<NodeView>, order: Seq<int>, k: int, other: Seq<int>, m: int)
    requires
        is_build_order(ns, order, k),
        is_selection(other, ns.len() as int),
        deps_first(ns, other, other.len() as int),
        0 <= m < other.len(),
    ensures
        order.take(k).contains(other[m]),
    decreases m,
{
    let w = other[m];
    if !order.take(k).contains(w) {
        lemma_selection_is_full(order, ns.len() as int, w);
        let a = choose|a: int| 0 <= a < order.len() && order[a] == w;
        if a < k {
            assert(order.take(k)[a] == w);
        }
        assert(waits(ns, order.take(k), order[a]));
        let j = choose|j: int|
            0 <= j < ns.len() && #[trigger] depends(ns, w, j) && !order.take(k).contains(j);
        assert(depends(ns, other[m], j));
        assert(other.take(m).contains(j));
        let b = choose|b: int| 0 <= b < other.take(m).len() && other.take(m)[b] == j;
        assert(other[b] == j);
        lemma_no_waiting(ns, order, k, other, b);
    }
}

/// A selection of as many nodes as there are holds each.
proof fn lemma_selection_is_full(order: Seq<int>, n: int, x: int)
    requires
        is_selection(order, n),
        order.len() == n,
        0 <= x < n,
    ensures
        order.contains(x),
{
    if !order.contains(x) {
        let t = order.push(x);
        assert(is_selection(t, n)) by {
            assert forall|a: int, b: int|
                0 <= a < t.len() && 0 <= b < t.len() && a != b implies t[a] != t[b] by {
                if a == n {
                    assert(order[b] != x);
                } else if b == n {
                    assert(order[a] != x);
                }
            }
        }
        lemma_selection_len(t, n);
    }
}

/// The declared build-time dependency seeds of a package: `requires` and
/// `build_deps`, each name once, without the package's own name. A package
/// that names itself builds that dependency's payload, so it does not seed
/// its own build prefix.
pub open spec fn seeds_of(name: Seq<char>, required: Seq<Seq<char>>, build_deps: Seq<Seq<char>>) -> Seq<
    Seq<char>,
> {
    distinct((required + build_deps).filter(other_than(name)))
}

/// Whether a text is another than `name`.
pub open spec fn other_than(name: Seq<char>) -> spec_fn(Seq<char>) -> bool {
    |d: Seq<char>| d != name
}

fn others(v: &Vec<String>, name: &str) -> (r: Vec<String>)
    ensures
        texts(r@) == texts(v@).filter(other_than(name@)),
{
    broadcast use lemma_texts_push;

    let ghost keep = other_than(name@);
    let ghost all = texts(v@);
    let mut out: Vec<String> = Vec::new();
    let mut i: usize = 0;
    assert(all.take(0).filter(keep) =~= Seq::<Seq<char>>::empty()) by {
        reveal(Seq::filter);
    }
    while i < v.len()
        invariant
            i <= v.len(),
            all == texts(v@),
            keep == other_than(name@),
            texts(out@) == all.take(i as int).filter(keep),
        decreases v.len() - i,
    {
        assert(all.take(i + 1).drop_last() =~= all.take(i as int));
        assert(all.take(i + 1).last() == v@[i as int]@);
        proof {
            reveal(Seq::filter);
        }
        if !str_eq(v[i].as_str(), name) {
            out.push(v[i].clone());
        }
        i += 1;
    }
    assert(all.take(i as int) =~= all);
    out
}

/// The build-time dependency seeds of a package.
pub fn build_dep_seeds(meta: &SnapMeta) -> (r: Vec<String>)
    ensures
        texts(r@) == seeds_of(meta.name@, texts(meta.requires@), texts(meta.build_deps@)),
{
    let name = meta.name.as_str();
    let ghost keep = other_than(name@);
    let a = others(&meta.requires, name);
    let b = others(&meta.build_deps, name);
    let mut out: Vec<String> = Vec::new();
    assert(texts(out@) =~= distinct(Seq::<Seq<char>>::empty()));
    extend_distinct(&mut out, &a, Ghost(Seq::<Seq<char>>::empty()));
    assert(Seq::<Seq<char>>::empty() + texts(a@) =~= texts(a@));
    extend_distinct(&mut out, &b, Ghost(texts(a@)));
    proof {
        Seq::filter_distributes_over_add(texts(meta.requires@), texts(meta.build_deps@), keep);
    }
    out
}

/// Filtering keeps exactly what passes.
proof fn lemma_filter_contains(
    s: Seq<Seq<char>>,
    keep: spec_fn(Seq<char>) -> bool,
    d: Seq<char>,
)
    ensures
        s.filter(keep).contains(d) <==> s.contains(d) && keep(d),
    decreases s.len(),
{
    reveal(Seq::filter);
    if s.len() > 0 {
        let r = s.drop_last();
        let f = r.filter(keep);
        let g = s.filter(keep);
        lemma_filter_contains(r, keep, d);
        if g.contains(d) {
            let k = choose|k: int| 0 <= k < g.len() && g[k] == d;
            if k < f.len() {
                assert(f[k] == d);
                let m = choose|m: int| 0 <= m < r.len() && r[m] == d;
                assert(s[m] == d);
            } else {
                assert(s[s.len() - 1] == d);
            }
        }
        if s.contains(d) && keep(d) {
            let m = choose|m: int| 0 <= m < s.len() && s[m] == d;
            if m < r.len() {
                assert(r[m] == d);
                let k = choose|k: int| 0 <= k < f.len() && f[k] == d;
                assert(g[k] == d);
            } else {
                assert(g[f.len() as int] == d);
            }
        }
    }
}

/// A seed never names the package itself, and every other dependency seeds.
pub proof fn law_seeds_leave_out_the_package(
    name: Seq<char>,
    required: Seq<Seq<char>>,
    build_deps: Seq<Seq<char>>,
)
    ensures
        seeds_of(name, required, build_deps).no_duplicates(),
        forall|d: Seq<char>| #[trigger]
            seeds_of(name, required, build_deps).contains(d) <==> d != name && (required.contains(
                d,
            ) || build_deps.contains(d)),
{
    let keep = other_than(name);
    let all = required + build_deps;
    let f = all.filter(keep);
    lemma_distinct(f);
    assert forall|d: Seq<char>| #[trigger]
        seeds_of(name, required, build_deps).contains(d) <==> d != name && (required.contains(d)
            || build_deps.contains(d)) by {
        assert(distinct(f).contains(d) <==> f.contains(d));
        lemma_filter_contains(all, keep, d);
        if f.contains(d) {
            let m = choose|m: int| 0 <= m < all.len() && all[m] == d;
            if m < required.len() {
                assert(required[m] == d);
            } else {
                assert(build_deps[m - required.len()] == d);
            }
        }
        if d != name && (required.contains(d) || build_deps.contains(d)) {
            if required.contains(d) {
                let m = choose|m: int| 0 <= m < required.len() && required[m] == d;
                assert(all[m] == d);
            } else {
                let m = choose|m: int| 0 <= m < build_deps.len() && build_deps[m] == d;
                assert(all[m + required.len()] == d);
            }
            assert(all.contains(d) && keep(d));
        }
    }
}

// ── Resolution ──

/// How far a resolution got: the nodes loaded, the names asked for, and the
/// names still to ask for, last first.
#[verifier::ext_equal]
pub struct ResolveState {
    pub nodes: Seq<NodeView>,
    pub visited: Seq<Seq<char>>,
    pub pending: Seq<Seq<char>>,
}

/// Drops the names at the end that were asked for.
pub open spec fn drop_visited(pending: Seq<Seq<char>>, visited: Seq<Seq<char>>) -> Seq<Seq<char>>
    decreases pending.len(),
{
    if pending.len() > 0 && visited.contains(pending.last()) {
        drop_visited(pending.drop_last(), visited)
    } else {
        pending
    }
}

/// The next name to load, and the state it leaves.
pub open spec fn next_name(s: ResolveState) -> (Option<Seq<char>>, ResolveState) {
    let p = drop_visited(s.pending, s.visited);
    if p.len() == 0 {
        (None, ResolveState { pending: p, ..s })
    } else {
        (
            Some(p.last()),
            ResolveState { pending: p.drop_last(), visited: s.visited.push(p.last()), ..s },
        )
    }
}

/// The names of `v` that are not empty.
pub open spec fn non_empty(v: Seq<Seq<char>>) -> Seq<Seq<char>> {
    v.filter(|d: Seq<char>| d.len() > 0)
}

/// The node of a loaded package; empty names are no dependencies.
pub open spec fn loaded_node(
    name: Seq<char>,
    required: Seq<Seq<char>>,
    build_deps: Seq<Seq<char>>,
) -> NodeView {
    NodeView { name, requires: non_empty(required), build_deps: non_empty(build_deps) }
}

/// The state after the node was loaded: with `recursive` its dependencies
/// that were not asked for are to be loaded too.
pub open spec fn after_load(s: ResolveState, n: NodeView, recursive: bool) -> ResolveState {
    ResolveState {
        nodes: s.nodes.push(n),
        pending: if recursive {
            s.pending + (n.requires + n.build_deps).filter(
                |d: Seq<char>| !s.visited.contains(d),
            )
        } else {
            s.pending
        },
        ..s
    }
}

/// Resolves transitive dependencies: tells which package to load next, and
/// takes what was loaded.
pub struct Resolver {
    nodes: Vec<DepNode>,
    visited: Vec<String>,
    pending: Vec<String>,
    recursive: bool,
}

impl View for Resolver {
    type V = ResolveState;

    closed spec fn view(&self) -> ResolveState {
        ResolveState {
            nodes: node_views(self.nodes@),
            visited: texts(self.visited@),
            pending: texts(self.pending@),
        }
    }
}

/// What every resolution keeps: each name is asked for once, and the loaded
/// nodes are those asked for, in order, but for the last while `open`.
pub open spec fn resolving(s: ResolveState, open: bool) -> bool {
    &&& s.visited.no_duplicates()
    &&& s.nodes.len() == if open {
        s.visited.len() - 1
    } else {
        s.visited.len() as int
    }
    &&& forall|i: int| 0 <= i < s.nodes.len() ==> (#[trigger] s.nodes[i]).name == s.visited[i]
}

/// Whether a node names `d` as a dependency of either kind.
pub open spec fn needs(n: NodeView, d: Seq<char>) -> bool {
    n.requires.contains(d) || n.build_deps.contains(d)
}

/// Whether every dependency of every loaded node was asked for or is still to
/// be.
pub open spec fn closed_under_deps(s: ResolveState) -> bool {
    forall|i: int, d: Seq<char>|
        0 <= i < s.nodes.len() && #[trigger] needs(s.nodes[i], d) ==> s.visited.contains(d)
            || s.pending.contains(d)
}

impl Resolver {
    /// Whether dependencies of dependencies are resolved too.
    pub closed spec fn is_recursive(&self) -> bool {
        self.recursive
    }

    /// Starts from the seeds; the last seed is asked for first.
    pub fn new(seeds: &Vec<String>, recursive: bool) -> (r: Resolver)
        ensures
            r@ == (ResolveState {
                nodes: Seq::empty(),
                visited: Seq::empty(),
                pending: texts(seeds@),
            }),
            resolving(r@, false),
            closed_under_deps(r@),
            r.is_recursive() == recursive,
    {
        let r = Resolver {
            nodes: Vec::new(),
            visited: Vec::new(),
            pending: copy_texts(seeds),
            recursive,
        };
        assert(r@.nodes =~= Seq::empty());
        assert(r@.visited =~= Seq::empty());
        r
    }

    /// The next package to load, where there is one.
    pub fn next(&mut self) -> (r: Option<String>)
        requires
            resolving(old(self)@, false),
        ensures
            crate::text::opt_text(r) == next_name(old(self)@).0,
            final(self)@ == next_name(old(self)@).1,
            resolving(final(self)@, r is Some),
            final(self).is_recursive() == old(self).is_recursive(),
    {
        broadcast use lemma_texts_push;

        let ghost start = self@;
        while self.pending.len() > 0
            invariant
                self@ == (ResolveState { pending: self@.pending, ..start }),
                start == old(self)@,
                resolving(start, false),
                self.recursive == old(self).recursive,
                drop_visited(start.pending, start.visited) == drop_visited(
                    self@.pending,
                    start.visited,
                ),
            decreases self.pending.len(),
        {
            let ghost before = self@.pending;
            let ghost raw = self.pending@;
            let last = self.pending.pop();
            let name = match last {
                Some(n) => n,
                None => {
                    return None;
                },
            };
            assert(before.last() == name@);
            assert(self@.pending =~= before.drop_last());
            if !list_contains(&self.visited, name.as_str()) {
                let ghost v = self.visited@;
                self.visited.push(name.clone());
                assert(self@ =~= next_name(start).1);
                assert(self@.visited.no_duplicates()) by {
                    let w = self@.visited;
                    assert forall|a: int, b: int|
                        0 <= a < w.len() && 0 <= b < w.len() && a != b implies w[a] != w[b] by {
                        if a == start.visited.len() {
                            assert(start.visited.contains(start.visited[b]));
                        } else if b == start.visited.len() {
                            assert(start.visited.contains(start.visited[a]));
                        }
                    }
                }
                return Some(name);
            }
        }
        assert(self@.pending =~= Seq::<Seq<char>>::empty());
        assert(self@ =~= next_name(start).1);
        None
    }

    /// Takes the package that was asked for last: its `requires` and its
    /// `build_deps`.
    pub fn loaded(&mut self, name: String, required: &Vec<String>, build_deps: &Vec<String>)
        requires
            resolving(old(self)@, true),
            old(self)@.visited.len() > 0,
            name@ == old(self)@.visited.last(),
        ensures
            final(self)@ == after_load(
                old(self)@,
                loaded_node(name@, texts(required@), texts(build_deps@)),
                old(self).is_recursive(),
            ),
            resolving(final(self)@, false),
            final(self).is_recursive() == old(self).is_recursive(),
    {
        broadcast use lemma_texts_push;

        let ghost start = self@;
        let a = keep_non_empty(required);
        let b = keep_non_empty(build_deps);
        let ghost node = loaded_node(name@, texts(required@), texts(build_deps@));
        if self.recursive {
            let ghost fresh = |d: Seq<char>| !start.visited.contains(d);
            let mut x = keep_unvisited(&a, &self.visited);
            let mut y = keep_unvisited(&b, &self.visited);
            proof {
                Seq::filter_distributes_over_add(texts(a@), texts(b@), fresh);
            }
            let ghost p0 = self.pending@;
            let ghost x0 = x@;
            let ghost y0 = y@;
            self.pending.append(&mut x);
            self.pending.append(&mut y);
            assert(texts(self.pending@) =~= texts(p0) + (texts(x0) + texts(y0)));
        }
        let ghost n0 = self.nodes@;
        self.nodes.push(DepNode { name, requires: a, build_deps: b });
        assert(node_views(self.nodes@) =~= node_views(n0).push(node));
        assert(self@ =~= after_load(start, node, self.recursive));
    }

    /// The loaded packages in build order, dependencies first.
    pub fn finish(&self) -> (r: Vec<DepNode>)
        requires
            resolving(self@, false),
        ensures
            build_ordered(self@.nodes, node_views(r@)),
    {
        assert(distinct_names(self@.nodes)) by {
            assert forall|i: int, j: int|
                0 <= i < self@.nodes.len() && 0 <= j < self@.nodes.len() && i != j implies (
            #[trigger] self@.nodes[i]).name != (#[trigger] self@.nodes[j]).name by {
                assert(self@.visited[i] != self@.visited[j]);
            }
        }
        topological_sort(&self.nodes)
    }
}

fn keep_non_empty(v: &Vec<String>) -> (r: Vec<String>)
    ensures
        texts(r@) == non_empty(texts(v@)),
{
    broadcast use lemma_texts_push;

    let ghost keep = |d: Seq<char>| d.len() > 0;
    let ghost all = texts(v@);
    let mut out: Vec<String> = Vec::new();
    let mut i: usize = 0;
    assert(all.take(0).filter(keep) =~= Seq::<Seq<char>>::empty()) by {
        reveal(Seq::filter);
    }
    while i < v.len()
        invariant
            i <= v.len(),
            all == texts(v@),
            keep == (|d: Seq<char>| d.len() > 0),
            texts(out@) == all.take(i as int).filter(keep),
        decreases v.len() - i,
    {
        assert(all.take(i + 1).drop_last() =~= all.take(i as int));
        assert(all.take(i + 1).last() == v@[i as int]@);
        proof {
            reveal(Seq::filter);
        }
        if !v[i].as_str().is_empty() {
            out.push(v[i].clone());
        }
        i += 1;
    }
    assert(all.take(i as int) =~= all);
    out
}

fn keep_unvisited(v: &Vec<String>, visited: &Vec<String>) -> (r: Vec<String>)
    ensures
        texts(r@) == texts(v@).filter(|d: Seq<char>| !texts(visited@).contains(d)),
{
    broadcast use lemma_texts_push;

    let ghost keep = |d: Seq<char>| !texts(visited@).contains(d);
    let ghost all = texts(v@);
    let mut out: Vec<String> = Vec::new();
    let mut i: usize = 0;
    assert(all.take(0).filter(keep) =~= Seq::<Seq<char>>::empty()) by {
        reveal(Seq::filter);
    }
    while i < v.len()
        invariant
            i <= v.len(),
            all == texts(v@),
            keep == (|d: Seq<char>| !texts(visited@).contains(d)),
            texts(out@) == all.take(i as int).filter(keep),
        decreases v.len() - i,
    {
        assert(all.take(i + 1).drop_last() =~= all.take(i as int));
        assert(all.take(i + 1).last() == v@[i as int]@);
        proof {
            reveal(Seq::filter);
        }
        if !list_contains(visited, v[i].as_str()) {
            out.push(v[i].clone());
        }
        i += 1;
    }
    assert(all.take(i as int) =~= all);
    out
}

/// Asking for the next name forgets no dependency.
pub proof fn law_next_forgets_nothing(s: ResolveState)
    requires
        closed_under_deps(s),
    ensures
        closed_under_deps(next_name(s).1),
{
    let t = next_name(s).1;
    lemma_drop_visited(s.pending, s.visited);
    let p = drop_visited(s.pending, s.visited);
    assert forall|i: int, d: Seq<char>|
        0 <= i < t.nodes.len() && #[trigger] needs(t.nodes[i], d) implies t.visited.contains(d)
        || t.pending.contains(d) by {
        assert(needs(s.nodes[i], d));
        assert(s.visited.contains(d) || s.pending.contains(d));
        if s.visited.contains(d) {
            let k = choose|k: int| 0 <= k < s.visited.len() && s.visited[k] == d;
            assert(t.visited[k] == d);
        } else {
            assert(p.contains(d));
            let k = choose|k: int| 0 <= k < p.len() && p[k] == d;
            if k < p.len() - 1 {
                assert(t.pending[k] == d);
            } else {
                assert(t.visited[s.visited.len() as int] == d);
            }
        }
    }
}

proof fn lemma_drop_visited(pending: Seq<Seq<char>>, visited: Seq<Seq<char>>)
    ensures
        forall|d: Seq<char>|
            pending.contains(d) && !visited.contains(d) ==> #[trigger] drop_visited(
                pending,
                visited,
            ).contains(d),
    decreases pending.len(),
{
    if pending.len() > 0 && visited.contains(pending.last()) {
        let r = pending.drop_last();
        lemma_drop_visited(r, visited);
        assert forall|d: Seq<char>|
            pending.contains(d) && !visited.contains(d) implies #[trigger] drop_visited(
            pending,
            visited,
        ).contains(d) by {
            let k = choose|k: int| 0 <= k < pending.len() && pending[k] == d;
            assert(r[k] == d);
            assert(drop_visited(r, visited).contains(d));
        }
    }
}

/// Taking a loaded package forgets none of its dependencies, where they are
/// resolved too.
pub proof fn law_loading_forgets_nothing(s: ResolveState, n: NodeView)
    requires
        closed_under_deps(s),
    ensures
        closed_under_deps(after_load(s, n, true)),
{
    let t = after_load(s, n, true);
    let fresh = |d: Seq<char>| !s.visited.contains(d);
    let all = n.requires + n.build_deps;
    let more = all.filter(fresh);
    assert forall|i: int, d: Seq<char>|
        0 <= i < t.nodes.len() && #[trigger] needs(t.nodes[i], d) implies t.visited.contains(d)
        || t.pending.contains(d) by {
        if i < s.nodes.len() {
            assert(t.nodes[i] == s.nodes[i]);
            assert(needs(s.nodes[i], d));
            if s.pending.contains(d) {
                let k = choose|k: int| 0 <= k < s.pending.len() && s.pending[k] == d;
                assert(t.pending[k] == d);
            }
        } else {
            assert(t.nodes[i] == n);
            if !s.visited.contains(d) {
                if n.requires.contains(d) {
                    let m = choose|m: int| 0 <= m < n.requires.len() && n.requires[m] == d;
                    assert(all[m] == d);
                } else {
                    let m = choose|m: int| 0 <= m < n.build_deps.len() && n.build_deps[m] == d;
                    assert(all[m + n.requires.len()] == d);
                }
                assert(all.contains(d) && fresh(d));
                lemma_filter_contains(all, fresh, d);
                let k = choose|k: int| 0 <= k < more.len() && more[k] == d;
                assert(t.pending[s.pending.len() + k] == d);
            }
        }
    }
}

/// When nothing is left to ask for, every dependency of every node is itself
/// a node.
pub proof fn law_resolution_is_transitive(s: ResolveState)
    requires
        resolving(s, false),
        closed_under_deps(s),
        next_name(s).0 is None,
    ensures
        forall|i: int, d: Seq<char>|
            0 <= i < s.nodes.len() && #[trigger] needs(s.nodes[i], d) ==> exists|j: int|
                0 <= j < s.nodes.len() && (#[trigger] s.nodes[j]).name == d,
{
    lemma_drop_visited(s.pending, s.visited);
    assert forall|i: int, d: Seq<char>|
        0 <= i < s.nodes.len() && #[trigger] needs(s.nodes[i], d) implies exists|j: int|
        0 <= j < s.nodes.len() && (#[trigger] s.nodes[j]).name == d by {
        if !s.visited.contains(d) {
            assert(s.pending.contains(d));
            assert(drop_visited(s.pending, s.visited).contains(d));
        }
        let k = choose|k: int| 0 <= k < s.visited.len() && s.visited[k] == d;
        assert(s.nodes[k].name == d);
    }
}

// ── The tree ──

/// The runtime dependencies of `name` that are nodes, in declaration order.
pub open spec fn children(ns: Seq<NodeView>, name: Seq<char>) -> Seq<Seq<char>> {
    children_in(ns, name, ns.len() as int)
}

/// Whether `d` is the name of a node.
pub open spec fn is_node(ns: Seq<NodeView>, d: Seq<char>) -> bool {
    exists|i: int| 0 <= i < ns.len() && (#[trigger] ns[i]).name == d
}

/// Whether a text is the name of a node.
pub open spec fn node_of(ns: Seq<NodeView>) -> spec_fn(Seq<char>) -> bool {
    |d: Seq<char>| is_node(ns, d)
}

/// The dependencies of the nodes named `name` among the first `n`.
pub open spec fn children_in(ns: Seq<NodeView>, name: Seq<char>, n: int) -> Seq<Seq<char>>
    decreases n,
{
    if n <= 0 {
        Seq::empty()
    } else if ns[n - 1].name == name {
        children_in(ns, name, n - 1) + ns[n - 1].requires.filter(node_of(ns))
    } else {
        children_in(ns, name, n - 1)
    }
}

/// Two spaces for each level.
pub open spec fn indent(depth: nat) -> Seq<char>
    decreases depth,
{
    if depth == 0 {
        Seq::empty()
    } else {
        indent((depth - 1) as nat) + "  "@
    }
}

/// The lines of the tree below the label `name`, at most `fuel` levels deep;
/// `None` where the tree is deeper.
pub open spec fn tree_text(ns: Seq<NodeView>, name: Seq<char>, depth: nat, fuel: nat) -> Option<
    Seq<char>,
>
    decreases fuel, 0nat,
{
    if fuel == 0 {
        None
    } else {
        match forest_text(
            ns,
            children(ns, trimmed(name)),
            children(ns, trimmed(name)).len() as int,
            depth + 1,
            (fuel - 1) as nat,
        ) {
            None => None,
            Some(below) => Some(indent(depth) + name + "\n"@ + below),
        }
    }
}

/// The lines of the trees below the first `n` of several labels.
pub open spec fn forest_text(
    ns: Seq<NodeView>,
    names: Seq<Seq<char>>,
    n: int,
    depth: nat,
    fuel: nat,
) -> Option<Seq<char>>
    decreases fuel, n + 1,
{
    if n <= 0 {
        Some(Seq::empty())
    } else {
        match forest_text(ns, names, n - 1, depth, fuel) {
            None => None,
            Some(before) => match tree_text(ns, names[n - 1], depth, fuel) {
                None => None,
                Some(t) => Some(before + t),
            },
        }
    }
}

fn name_is_node(nodes: &Vec<DepNode>, d: &str) -> (r: bool)
    ensures
        r == is_node(node_views(nodes@), d@),
{
    let ghost ns = node_views(nodes@);
    let mut i: usize = 0;
    while i < nodes.len()
        invariant
            i <= nodes.len(),
            ns == node_views(nodes@),
            forall|k: int| 0 <= k < i ==> (#[trigger] ns[k]).name != d@,
        decreases nodes.len() - i,
    {
        if str_eq(nodes[i].name.as_str(), d) {
            assert(ns[i as int].name == d@);
            return true;
        }
        i += 1;
    }
    false
}

fn child_names(nodes: &Vec<DepNode>, name: &str) -> (r: Vec<String>)
    ensures
        texts(r@) == children(node_views(nodes@), name@),
{
    broadcast use lemma_texts_push;

    let ghost ns = node_views(nodes@);
    let ghost keep = node_of(ns);
    let mut out: Vec<String> = Vec::new();
    let mut i: usize = 0;
    assert(texts(out@) =~= Seq::<Seq<char>>::empty());
    while i < nodes.len()
        invariant
            i <= nodes.len(),
            ns == node_views(nodes@),
            keep == node_of(ns),
            texts(out@) == children_in(ns, name@, i as int),
        decreases nodes.len() - i,
    {
        assert(ns[i as int].name == nodes@[i as int].name@);
        if str_eq(nodes[i].name.as_str(), name) {
            let ghost before = texts(out@);
            let ghost all = ns[i as int].requires;
            let mut k: usize = 0;
            assert(all.take(0).filter(keep) =~= Seq::<Seq<char>>::empty()) by {
                reveal(Seq::filter);
            }
            assert(before + all.take(0).filter(keep) =~= before);
            while k < nodes[i].requires.len()
                invariant
                    i < nodes.len(),
                    ns == node_views(nodes@),
                    keep == node_of(ns),
                    all == texts(nodes@[i as int].requires@),
                    k <= nodes@[i as int].requires@.len(),
                    texts(out@) == before + all.take(k as int).filter(keep),
                decreases nodes@[i as int].requires@.len() - k,
            {
                assert(all.take(k + 1).drop_last() =~= all.take(k as int));
                assert(all.take(k + 1).last() == nodes@[i as int].requires@[k as int]@);
                proof {
                    reveal(Seq::filter);
                }
                if name_is_node(nodes, nodes[i].requires[k].as_str()) {
                    let ghost o = out@;
                    let ghost x = all.take(k + 1).last();
                    assert(keep(x));
                    assert(all.take(k + 1).filter(keep) == all.take(k as int).filter(keep).push(x));
                    out.push(nodes[i].requires[k].clone());
                    assert(texts(out@) =~= texts(o).push(x));
                    assert(texts(out@) =~= before + all.take(k + 1).filter(keep));
                }
                k += 1;
            }
            assert(all.take(k as int) =~= all);
        }
        i += 1;
    }
    out
}

fn indentation(depth: usize) -> (r: String)
    ensures
        r@ == indent(depth as nat),
{
    let mut out = String::new();
    let mut i: usize = 0;
    while i < depth
        invariant
            i <= depth,
            out@ == indent(i as nat),
        decreases depth - i,
    {
        out.append("  ");
        i += 1;
    }
    out
}

fn print_tree_node(nodes: &Vec<DepNode>, name: &str, depth: usize, fuel: usize) -> (r: Option<
    String,
>)
    requires
        depth + fuel <= usize::MAX,
    ensures
        crate::text::opt_text(r) == tree_text(
            node_views(nodes@),
            name@,
            depth as nat,
            fuel as nat,
        ),
    decreases fuel,
{
    let ghost ns = node_views(nodes@);
    if fuel == 0 {
        return None;
    }
    let mut out = indentation(depth);
    out.append(name);
    out.append("\n");
    let key = trim(name);
    let below = child_names(nodes, key.as_str());
    let ghost kids = children(ns, trimmed(name@));
    let ghost head = out@;
    let mut i: usize = 0;
    assert(head + Seq::<char>::empty() =~= head);
    while i < below.len()
        invariant
            i <= below.len(),
            ns == node_views(nodes@),
            texts(below@) == kids,
            kids == children(ns, trimmed(name@)),
            fuel > 0,
            depth + fuel <= usize::MAX,
            forest_text(ns, kids, i as int, (depth + 1) as nat, (fuel - 1) as nat) is Some,
            out@ == head + forest_text(
                ns,
                kids,
                i as int,
                (depth + 1) as nat,
                (fuel - 1) as nat,
            )->Some_0,
        decreases below.len() - i,
    {
        assert(kids[i as int] == below@[i as int]@);
        match print_tree_node(nodes, below[i].as_str(), depth + 1, fuel - 1) {
            None => {
                proof {
                    lemma_forest_stops(
                        ns,
                        kids,
                        i + 1,
                        kids.len() as int,
                        (depth + 1) as nat,
                        (fuel - 1) as nat,
                    );
                }
                return None;
            },
            Some(t) => {
                let ghost before = out@;
                out.append(t.as_str());
                assert(out@ =~= head + forest_text(
                    ns,
                    kids,
                    i + 1,
                    (depth + 1) as nat,
                    (fuel - 1) as nat,
                )->Some_0);
            },
        }
        i += 1;
    }
    Some(out)
}

/// A forest too deep among its first trees is too deep.
proof fn lemma_forest_stops(
    ns: Seq<NodeView>,
    names: Seq<Seq<char>>,
    n: int,
    m: int,
    depth: nat,
    fuel: nat,
)
    requires
        n <= m,
        forest_text(ns, names, n, depth, fuel) is None,
    ensures
        forest_text(ns, names, m, depth, fuel) is None,
    decreases m - n,
{
    if n < m {
        lemma_forest_stops(ns, names, n, m - 1, depth, fuel);
    }
}

/// The trees of those seeds among the first `n` that are nodes.
pub open spec fn seed_trees(
    ns: Seq<NodeView>,
    seeds: Seq<Seq<char>>,
    n: int,
    fuel: nat,
) -> Option<Seq<char>>
    decreases n,
{
    if n <= 0 {
        Some(Seq::empty())
    } else {
        match seed_trees(ns, seeds, n - 1, fuel) {
            None => None,
            Some(before) => if is_node(ns, seeds[n - 1]) {
                match tree_text(ns, " "@ + seeds[n - 1], 0, fuel) {
                    None => None,
                    Some(t) => Some(before + t),
                }
            } else {
                Some(before)
            },
        }
    }
}

/// The dependency tree of the seeds as text, one line for each node, two
/// spaces for each level; `None` where the tree has more levels than there
/// are nodes, which only a cycle of runtime dependencies gives.
pub fn format_tree(nodes: &Vec<DepNode>, seeds: &Vec<String>) -> (r: Option<String>)
    requires
        nodes.len() < usize::MAX,
    ensures
        crate::text::opt_text(r) == seed_trees(
            node_views(nodes@),
            texts(seeds@),
            seeds@.len() as int,
            nodes@.len() + 1,
        ),
{
    let ghost ns = node_views(nodes@);
    let fuel: usize = nodes.len() + 1;
    let mut out = String::new();
    let mut i: usize = 0;
    while i < seeds.len()
        invariant
            i <= seeds.len(),
            ns == node_views(nodes@),
            fuel == nodes@.len() + 1,
            seed_trees(ns, texts(seeds@), i as int, fuel as nat) == Some(out@),
        decreases seeds.len() - i,
    {
        assert(texts(seeds@)[i as int] == seeds@[i as int]@);
        if name_is_node(nodes, seeds[i].as_str()) {
            let mut label = " ".to_owned();
            label.append(seeds[i].as_str());
            match print_tree_node(nodes, label.as_str(), 0, fuel) {
                None => {
                    proof {
                        lemma_seeds_stop(
                            ns,
                            texts(seeds@),
                            i + 1,
                            seeds@.len() as int,
                            fuel as nat,
                        );
                    }
                    return None;
                },
                Some(t) => {
                    out.append(t.as_str());
                },
            }
        }
        i += 1;
    }
    Some(out)
}

proof fn lemma_seeds_stop(ns: Seq<NodeView>, seeds: Seq<Seq<char>>, n: int, m: int, fuel: nat)
    requires
        n <= m,
        seed_trees(ns, seeds, n, fuel) is None,
    ensures
        seed_trees(ns, seeds, m, fuel) is None,
    decreases m - n,
{
    if n < m {
        lemma_seeds_stop(ns, seeds, n, m - 1, fuel);
    }
}

/// Whether `rank` numbers the nodes so that each runtime dependency has a
/// smaller number: the runtime dependencies form no cycle.
pub open spec fn ranked(ns: Seq<NodeView>, rank: Seq<int>) -> bool {
    &&& rank.len() == ns.len()
    &&& forall|i: int| 0 <= i < ns.len() ==> 0 <= #[trigger] rank[i] < ns.len()
    &&& forall|i: int, j: int|
        #![trigger rank[i], rank[j]]
        0 <= i < ns.len() && 0 <= j < ns.len() && ns[i].requires.contains(ns[j].name) ==> rank[j]
            < rank[i]
}

/// Whether no name has white space at its ends.
pub open spec fn trimmed_names(ns: Seq<NodeView>) -> bool {
    forall|i: int| 0 <= i < ns.len() ==> trimmed((#[trigger] ns[i]).name) == ns[i].name
}

/// Without a cycle of runtime dependencies every tree is shown whole: as many
/// levels as there are nodes are enough.
pub proof fn law_trees_without_cycles_are_shown(
    ns: Seq<NodeView>,
    rank: Seq<int>,
    i: int,
    name: Seq<char>,
    depth: nat,
    fuel: nat,
)
    requires
        ranked(ns, rank),
        trimmed_names(ns),
        distinct_names(ns),
        0 <= i < ns.len(),
        trimmed(name) == ns[i].name,
        fuel > rank[i],
    ensures
        tree_text(ns, name, depth, fuel) is Some,
    decreases fuel,
{
    let kids = children(ns, ns[i].name);
    lemma_children(ns, ns[i].name, ns.len() as int);
    assert forall|k: int| 0 <= k < kids.len() implies tree_text(
        ns,
        #[trigger] kids[k],
        depth + 1,
        (fuel - 1) as nat,
    ) is Some by {
        let a = choose|a: int|
            0 <= a < ns.len() && (#[trigger] ns[a]).name == ns[i].name && ns[a].requires.contains(
                kids[k],
            );
        assert(a == i) by {
            if a != i {
                assert(ns[a].name != ns[i].name);
            }
        }
        let j = choose|j: int| 0 <= j < ns.len() && (#[trigger] ns[j]).name == kids[k];
        assert(rank[j] < rank[i]);
        law_trees_without_cycles_are_shown(ns, rank, j, kids[k], depth + 1, (fuel - 1) as nat);
    }
    lemma_forest_shown(ns, kids, kids.len() as int, depth + 1, (fuel - 1) as nat);
}

proof fn lemma_forest_shown(
    ns: Seq<NodeView>,
    names: Seq<Seq<char>>,
    n: int,
    depth: nat,
    fuel: nat,
)
    requires
        n <= names.len(),
        forall|k: int|
            0 <= k < names.len() ==> tree_text(ns, #[trigger] names[k], depth, fuel) is Some,
    ensures
        forest_text(ns, names, n, depth, fuel) is Some,
    decreases n,
{
    if n > 0 {
        lemma_forest_shown(ns, names, n - 1, depth, fuel);
        assert(tree_text(ns, names[n - 1], depth, fuel) is Some);
    }
}

/// A child is a node that its parent names.
proof fn lemma_children(ns: Seq<NodeView>, name: Seq<char>, n: int)
    requires
        0 <= n <= ns.len(),
    ensures
        forall|k: int|
            0 <= k < children_in(ns, name, n).len() ==> is_node(
                ns,
                #[trigger] children_in(ns, name, n)[k],
            ) && exists|a: int|
                0 <= a < ns.len() && (#[trigger] ns[a]).name == name && ns[a].requires.contains(
                    children_in(ns, name, n)[k],
                ),
    decreases n,
{
    if n > 0 {
        lemma_children(ns, name, n - 1);
        let c = children_in(ns, name, n);
        let b = children_in(ns, name, n - 1);
        let keep = node_of(ns);
        let f = ns[n - 1].requires.filter(keep);
        assert forall|k: int| 0 <= k < c.len() implies is_node(ns, #[trigger] c[k]) && exists|
            a: int,
        |
            0 <= a < ns.len() && (#[trigger] ns[a]).name == name && ns[a].requires.contains(
                c[k],
            ) by {
            if k < b.len() {
                assert(c[k] == b[k]);
            } else {
                assert(c[k] == f[k - b.len()]);
                assert(f.contains(c[k]));
                lemma_filter_contains(ns[n - 1].requires, keep, c[k]);
                assert(ns[n - 1].name == name);
            }
        }
    }
}

/// A tree shown with some number of levels is shown the same with more.
pub proof fn law_more_levels_change_nothing(
    ns: Seq<NodeView>,
    name: Seq<char>,
    depth: nat,
    fuel: nat,
    more: nat,
)
    requires
        fuel <= more,
        tree_text(ns, name, depth, fuel) is Some,
    ensures
        tree_text(ns, name, depth, more) == tree_text(ns, name, depth, fuel),
    decreases fuel, 0nat,
{
    let kids = children(ns, trimmed(name));
    lemma_more_forest(ns, kids, kids.len() as int, depth + 1, (fuel - 1) as nat, (more - 1) as nat);
}

proof fn lemma_more_forest(
    ns: Seq<NodeView>,
    names: Seq<Seq<char>>,
    n: int,
    depth: nat,
    fuel: nat,
    more: nat,
)
    requires
        fuel <= more,
        forest_text(ns, names, n, depth, fuel) is Some,
    ensures
        forest_text(ns, names, n, depth, more) == forest_text(ns, names, n, depth, fuel),
    decreases fuel, (if n > 0 { n } else { 0 }) + 1,
{
    if n > 0 {
        lemma_more_forest(ns, names, n - 1, depth, fuel, more);
        law_more_levels_change_nothing(ns, names[n - 1], depth, fuel, more);
    }
}

// ── Names and paths ──

/// Where the definition of a package stands: a path as it is; a name in the
/// package tree, under its first letter.
pub open spec fn definition_path(name_or_path: Seq<char>) -> Seq<char> {
    if name_or_path.len() == 0 || holds(name_or_path, "/"@) || ".lua"@.is_suffix_of(name_or_path) {
        name_or_path
    } else {
        "pkgs/"@ + seq![name_or_path[0]] + "/"@ + name_or_path + ".lua"@
    }
}

/// Resolves a package name to the path of its definition.
pub fn resolve_path(name_or_path: &str) -> (r: String)
    ensures
        r@ == definition_path(name_or_path@),
{
    let a = chars_of(name_or_path);
    if a.len() == 0 || contains(name_or_path, "/") || ends_with(name_or_path, ".lua") {
        return name_or_path.to_owned();
    }
    let mut out = "pkgs/".to_owned();
    out.push(a[0]);
    assert(out@ =~= "pkgs/"@ + seq![name_or_path@[0]]);
    out.append("/");
    out.append(name_or_path);
    out.append(".lua");
    out
}

// ── Laws ──

/// Every dependency of a node is an edge of it, each once, and nothing else is.
pub proof fn law_every_dependency_is_an_edge(n: NodeView, d: Seq<char>)
    ensures
        edges(n).no_duplicates(),
        edges(n).contains(d) <==> n.requires.contains(d) || n.build_deps.contains(d),
{
    let all = n.requires + n.build_deps;
    lemma_distinct(all);
    if all.contains(d) {
        let m = choose|m: int| 0 <= m < all.len() && all[m] == d;
        if m < n.requires.len() {
            assert(n.requires[m] == d);
        } else {
            assert(n.build_deps[m - n.requires.len()] == d);
        }
    }
    if n.requires.contains(d) {
        let m = choose|m: int| 0 <= m < n.requires.len() && n.requires[m] == d;
        assert(all[m] == d);
    }
    if n.build_deps.contains(d) {
        let m = choose|m: int| 0 <= m < n.build_deps.len() && n.build_deps[m] == d;
        assert(all[m + n.requires.len()] == d);
    }
}

/// A loaded package keeps its name and every dependency that has a name.
pub proof fn law_loaded_nodes_keep_their_dependencies(
    name: Seq<char>,
    required: Seq<Seq<char>>,
    build_deps: Seq<Seq<char>>,
    d: Seq<char>,
)
    ensures
        loaded_node(name, required, build_deps).name == name,
        loaded_node(name, required, build_deps).requires.contains(d) <==> required.contains(d)
            && d.len() > 0,
        loaded_node(name, required, build_deps).build_deps.contains(d) <==> build_deps.contains(d)
            && d.len() > 0,
{
    let keep = |d: Seq<char>| d.len() > 0;
    lemma_filter_members(required, keep);
    lemma_filter_members(build_deps, keep);
    assert(required.filter(keep).contains(d) <==> required.contains(d) && keep(d));
    assert(build_deps.filter(keep).contains(d) <==> build_deps.contains(d) && keep(d));
}

proof fn lemma_children_in(ns: Seq<NodeView>, i: int, n: int)
    requires
        distinct_names(ns),
        0 <= i < ns.len(),
        0 <= n <= ns.len(),
    ensures
        children_in(ns, ns[i].name, n) == (if i < n {
            ns[i].requires.filter(node_of(ns))
        } else {
            Seq::empty()
        }),
    decreases n,
{
    if n > 0 {
        lemma_children_in(ns, i, n - 1);
        let f = ns[i].requires.filter(node_of(ns));
        if i == n - 1 {
            assert(Seq::<Seq<char>>::empty() + f =~= f);
        } else {
            assert(ns[n - 1].name != ns[i].name);
        }
    }
}

/// The children of a node in the tree are its runtime dependencies that are
/// nodes themselves.
pub proof fn law_children_are_runtime_dependencies(ns: Seq<NodeView>, i: int, d: Seq<char>)
    requires
        distinct_names(ns),
        0 <= i < ns.len(),
    ensures
        children(ns, ns[i].name).contains(d) <==> ns[i].requires.contains(d) && exists|j: int|
            0 <= j < ns.len() && (#[trigger] ns[j]).name == d,
        (forall|k: int|
            0 <= k < ns[i].requires.len() ==> is_node(ns, #[trigger] ns[i].requires[k]))
            ==> children(ns, ns[i].name).len() == ns[i].requires.len(),
{
    lemma_children_in(ns, i, ns.len() as int);
    let keep = node_of(ns);
    let r = ns[i].requires;
    lemma_filter_members(r, keep);
    assert(r.filter(keep).contains(d) <==> r.contains(d) && keep(d));
    if forall|k: int| 0 <= k < r.len() ==> is_node(ns, #[trigger] r[k]) {
        lemma_all_kept(r, keep);
    }
}

proof fn lemma_all_kept(v: Seq<Seq<char>>, keep: spec_fn(Seq<char>) -> bool)
    requires
        forall|k: int| 0 <= k < v.len() ==> keep(#[trigger] v[k]),
    ensures
        v.filter(keep) == v,
    decreases v.len(),
{
    reveal(Seq::filter);
    if v.len() > 0 {
        let r = v.drop_last();
        assert forall|k: int| 0 <= k < r.len() implies keep(#[trigger] r[k]) by {
            assert(r[k] == v[k]);
        }
        lemma_all_kept(r, keep);
        assert(keep(v[v.len() - 1]));
        assert(v =~= r.push(v.last()));
    } else {
        assert(v.filter(keep) =~= v);
    }
}

/// A line is indented by two spaces for each level.
pub proof fn law_levels_are_two_spaces(depth: nat)
    ensures
        indent(depth).len() == 2 * depth,
        forall|k: int| 0 <= k < indent(depth).len() ==> #[trigger] indent(depth)[k] == ' ',
    decreases depth,
{
    reveal_strlit("  ");
    if depth > 0 {
        law_levels_are_two_spaces((depth - 1) as nat);
    }
}

/// A tree begins with the line of its node, one level above the trees of its
/// children, which follow in the order of declaration.
pub proof fn law_trees_hold_their_children(
    ns: Seq<NodeView>,
    i: int,
    depth: nat,
    fuel: nat,
)
    requires
        distinct_names(ns),
        0 <= i < ns.len(),
        trimmed(ns[i].name) == ns[i].name,
    ensures
        ({
            let kids = ns[i].requires.filter(node_of(ns));
            let below = forest_text(ns, kids, kids.len() as int, depth + 1, fuel);
            &&& below is Some ==> tree_text(ns, ns[i].name, depth, fuel + 1) == Some(
                indent(depth) + ns[i].name + "\n"@ + below->0,
            )
            &&& below is None ==> tree_text(ns, ns[i].name, depth, fuel + 1) is None
        }),
{
    lemma_children_in(ns, i, ns.len() as int);
}

/// Several trees stand one behind the other.
pub proof fn law_trees_stand_in_order(
    ns: Seq<NodeView>,
    names: Seq<Seq<char>>,
    n: int,
    depth: nat,
    fuel: nat,
)
    requires
        0 <= n < names.len(),
        forest_text(ns, names, n + 1, depth, fuel) is Some,
    ensures
        forest_text(ns, names, 0, depth, fuel) == Some(Seq::<char>::empty()),
        forest_text(ns, names, n, depth, fuel) is Some,
        tree_text(ns, names[n], depth, fuel) is Some,
        forest_text(ns, names, n + 1, depth, fuel)->0 == forest_text(ns, names, n, depth, fuel)->0
            + tree_text(ns, names[n], depth, fuel)->0,
{
}

/// A path to a definition stands for itself: one with a slash, or one that ends
/// in `.lua`. A name stands in the directory of its first letter.
pub proof fn law_definitions_stand_under_their_letter(a: Seq<char>, b: Seq<char>, c: char)
    ensures
        definition_path(a + seq!['/'] + b) == a + seq!['/'] + b,
        definition_path(a + ".lua"@) == a + ".lua"@,
        (!(seq![c] + b).contains('/') && !".lua"@.is_suffix_of(seq![c] + b)) ==> definition_path(
            seq![c] + b,
        ) == "pkgs/"@ + seq![c] + "/"@ + (seq![c] + b) + ".lua"@,
{
    reveal_strlit("/");
    reveal_strlit(".lua");
    assert("/"@ =~= seq!['/']);
    let s = a + seq!['/'] + b;
    lemma_find_from(s, "/"@, 0);
    let at = a.len() as int;
    assert(s.subrange(at, at + 1) =~= "/"@);
    assert(occurs_at(s, "/"@, at));
    law_ends_are_taken_off(".lua"@, a);
    let n = seq![c] + b;
    if !n.contains('/') {
        law_cut_at_the_first(n, '/', n);
    }
    assert(n[0] == c);
}

/// The trees of the seeds that are nodes stand one behind the other, each with
/// a space before its name; a seed that is no node is passed over.
pub proof fn law_seeds_that_are_nodes_are_shown(
    ns: Seq<NodeView>,
    seeds: Seq<Seq<char>>,
    n: int,
    fuel: nat,
)
    requires
        0 <= n < seeds.len(),
        seed_trees(ns, seeds, n, fuel) is Some,
    ensures
        seed_trees(ns, seeds, 0, fuel) == Some(Seq::<char>::empty()),
        (forall|i: int| 0 <= i < ns.len() ==> (#[trigger] ns[i]).name != seeds[n]) ==> seed_trees(
            ns,
            seeds,
            n + 1,
            fuel,
        ) == seed_trees(ns, seeds, n, fuel),
        ((exists|i: int| 0 <= i < ns.len() && (#[trigger] ns[i]).name == seeds[n]) && tree_text(
            ns,
            " "@ + seeds[n],
            0,
            fuel,
        ) is Some) ==> seed_trees(ns, seeds, n + 1, fuel) == Some(
            seed_trees(ns, seeds, n, fuel)->0 + tree_text(ns, " "@ + seeds[n], 0, fuel)->0,
        ),
{
}

} // verus!
