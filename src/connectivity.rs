use vstd::prelude::*;

use crate::graph::{has_link, joins, Edge, Graph};

verus! {

/// `p` is a walk in `g` over existing nodes, each step along an edge, that
/// never visits `avoid`.
pub open spec fn is_walk<W>(g: Graph<W>, p: Seq<u32>, avoid: Option<u32>) -> bool {
    &&& p.len() > 0
    &&& forall|i: int| 0 <= i < p.len() ==> g.node_ids().contains(#[trigger] p[i]) && avoid != Some(p[i])
    &&& forall|i: int| 0 <= i < p.len() - 1 ==> has_link(g.edge_list(), #[trigger] p[i], p[i + 1])
}

/// Some walk avoiding `avoid` leads from `s` to `t`.
pub open spec fn linked<W>(g: Graph<W>, avoid: Option<u32>, s: u32, t: u32) -> bool {
    exists|p: Seq<u32>| #[trigger] is_walk(g, p, avoid) && p[0] == s && p.last() == t
}

/// Every neighbor (other than `avoid`) of a node of `seen[..p]` is in `seen`.
spec fn closed_upto<W>(edges: Seq<Edge<W>>, seen: Seq<u32>, p: int, avoid: Option<u32>) -> bool {
    forall|q: int, k: int|
        0 <= q < p && 0 <= k < edges.len() ==> #[trigger] steps_kept(edges[k], seen[q], seen, avoid)
}

spec fn steps_kept<W>(e: Edge<W>, x: u32, seen: Seq<u32>, avoid: Option<u32>) -> bool {
    &&& (e.a == x && avoid != Some(e.b)) ==> seen.contains(e.b)
    &&& (e.b == x && avoid != Some(e.a)) ==> seen.contains(e.a)
}

proof fn lemma_walk_extend<W>(g: Graph<W>, w: Seq<u32>, y: u32, avoid: Option<u32>)
    requires
        is_walk(g, w, avoid),
        g.node_ids().contains(y),
        avoid != Some(y),
        has_link(g.edge_list(), w.last(), y),
    ensures
        is_walk(g, w.push(y), avoid),
        w.push(y)[0] == w[0],
        w.push(y).last() == y,
{
    let v = w.push(y);
    assert forall|i: int| 0 <= i < v.len() - 1 implies has_link(g.edge_list(), #[trigger] v[i], v[i + 1]) by {
        if i < w.len() - 1 {
            assert(v[i] == w[i] && v[i + 1] == w[i + 1]);
        }
    }
    assert forall|i: int| 0 <= i < v.len() implies g.node_ids().contains(#[trigger] v[i]) && avoid != Some(v[i]) by {
        if i < w.len() {
            assert(v[i] == w[i]);
        }
    }
}

proof fn lemma_subset_len(a: Seq<u32>, b: Seq<u32>)
    requires
        a.no_duplicates(),
        b.no_duplicates(),
        forall|x: u32| a.contains(x) ==> b.contains(x),
    ensures
        a.len() <= b.len(),
{
    a.unique_seq_to_set();
    b.unique_seq_to_set();
    assert(a.to_set().subset_of(b.to_set()));
    vstd::set_lib::lemma_len_subset(a.to_set(), b.to_set());
}

/// A closed set containing the start of a walk contains each of its nodes.
proof fn lemma_closed_holds_walk<W>(
    g: Graph<W>,
    seen: Seq<u32>,
    avoid: Option<u32>,
    w: Seq<u32>,
    i: int,
)
    requires
        closed_upto(g.edge_list(), seen, seen.len() as int, avoid),
        is_walk(g, w, avoid),
        seen.contains(w[0]),
        0 <= i < w.len(),
    ensures
        seen.contains(w[i]),
    decreases i,
{
    if i > 0 {
        lemma_closed_holds_walk(g, seen, avoid, w, i - 1);
        assert(has_link(g.edge_list(), w[i - 1], w[i]));
        let k = choose|k: int|
            0 <= k < g.edge_list().len() && joins(#[trigger] g.edge_list()[k], w[i - 1], w[i]);
        let q = choose|q: int| 0 <= q < seen.len() && seen[q] == w[i - 1];
        assert(steps_kept(g.edge_list()[k], seen[q], seen, avoid));
        assert(avoid != Some(w[i]));
    }
}

/// The nodes reachable from `s` by walks that never visit `avoid`.
pub fn reachable<W>(g: &Graph<W>, s: u32, avoid: Option<u32>) -> (r: Vec<u32>)
    requires
        g.wf(),
        g.node_ids().contains(s),
        avoid != Some(s),
    ensures
        r@.no_duplicates(),
        forall|t: u32| #[trigger] r@.contains(t) <==> linked(*g, avoid, s, t),
{
    let edges = g.get_edges();
    let ghost nodes = g.node_ids();
    let mut seen: Vec<u32> = Vec::new();
    seen.push(s);
    proof {
        let w = seq![s];
        assert(is_walk(*g, w, avoid));
        assert(seen@[0] == s);
    }
    let mut p: usize = 0;
    while p < seen.len()
        invariant
            g.wf(),
            edges@ == g.edge_list(),
            nodes == g.node_ids(),
            avoid != Some(s),
            seen@.len() > 0,
            seen@[0] == s,
            p <= seen@.len(),
            seen@.no_duplicates(),
            forall|t: u32| #[trigger] seen@.contains(t) ==> nodes.contains(t) && linked(*g, avoid, s, t),
            closed_upto(edges@, seen@, p as int, avoid),
        decreases nodes.len() - p,
    {
        proof {
            lemma_subset_len(seen@, nodes);
        }
        let x = seen[p];
        let mut k: usize = 0;
        while k < edges.len()
            invariant
                g.wf(),
                edges@ == g.edge_list(),
                nodes == g.node_ids(),
                p < seen@.len(),
                seen@[p as int] == x,
                seen@[0] == s,
                seen@.no_duplicates(),
                forall|t: u32| #[trigger] seen@.contains(t) ==> nodes.contains(t) && linked(*g, avoid, s, t),
                closed_upto(edges@, seen@, p as int, avoid),
                forall|j: int| 0 <= j < k ==> #[trigger] steps_kept(edges@[j], x, seen@, avoid),
            decreases edges@.len() - k,
        {
            let e = &edges[k];
            let y: Option<u32> = if e.a == x {
                Some(e.b)
            } else if e.b == x {
                Some(e.a)
            } else {
                None
            };
            if let Some(y) = y {
                if avoid != Some(y) && !vec_contains(&seen, y) {
                    let ghost before = seen@;
                    proof {
                        assert(joins(edges@[k as int], x, y));
                        let ee = g.edge_list()[k as int];
                        assert(nodes.contains(ee.a) && nodes.contains(ee.b));
                        assert(has_link(g.edge_list(), x, y));
                        assert(before.contains(x));
                        assert(linked(*g, avoid, s, x));
                        let w = choose|w: Seq<u32>| #[trigger] is_walk(*g, w, avoid) && w[0] == s && w.last() == x;
                        lemma_walk_extend(*g, w, y, avoid);
                        assert(is_walk(*g, w.push(y), avoid));
                        assert(linked(*g, avoid, s, y));
                        assert(nodes.contains(y));
                    }
                    seen.push(y);
                    proof {
                        assert forall|t: u32| #[trigger] seen@.contains(t) implies nodes.contains(t) && linked(*g, avoid, s, t) by {
                            if t != y {
                                let i = choose|i: int| 0 <= i < seen@.len() && seen@[i] == t;
                                assert(before[i] == t);
                                assert(before.contains(t));
                            }
                        }
                        assert forall|q: int, j: int| 0 <= q < p && 0 <= j < edges@.len()
                            implies #[trigger] steps_kept(edges@[j], seen@[q], seen@, avoid) by {
                            assert(steps_kept(edges@[j], before[q], before, avoid));
                            if before.contains(edges@[j].a) {
                                let i = choose|i: int| 0 <= i < before.len() && before[i] == edges@[j].a;
                                assert(seen@[i] == edges@[j].a);
                            }
                            if before.contains(edges@[j].b) {
                                let i = choose|i: int| 0 <= i < before.len() && before[i] == edges@[j].b;
                                assert(seen@[i] == edges@[j].b);
                            }
                        }
                        assert forall|j: int| 0 <= j < k + 1 implies #[trigger] steps_kept(edges@[j], x, seen@, avoid) by {
                            if j < k {
                                assert(steps_kept(edges@[j], x, before, avoid));
                                if before.contains(edges@[j].a) {
                                    let i = choose|i: int| 0 <= i < before.len() && before[i] == edges@[j].a;
                                    assert(seen@[i] == edges@[j].a);
                                }
                                if before.contains(edges@[j].b) {
                                    let i = choose|i: int| 0 <= i < before.len() && before[i] == edges@[j].b;
                                    assert(seen@[i] == edges@[j].b);
                                }
                            } else {
                                assert(seen@[before.len() as int] == y);
                            }
                        }
                        assert(seen@.no_duplicates()) by {
                            assert forall|i: int, j: int| 0 <= i < j < seen@.len() implies seen@[i] != seen@[j] by {
                                if j == before.len() {
                                    assert(before[i] == seen@[i]);
                                }
                            }
                        }
                    }
                }
            }
            k = k + 1;
        }
        p = p + 1;
    }
    proof {
        assert forall|t: u32| linked(*g, avoid, s, t) implies #[trigger] seen@.contains(t) by {
            let w = choose|w: Seq<u32>| #[trigger] is_walk(*g, w, avoid) && w[0] == s && w.last() == t;
            assert(seen@[0] == s);
            lemma_closed_holds_walk(*g, seen@, avoid, w, w.len() - 1);
        }
    }
    seen
}

/// `v` is a node whose removal disconnects two other nodes that were linked,
/// that is, whose removal increases the number of connected components.
pub open spec fn is_articulation_point<W>(g: Graph<W>, v: u32) -> bool {
    &&& g.node_ids().contains(v)
    &&& exists|x: u32, y: u32|
        x != v && y != v && g.node_ids().contains(x) && #[trigger] linked(g, None, x, y) && !linked(
            g,
            Some(v),
            x,
            y,
        )
}

/// Why an analysis could not run.
pub enum AnalysisError {
    /// The graph has no nodes.
    EmptyGraph,
}

/// Whether removing `v` disconnects two other linked nodes.
fn separates<W>(g: &Graph<W>, v: u32) -> (r: bool)
    requires
        g.wf(),
        g.node_ids().contains(v),
    ensures
        r == is_articulation_point(*g, v),
{
    let nodes = g.get_nodes();
    let mut j: usize = 0;
    while j < nodes.len()
        invariant
            g.wf(),
            g.node_ids().contains(v),
            nodes@ == g.node_ids(),
            j <= nodes@.len(),
            forall|i: int, y: u32|
                0 <= i < j && nodes@[i] != v && y != v && #[trigger] linked(*g, None, nodes@[i], y)
                    ==> linked(*g, Some(v), nodes@[i], y),
        decreases nodes@.len() - j,
    {
        let x = nodes[j];
        assert(nodes@[j as int] == x);
        assert(g.node_ids().contains(x));
        if x != v {
            let all = reachable(g, x, None);
            let kept = reachable(g, x, Some(v));
            let mut k: usize = 0;
            while k < all.len()
                invariant
                    g.wf(),
                    g.node_ids().contains(v),
                    x != v,
                    g.node_ids().contains(x),
                    forall|t: u32| #[trigger] all@.contains(t) <==> linked(*g, None, x, t),
                    forall|t: u32| #[trigger] kept@.contains(t) <==> linked(*g, Some(v), x, t),
                    forall|i: int| 0 <= i < k && all@[i] != v ==> kept@.contains(#[trigger] all@[i]),
                    k <= all@.len(),
                decreases all@.len() - k,
            {
                if all[k] != v && !vec_contains(&kept, all[k]) {
                    let y = all[k];
                    assert(all@.contains(y));
                    assert(!kept@.contains(y));
                    assert(linked(*g, None, x, y) && !linked(*g, Some(v), x, y));
                    return true;
                }
                k = k + 1;
            }
            assert forall|y: u32| y != v && #[trigger] linked(*g, None, x, y) implies linked(*g, Some(v), x, y) by {
                assert(all@.contains(y));
                let i = choose|i: int| 0 <= i < all@.len() && all@[i] == y;
                assert(kept@.contains(all@[i]));
            }
        }
        j = j + 1;
    }
    proof {
        assert forall|x: u32, y: u32|
            x != v && y != v && g.node_ids().contains(x) && #[trigger] linked(*g, None, x, y) implies linked(*g, Some(v), x, y) by {
            let i = choose|i: int| 0 <= i < nodes@.len() && nodes@[i] == x;
            assert(linked(*g, None, nodes@[i], y));
        }
    }
    false
}

/// The articulation points of `g`, each once. Fails on an empty graph.
pub fn articulation_points<W>(g: &Graph<W>) -> (r: Result<Vec<u32>, AnalysisError>)
    requires
        g.wf(),
    ensures
        r is Err <==> g.node_ids().len() == 0,
        r matches Ok(aps) ==> forall|v: u32| #[trigger] aps@.contains(v) <==> is_articulation_point(*g, v),
        r matches Ok(aps) ==> aps@.no_duplicates(),
{
    let nodes = g.get_nodes();
    if nodes.len() == 0 {
        return Err(AnalysisError::EmptyGraph);
    }
    let mut out: Vec<u32> = Vec::new();
    let mut i: usize = 0;
    while i < nodes.len()
        invariant
            g.wf(),
            nodes@ == g.node_ids(),
            i <= nodes@.len(),
            forall|v: u32| #[trigger] out@.contains(v) ==> is_articulation_point(*g, v),
            out@.no_duplicates(),
            forall|m: int| 0 <= m < out@.len() ==> exists|k: int| 0 <= k < i && nodes@[k] == #[trigger] out@[m],
            forall|k: int| 0 <= k < i && is_articulation_point(*g, #[trigger] nodes@[k]) ==> out@.contains(nodes@[k]),
        decreases nodes@.len() - i,
    {
        let v = nodes[i];
        assert(g.node_ids().contains(v));
        if separates(g, v) {
            let ghost before = out@;
            out.push(v);
            proof {
                assert(out@[before.len() as int] == v);
                assert forall|u: u32| #[trigger] out@.contains(u) implies is_articulation_point(*g, u) by {
                    if u != v {
                        let k = choose|k: int| 0 <= k < out@.len() && out@[k] == u;
                        assert(before[k] == u);
                        assert(before.contains(u));
                    }
                }
                assert(!before.contains(v)) by {
                    if before.contains(v) {
                        let m = choose|m: int| 0 <= m < before.len() && before[m] == v;
                        let k = choose|k: int| 0 <= k < i && nodes@[k] == before[m];
                        assert(nodes@[k] == nodes@[i as int]);
                    }
                }
                assert(out@.no_duplicates()) by {
                    assert forall|a: int, b: int| 0 <= a < b < out@.len() implies out@[a] != out@[b] by {
                        if b == before.len() {
                            assert(before[a] == out@[a]);
                            assert(before.contains(out@[a]));
                        }
                    }
                }
                assert forall|m: int| 0 <= m < out@.len() implies exists|k: int| 0 <= k < i + 1 && nodes@[k] == #[trigger] out@[m] by {
                    if m < before.len() {
                        assert(out@[m] == before[m]);
                    } else {
                        assert(nodes@[i as int] == out@[m]);
                    }
                }
                assert forall|k: int| 0 <= k < i + 1 && is_articulation_point(*g, #[trigger] nodes@[k]) implies out@.contains(nodes@[k]) by {
                    if k < i {
                        let m = choose|m: int| 0 <= m < before.len() && before[m] == nodes@[k];
                        assert(out@[m] == nodes@[k]);
                    }
                }
            }
        }
        i = i + 1;
    }
    proof {
        assert forall|v: u32| is_articulation_point(*g, v) implies #[trigger] out@.contains(v) by {
            let k = choose|k: int| 0 <= k < nodes@.len() && nodes@[k] == v;
            assert(is_articulation_point(*g, nodes@[k]));
        }
    }
    Ok(out)
}

/// `h` is `g` with every node renamed by the one-to-one `f`.
pub open spec fn relabeled<W>(g: Graph<W>, h: Graph<W>, f: spec_fn(u32) -> u32) -> bool {
    &&& forall|a: u32, b: u32| #[trigger] f(a) == #[trigger] f(b) ==> a == b
    &&& forall|v: u32| #[trigger] h.node_ids().contains(f(v)) <==> g.node_ids().contains(v)
    &&& forall|z: u32| #[trigger] h.node_ids().contains(z) ==> exists|v: u32| #[trigger] f(v) == z
    &&& forall|a: u32, b: u32| #[trigger] has_link(h.edge_list(), f(a), f(b)) <==> has_link(g.edge_list(), a, b)
}

spec fn rename_avoid(avoid: Option<u32>, f: spec_fn(u32) -> u32) -> Option<u32> {
    match avoid {
        Some(v) => Some(f(v)),
        None => None,
    }
}

proof fn lemma_walk_forward<W>(g: Graph<W>, h: Graph<W>, f: spec_fn(u32) -> u32, avoid: Option<u32>, p: Seq<u32>)
    requires
        relabeled(g, h, f),
        is_walk(g, p, avoid),
    ensures
        is_walk(h, p.map_values(f), rename_avoid(avoid, f)),
{
    let q = p.map_values(f);
    assert forall|i: int| 0 <= i < q.len() implies h.node_ids().contains(#[trigger] q[i]) && rename_avoid(avoid, f) != Some(q[i]) by {
        assert(g.node_ids().contains(p[i]));
        assert(h.node_ids().contains(f(p[i])));
        if let Some(v) = avoid {
            assert(f(v) != f(p[i]));
        }
    }
    assert forall|i: int| 0 <= i < q.len() - 1 implies has_link(h.edge_list(), #[trigger] q[i], q[i + 1]) by {
        assert(has_link(g.edge_list(), p[i], p[i + 1]));
        assert(has_link(h.edge_list(), f(p[i]), f(p[i + 1])));
    }
}

proof fn lemma_walk_back<W>(g: Graph<W>, h: Graph<W>, f: spec_fn(u32) -> u32, avoid: Option<u32>, q: Seq<u32>) -> (p: Seq<u32>)
    requires
        relabeled(g, h, f),
        is_walk(h, q, rename_avoid(avoid, f)),
    ensures
        is_walk(g, p, avoid),
        p.len() == q.len(),
        forall|i: int| 0 <= i < q.len() ==> f(#[trigger] p[i]) == q[i],
{
    let p = q.map_values(|z: u32| choose|v: u32| #[trigger] f(v) == z);
    assert forall|i: int| 0 <= i < q.len() implies f(#[trigger] p[i]) == q[i] by {
        assert(h.node_ids().contains(q[i]));
    }
    assert forall|i: int| 0 <= i < p.len() implies g.node_ids().contains(#[trigger] p[i]) && avoid != Some(p[i]) by {
        assert(f(p[i]) == q[i]);
        assert(h.node_ids().contains(f(p[i])));
    }
    assert forall|i: int| 0 <= i < p.len() - 1 implies has_link(g.edge_list(), #[trigger] p[i], p[i + 1]) by {
        assert(f(p[i]) == q[i]);
        assert(f(p[i + 1]) == q[i + 1]);
        assert(has_link(h.edge_list(), q[i], q[i + 1]));
        assert(has_link(h.edge_list(), f(p[i]), f(p[i + 1])));
    }
    p
}

proof fn lemma_linked_renamed<W>(g: Graph<W>, h: Graph<W>, f: spec_fn(u32) -> u32, avoid: Option<u32>, x: u32, y: u32)
    requires
        relabeled(g, h, f),
    ensures
        linked(h, rename_avoid(avoid, f), f(x), f(y)) <==> linked(g, avoid, x, y),
{
    if linked(g, avoid, x, y) {
        let p = choose|p: Seq<u32>| #[trigger] is_walk(g, p, avoid) && p[0] == x && p.last() == y;
        lemma_walk_forward(g, h, f, avoid, p);
        let q = p.map_values(f);
        assert(q[0] == f(x) && q.last() == f(y));
    }
    if linked(h, rename_avoid(avoid, f), f(x), f(y)) {
        let q = choose|q: Seq<u32>| #[trigger] is_walk(h, q, rename_avoid(avoid, f)) && q[0] == f(x) && q.last() == f(y);
        let p = lemma_walk_back(g, h, f, avoid, q);
        assert(f(p[0]) == f(x));
        assert(f(p[p.len() - 1]) == f(y));
        assert(p[0] == x && p.last() == y);
    }
}

/// Articulation points do not depend on how nodes are named: renaming the
/// nodes one for one renames the articulation points the same way.
pub proof fn articulation_points_follow_renaming<W>(g: Graph<W>, h: Graph<W>, f: spec_fn(u32) -> u32, v: u32)
    requires
        relabeled(g, h, f),
    ensures
        is_articulation_point(h, f(v)) <==> is_articulation_point(g, v),
{
    if is_articulation_point(g, v) {
        let (x, y) = choose|x: u32, y: u32|
            x != v && y != v && g.node_ids().contains(x) && #[trigger] linked(g, None, x, y) && !linked(g, Some(v), x, y);
        lemma_linked_renamed(g, h, f, None, x, y);
        lemma_linked_renamed(g, h, f, Some(v), x, y);
        assert(h.node_ids().contains(f(x)));
        assert(linked(h, None, f(x), f(y)));
    }
    if is_articulation_point(h, f(v)) {
        let (a, b) = choose|a: u32, b: u32|
            a != f(v) && b != f(v) && h.node_ids().contains(a) && #[trigger] linked(h, None, a, b) && !linked(h, Some(f(v)), a, b);
        let q = choose|q: Seq<u32>| #[trigger] is_walk(h, q, None) && q[0] == a && q.last() == b;
        assert(h.node_ids().contains(q[q.len() - 1]));
        let x = choose|x: u32| #[trigger] f(x) == a;
        let y = choose|y: u32| #[trigger] f(y) == b;
        lemma_linked_renamed(g, h, f, None, x, y);
        lemma_linked_renamed(g, h, f, Some(v), x, y);
        assert(g.node_ids().contains(x));
        assert(h.node_ids().contains(f(v)));
    }
}

fn vec_contains(v: &Vec<u32>, x: u32) -> (r: bool)
    ensures
        r == v@.contains(x),
{
    let mut i: usize = 0;
    while i < v.len()
        invariant
            i <= v@.len(),
            forall|k: int| 0 <= k < i ==> v@[k] != x,
        decreases v@.len() - i,
    {
        if v[i] == x {
            return true;
        }
        i = i + 1;
    }
    false
}

} // verus!
