use vstd::prelude::*;

use crate::graph::{has_link, joins, lemma_with_node_contains, with_node, Edge, Graph};

verus! {

/// One directional link observation: `source` heard `neighbor` at `timestamp`.
/// `rank` orders the weights that observations give their links: a smaller
/// rank stands for a numerically smaller weight, and equal weights have equal
/// ranks.
#[derive(Clone, Copy)]
pub struct Observation {
    pub source: u32,
    pub neighbor: u32,
    pub timestamp: u64,
    pub rank: u64,
}

/// Why a snapshot could not be turned into a graph.
pub enum BuildError {
    /// An observed node has no position record.
    MissingLocation(u32),
}

pub open spec fn mentions(o: Observation, id: u32) -> bool {
    o.source == id || o.neighbor == id
}

/// `o` and `p` concern the same unordered pair of nodes.
pub open spec fn same_pair(o: Observation, p: Observation) -> bool {
    (o.source == p.source && o.neighbor == p.neighbor) || (o.source == p.neighbor && o.neighbor
        == p.source)
}

/// `o` takes precedence over `p`: the later timestamp wins; on equal
/// timestamps the smaller weight (by rank) wins. Only where both are equal, and
/// so the weights too, does the direction decide, which then changes nothing
/// in the resulting graph.
pub open spec fn beats(o: Observation, p: Observation) -> bool {
    ||| o.timestamp > p.timestamp
    ||| (o.timestamp == p.timestamp && o.rank < p.rank)
    ||| (o.timestamp == p.timestamp && o.rank == p.rank && o.source < p.source)
}

/// No ordered pair is observed twice (the snapshot is keyed by ordered pair).
pub open spec fn distinct_keys(obs: Seq<Observation>) -> bool {
    forall|i: int, j: int|
        0 <= i < obs.len() && 0 <= j < obs.len() && i != j ==> !(#[trigger] obs[i].source
            == #[trigger] obs[j].source && obs[i].neighbor == obs[j].neighbor)
}

/// Observation `i` takes precedence over every other observation of its pair.
pub open spec fn prevails(obs: Seq<Observation>, i: int) -> bool {
    forall|j: int|
        0 <= j < obs.len() && j != i && same_pair(#[trigger] obs[j], obs[i]) ==> beats(obs[i], obs[j])
}

/// Some observation in `obs` mentions `id`.
pub open spec fn observed(obs: Seq<Observation>, id: u32) -> bool {
    exists|i: int| 0 <= i < obs.len() && mentions(#[trigger] obs[i], id)
}

/// The identifiers that appear in at least one observation.
pub open spec fn observed_ids(obs: Seq<Observation>) -> Set<u32> {
    Set::new(|id: u32| observed(obs, id))
}

/// The edge that observation `i` contributes when it prevails.
pub open spec fn edge_of<W>(obs: Seq<Observation>, weights: Seq<W>, i: int) -> Edge<W> {
    Edge { a: obs[i].source, b: obs[i].neighbor, weight: weights[i] }
}

/// `e` is the edge of an observation that prevails and joins distinct nodes.
pub open spec fn from_prevailing<W>(obs: Seq<Observation>, weights: Seq<W>, e: Edge<W>) -> bool {
    exists|i: int|
        0 <= i < obs.len() && prevails(obs, i) && obs[i].source != obs[i].neighbor && e == edge_of(
            obs,
            weights,
            i,
        )
}

/// `g` is the graph of the snapshot `obs`, where `weights[i]` is the weight that
/// observation `i` gives its link: exactly the observed nodes, and for each
/// observed pair of distinct nodes one edge, taken from the prevailing observation.
pub open spec fn built_from<W>(g: Graph<W>, obs: Seq<Observation>, weights: Seq<W>) -> bool {
    &&& g.wf()
    &&& forall|id: u32| #[trigger] g.node_ids().contains(id) <==> observed(obs, id)
    &&& forall|k: int|
        0 <= k < g.edge_list().len() ==> from_prevailing(obs, weights, #[trigger] g.edge_list()[k])
    &&& forall|i: int|
        0 <= i < obs.len() && obs[i].source != obs[i].neighbor ==> has_link(
            g.edge_list(),
            #[trigger] obs[i].source,
            obs[i].neighbor,
        )
}

fn contains_id(v: &Vec<u32>, id: u32) -> (r: bool)
    ensures
        r == v@.contains(id),
{
    let mut i: usize = 0;
    while i < v.len()
        invariant
            i <= v@.len(),
            forall|k: int| 0 <= k < i ==> v@[k] != id,
        decreases v@.len() - i,
    {
        if v[i] == id {
            return true;
        }
        i = i + 1;
    }
    false
}

spec fn both_located(located: Seq<u32>, o: Observation) -> bool {
    located.contains(o.source) && located.contains(o.neighbor)
}

/// An observed identifier without a position, if there is one.
fn first_unlocated(obs: &Vec<Observation>, located: &Vec<u32>) -> (r: Option<u32>)
    ensures
        r is None <==> forall|id: u32| observed(obs@, id) ==> located@.contains(id),
        r matches Some(id) ==> observed(obs@, id) && !located@.contains(id),
{
    let mut i: usize = 0;
    while i < obs.len()
        invariant
            i <= obs@.len(),
            forall|k: int| 0 <= k < i ==> #[trigger] both_located(located@, obs@[k]),
        decreases obs@.len() - i,
    {
        let o = obs[i];
        if !contains_id(located, o.source) {
            assert(mentions(obs@[i as int], o.source));
            return Some(o.source);
        }
        if !contains_id(located, o.neighbor) {
            assert(mentions(obs@[i as int], o.neighbor));
            return Some(o.neighbor);
        }
        assert(both_located(located@, obs@[i as int]));
        i = i + 1;
    }
    assert forall|id: u32| observed(obs@, id) implies located@.contains(id) by {
        let k = choose|k: int| 0 <= k < obs@.len() && mentions(#[trigger] obs@[k], id);
        assert(both_located(located@, obs@[k]));
    }
    None
}

/// Inserts the node `node_id` unless it is already present.
pub fn add_node_to_graph_if_not_exists<W>(graph: &mut Graph<W>, node_id: u32)
    requires
        old(graph).wf(),
    ensures
        final(graph).wf(),
        final(graph).node_ids() == with_node(old(graph).node_ids(), node_id),
        final(graph).edge_list() == old(graph).edge_list(),
{
    if !graph.contains_node(node_id) {
        graph.add_node(node_id);
    }
}

/// The observation that prevails among those of the pair observed by `obs[i]`.
fn strongest(obs: &Vec<Observation>, i: usize) -> (r: usize)
    requires
        i < obs@.len(),
        distinct_keys(obs@),
    ensures
        r < obs@.len(),
        same_pair(obs@[r as int], obs@[i as int]),
        prevails(obs@, r as int),
{
    let mut best: usize = i;
    let mut j: usize = 0;
    while j < obs.len()
        invariant
            j <= obs@.len(),
            i < obs@.len(),
            best < obs@.len(),
            distinct_keys(obs@),
            same_pair(obs@[best as int], obs@[i as int]),
            forall|k: int|
                0 <= k < j && k != best && same_pair(#[trigger] obs@[k], obs@[i as int]) ==> beats(
                    obs@[best as int],
                    obs@[k],
                ),
        decreases obs@.len() - j,
    {
        let o = obs[j];
        let b = obs[best];
        if o.source == obs[i].source && o.neighbor == obs[i].neighbor || o.source == obs[i].neighbor
            && o.neighbor == obs[i].source {
            if o.timestamp > b.timestamp || (o.timestamp == b.timestamp && o.rank < b.rank) || (
            o.timestamp == b.timestamp && o.rank == b.rank && o.source < b.source) {
                best = j;
            } else if j != best {
                assert(obs@[j as int].source != obs@[best as int].source
                    || obs@[j as int].neighbor != obs@[best as int].neighbor);
            }
        }
        j = j + 1;
    }
    best
}

proof fn lemma_link_kept<W>(edges: Seq<Edge<W>>, e: Edge<W>, x: u32, y: u32)
    requires
        has_link(edges, x, y),
    ensures
        has_link(edges.push(e), x, y),
{
    let k = choose|k: int| 0 <= k < edges.len() && joins(#[trigger] edges[k], x, y);
    assert(edges.push(e)[k] == edges[k]);
}

/// Builds the graph of a telemetry snapshot. `weights[i]` is the weight that
/// observation `i` gives its link; `located` lists the nodes with a position.
/// Fails when an observed node has no position.
pub fn build_graph<W: Copy>(obs: &Vec<Observation>, weights: &Vec<W>, located: &Vec<u32>) -> (r:
    Result<Graph<W>, BuildError>)
    requires
        obs@.len() == weights@.len(),
        distinct_keys(obs@),
    ensures
        r is Err <==> exists|id: u32| observed(obs@, id) && !located@.contains(id),
        r matches Err(BuildError::MissingLocation(id)) ==> observed(obs@, id)
            && !located@.contains(id),
        r matches Ok(g) ==> built_from(g, obs@, weights@),
{
    if let Some(id) = first_unlocated(obs, located) {
        return Err(BuildError::MissingLocation(id));
    }
    let mut g: Graph<W> = Graph::new();
    let mut i: usize = 0;
    while i < obs.len()
        invariant
            i <= obs@.len(),
            g.wf(),
            g.edge_list() == Seq::<Edge<W>>::empty(),
            forall|k: int|
                0 <= k < i ==> g.node_ids().contains(#[trigger] obs@[k].source) && g.node_ids().contains(
                    obs@[k].neighbor,
                ),
            forall|id: u32| #[trigger] g.node_ids().contains(id) ==> observed(obs@.take(i as int), id),
        decreases obs@.len() - i,
    {
        let o = obs[i];
        let ghost before = g.node_ids();
        add_node_to_graph_if_not_exists(&mut g, o.source);
        let ghost mid = g.node_ids();
        add_node_to_graph_if_not_exists(&mut g, o.neighbor);
        proof {
            lemma_with_node_contains(before, o.source);
            lemma_with_node_contains(mid, o.neighbor);
        }
        assert forall|id: u32| #[trigger] g.node_ids().contains(id) implies observed(
            obs@.take(i + 1),
            id,
        ) by {
            if before.contains(id) {
                let k = choose|k: int| 0 <= k < i && mentions(#[trigger] obs@.take(i as int)[k], id);
                assert(obs@.take(i + 1)[k] == obs@.take(i as int)[k]);
            } else {
                assert(mentions(obs@.take(i + 1)[i as int], id));
            }
        }
        assert forall|k: int| 0 <= k < i + 1 implies g.node_ids().contains(#[trigger] obs@[k].source)
            && g.node_ids().contains(obs@[k].neighbor) by {
            if k < i {
                assert(before.contains(obs@[k].source));
                assert(before.contains(obs@[k].neighbor));
            }
        }
        i = i + 1;
    }
    assert(obs@.take(obs@.len() as int) == obs@);
    let ghost nodes = g.node_ids();
    let mut i: usize = 0;
    while i < obs.len()
        invariant
            i <= obs@.len(),
            obs@.len() == weights@.len(),
            distinct_keys(obs@),
            g.wf(),
            g.node_ids() == nodes,
            forall|k: int|
                0 <= k < obs@.len() ==> nodes.contains(#[trigger] obs@[k].source) && nodes.contains(
                    obs@[k].neighbor,
                ),
            forall|k: int|
                0 <= k < g.edge_list().len() ==> from_prevailing(
                    obs@,
                    weights@,
                    #[trigger] g.edge_list()[k],
                ),
            forall|k: int|
                0 <= k < i && obs@[k].source != obs@[k].neighbor ==> has_link(
                    g.edge_list(),
                    #[trigger] obs@[k].source,
                    obs@[k].neighbor,
                ),
        decreases obs@.len() - i,
    {
        let o = obs[i];
        let ghost before = g.edge_list();
        if o.source != o.neighbor && !g.contains_edge(o.source, o.neighbor) {
            let w = strongest(obs, i);
            let e = Edge { a: obs[w].source, b: obs[w].neighbor, weight: weights[w] };
            assert(forall|x: int|
                0 <= x < before.len() ==> (joins(#[trigger] before[x], e.a, e.b) == joins(
                    before[x],
                    o.source,
                    o.neighbor,
                )));
            let added = g.add_edge_from_struct(e);
            assert(added);
            assert(joins(g.edge_list()[before.len() as int], o.source, o.neighbor));
            assert forall|k: int| 0 <= k < g.edge_list().len() implies from_prevailing(
                obs@,
                weights@,
                #[trigger] g.edge_list()[k],
            ) by {
                if k == before.len() {
                    assert(g.edge_list()[k] == edge_of(obs@, weights@, w as int));
                } else {
                    assert(g.edge_list()[k] == before[k]);
                }
            }
            assert forall|k: int|
                0 <= k < i && obs@[k].source != obs@[k].neighbor implies has_link(
                g.edge_list(),
                #[trigger] obs@[k].source,
                obs@[k].neighbor,
            ) by {
                lemma_link_kept(before, e, obs@[k].source, obs@[k].neighbor);
            }
        }
        i = i + 1;
    }
    proof {
        assert(g.wf());
        assert forall|id: u32| #[trigger] g.node_ids().contains(id) <== observed(obs@, id) by {
            if observed(obs@, id) {
                let k = choose|k: int| 0 <= k < obs@.len() && mentions(#[trigger] obs@[k], id);
                assert(nodes.contains(obs@[k].source));
            }
        }
        assert(forall|id: u32| #[trigger] g.node_ids().contains(id) <==> observed(obs@, id));
        assert(forall|k: int|
            0 <= k < obs@.len() && obs@[k].source != obs@[k].neighbor ==> has_link(
                g.edge_list(),
                #[trigger] obs@[k].source,
                obs@[k].neighbor,
            ));
    }
    Ok(g)
}

/// The graph of a snapshot has exactly as many nodes as there are distinct
/// identifiers in its observations; nodes known only by position do not count.
pub proof fn order_is_observed_count<W>(g: Graph<W>, obs: Seq<Observation>, weights: Seq<W>)
    requires
        built_from(g, obs, weights),
    ensures
        g.node_ids().len() == observed_ids(obs).len(),
{
    assert(g.node_ids().to_set() =~= observed_ids(obs));
    g.node_ids().unique_seq_to_set();
}

/// When a pair is observed in both directions at different timestamps, its one
/// edge carries the weight of the later observation, wherever the two stand in
/// the snapshot.
#[verifier::rlimit(40)]
pub proof fn later_observation_decides<W>(
    g: Graph<W>,
    obs: Seq<Observation>,
    weights: Seq<W>,
    i: int,
    j: int,
)
    requires
        built_from(g, obs, weights),
        distinct_keys(obs),
        0 <= i < obs.len(),
        0 <= j < obs.len(),
        obs[j].source == obs[i].neighbor,
        obs[j].neighbor == obs[i].source,
        obs[i].source != obs[i].neighbor,
        obs[i].timestamp > obs[j].timestamp,
    ensures
        g.weight_between(obs[i].source, obs[i].neighbor) == Some(weights[i]),
        g.weight_between(obs[i].neighbor, obs[i].source) == Some(weights[i]),
{
    let a = obs[i].source;
    let b = obs[i].neighbor;
    assert(has_link(g.edge_list(), a, b));
    assert forall|k: int| 0 <= k < g.edge_list().len() && joins(#[trigger] g.edge_list()[k], a, b)
        implies g.edge_list()[k].weight == weights[i] by {
        assert(from_prevailing(obs, weights, g.edge_list()[k]));
        let v = choose|v: int|
            0 <= v < obs.len() && prevails(obs, v) && obs[v].source != obs[v].neighbor
                && g.edge_list()[k] == edge_of(obs, weights, v);
        let e = edge_of(obs, weights, v);
        assert(joins(e, a, b));
        if e.a == a {
            if v != i {
                assert(!(obs[v].source == obs[i].source && obs[v].neighbor == obs[i].neighbor));
            }
        } else {
            if v != j {
                assert(!(obs[v].source == obs[j].source && obs[v].neighbor == obs[j].neighbor));
            }
            assert(v == j);
            assert(same_pair(obs[i], obs[v]));
            assert(beats(obs[v], obs[i]));
        }
    }
    assert(has_link(g.edge_list(), b, a)) by {
        let k = choose|k: int| 0 <= k < g.edge_list().len() && joins(#[trigger] g.edge_list()[k], a, b);
        assert(joins(g.edge_list()[k], b, a));
    }
}

/// The edge of a pair carries the weight of the observation that prevails for it.
proof fn lemma_prevailing_weight<W>(
    g: Graph<W>,
    obs: Seq<Observation>,
    weights: Seq<W>,
    i: int,
    x: u32,
    y: u32,
)
    requires
        built_from(g, obs, weights),
        0 <= i < obs.len(),
        prevails(obs, i),
        obs[i].source != obs[i].neighbor,
        (obs[i].source == x && obs[i].neighbor == y) || (obs[i].source == y && obs[i].neighbor == x),
    ensures
        g.weight_between(x, y) == Some(weights[i]),
{
    assert(has_link(g.edge_list(), obs[i].source, obs[i].neighbor));
    let k0 = choose|k: int|
        0 <= k < g.edge_list().len() && joins(#[trigger] g.edge_list()[k], obs[i].source, obs[i].neighbor);
    assert(joins(g.edge_list()[k0], x, y));
    let k = choose|k: int| 0 <= k < g.edge_list().len() && joins(#[trigger] g.edge_list()[k], x, y);
    assert(from_prevailing(obs, weights, g.edge_list()[k]));
    let v = choose|v: int|
        0 <= v < obs.len() && prevails(obs, v) && obs[v].source != obs[v].neighbor
            && g.edge_list()[k] == edge_of(obs, weights, v);
    if v != i {
        assert(same_pair(obs[v], obs[i]));
        assert(same_pair(obs[i], obs[v]));
        assert(beats(obs[i], obs[v]));
        assert(beats(obs[v], obs[i]));
    }
}

/// Observation `o` stands somewhere in `b` with weight `w`.
pub open spec fn holds_copy<W>(b: Seq<Observation>, wb: Seq<W>, o: Observation, w: W) -> bool {
    exists|j: int| 0 <= j < b.len() && b[j] == o && wb[j] == w
}

/// Every observation of `a` appears in `b`, at some place, with the same weight.
pub open spec fn contained_in<W>(
    a: Seq<Observation>,
    wa: Seq<W>,
    b: Seq<Observation>,
    wb: Seq<W>,
) -> bool {
    forall|i: int| 0 <= i < a.len() ==> #[trigger] holds_copy(b, wb, a[i], wa[i])
}

proof fn lemma_weight_carried<W>(
    g1: Graph<W>,
    obs1: Seq<Observation>,
    w1: Seq<W>,
    g2: Graph<W>,
    obs2: Seq<Observation>,
    w2: Seq<W>,
    x: u32,
    y: u32,
)
    requires
        built_from(g1, obs1, w1),
        built_from(g2, obs2, w2),
        distinct_keys(obs2),
        contained_in(obs1, w1, obs2, w2),
        contained_in(obs2, w2, obs1, w1),
        has_link(g1.edge_list(), x, y),
    ensures
        g2.weight_between(x, y) == g1.weight_between(x, y),
{
    let k = choose|k: int| 0 <= k < g1.edge_list().len() && joins(#[trigger] g1.edge_list()[k], x, y);
    assert(from_prevailing(obs1, w1, g1.edge_list()[k]));
    let v = choose|v: int|
        0 <= v < obs1.len() && prevails(obs1, v) && obs1[v].source != obs1[v].neighbor
            && g1.edge_list()[k] == edge_of(obs1, w1, v);
    lemma_prevailing_weight(g1, obs1, w1, v, x, y);
    assert(holds_copy(obs2, w2, obs1[v], w1[v]));
    let j = choose|j: int| 0 <= j < obs2.len() && obs2[j] == obs1[v] && w2[j] == w1[v];
    assert forall|m: int| 0 <= m < obs2.len() && m != j && same_pair(#[trigger] obs2[m], obs2[j])
        implies beats(obs2[j], obs2[m]) by {
        assert(holds_copy(obs1, w1, obs2[m], w2[m]));
        let n = choose|n: int| 0 <= n < obs1.len() && obs1[n] == obs2[m] && w1[n] == w2[m];
        assert(!(obs2[m].source == obs2[j].source && obs2[m].neighbor == obs2[j].neighbor));
        assert(n != v);
        assert(same_pair(obs1[n], obs1[v]));
    }
    lemma_prevailing_weight(g2, obs2, w2, j, x, y);
}

/// Snapshots that hold the same observations with the same weights, in any
/// order, give graphs with the same nodes and the same weight on every pair:
/// only the explicit precedence between observations decides, never their order.
pub proof fn order_does_not_matter<W>(
    g1: Graph<W>,
    obs1: Seq<Observation>,
    w1: Seq<W>,
    g2: Graph<W>,
    obs2: Seq<Observation>,
    w2: Seq<W>,
)
    requires
        built_from(g1, obs1, w1),
        built_from(g2, obs2, w2),
        distinct_keys(obs1),
        distinct_keys(obs2),
        contained_in(obs1, w1, obs2, w2),
        contained_in(obs2, w2, obs1, w1),
    ensures
        forall|id: u32| g1.node_ids().contains(id) <==> g2.node_ids().contains(id),
        g1.node_ids().len() == g2.node_ids().len(),
        forall|x: u32, y: u32| g1.weight_between(x, y) == g2.weight_between(x, y),
{
    assert forall|id: u32| observed(obs1, id) <==> observed(obs2, id) by {
        if observed(obs1, id) {
            let i = choose|i: int| 0 <= i < obs1.len() && mentions(#[trigger] obs1[i], id);
            assert(holds_copy(obs2, w2, obs1[i], w1[i]));
            let j = choose|j: int| 0 <= j < obs2.len() && obs2[j] == obs1[i] && w2[j] == w1[i];
            assert(mentions(obs2[j], id));
        }
        if observed(obs2, id) {
            let j = choose|j: int| 0 <= j < obs2.len() && mentions(#[trigger] obs2[j], id);
            assert(holds_copy(obs1, w1, obs2[j], w2[j]));
            let i = choose|i: int| 0 <= i < obs1.len() && obs1[i] == obs2[j] && w1[i] == w2[j];
            assert(mentions(obs1[i], id));
        }
    }
    assert forall|id: u32| g1.node_ids().contains(id) <==> g2.node_ids().contains(id) by {
        assert(g1.node_ids().contains(id) <==> observed(obs1, id));
        assert(g2.node_ids().contains(id) <==> observed(obs2, id));
    }
    assert(g1.node_ids().to_set() =~= g2.node_ids().to_set());
    g1.node_ids().unique_seq_to_set();
    g2.node_ids().unique_seq_to_set();
    assert forall|x: u32, y: u32| g1.weight_between(x, y) == g2.weight_between(x, y) by {
        if has_link(g1.edge_list(), x, y) {
            lemma_weight_carried(g1, obs1, w1, g2, obs2, w2, x, y);
        } else if has_link(g2.edge_list(), x, y) {
            lemma_weight_carried(g2, obs2, w2, g1, obs1, w1, x, y);
        }
    }
}

/// A link of the graph comes from a prevailing observation of its pair.
proof fn lemma_link_origin<W>(g: Graph<W>, obs: Seq<Observation>, weights: Seq<W>, x: u32, y: u32) -> (v:
    int)
    requires
        built_from(g, obs, weights),
        has_link(g.edge_list(), x, y),
    ensures
        0 <= v < obs.len(),
        prevails(obs, v),
        obs[v].source != obs[v].neighbor,
        (obs[v].source == x && obs[v].neighbor == y) || (obs[v].source == y && obs[v].neighbor == x),
{
    let k = choose|k: int| 0 <= k < g.edge_list().len() && joins(#[trigger] g.edge_list()[k], x, y);
    assert(from_prevailing(obs, weights, g.edge_list()[k]));
    choose|v: int|
        0 <= v < obs.len() && prevails(obs, v) && obs[v].source != obs[v].neighbor
            && g.edge_list()[k] == edge_of(obs, weights, v)
}

/// `b` is `a` with every node identifier renamed by `f`.
pub open spec fn renamed(a: Seq<Observation>, b: Seq<Observation>, f: spec_fn(u32) -> u32) -> bool {
    &&& b.len() == a.len()
    &&& forall|i: int|
        0 <= i < a.len() ==> #[trigger] b[i] == (Observation {
            source: f(a[i].source),
            neighbor: f(a[i].neighbor),
            timestamp: a[i].timestamp,
            rank: a[i].rank,
        })
}

/// The renaming law for one pair of nodes.
#[verifier::rlimit(60)]
proof fn lemma_rename_pair<W>(
    g1: Graph<W>,
    obs1: Seq<Observation>,
    w1: Seq<W>,
    g2: Graph<W>,
    obs2: Seq<Observation>,
    w2: Seq<W>,
    f: spec_fn(u32) -> u32,
    x: u32,
    y: u32,
)
    requires
        built_from(g1, obs1, w1),
        built_from(g2, obs2, w2),
        distinct_keys(obs1),
        forall|a: u32, b: u32| #[trigger] f(a) == #[trigger] f(b) ==> a == b,
        renamed(obs1, obs2, f),
        w2 == w1,
        forall|i: int, j: int|
            0 <= i < obs1.len() && 0 <= j < obs1.len() && same_pair(#[trigger] obs1[i], #[trigger] obs1[j])
                && obs1[i].rank == obs1[j].rank ==> w1[i] == w1[j],
    ensures
        g2.weight_between(f(x), f(y)) == g1.weight_between(x, y),
{
    if has_link(g1.edge_list(), x, y) {
        let v = lemma_link_origin(g1, obs1, w1, x, y);
        assert(obs2[v] == obs2[v]);
        assert(obs2[v].source != obs2[v].neighbor);
        assert(has_link(g2.edge_list(), obs2[v].source, obs2[v].neighbor));
        let k = choose|k: int|
            0 <= k < g2.edge_list().len() && joins(#[trigger] g2.edge_list()[k], obs2[v].source, obs2[v].neighbor);
        assert(joins(g2.edge_list()[k], f(x), f(y)));
        let u = lemma_link_origin(g2, obs2, w2, f(x), f(y));
        assert(obs2[u] == obs2[u]);
        lemma_prevailing_weight(g1, obs1, w1, v, x, y);
        lemma_prevailing_weight(g2, obs2, w2, u, f(x), f(y));
        if u != v {
            assert(same_pair(obs1[u], obs1[v]));
            assert(same_pair(obs2[u], obs2[v]));
            assert(beats(obs1[v], obs1[u]));
            assert(beats(obs2[u], obs2[v]));
            assert(w1[u] == w1[v]);
        }
    } else if has_link(g2.edge_list(), f(x), f(y)) {
        let u = lemma_link_origin(g2, obs2, w2, f(x), f(y));
        assert(obs2[u] == obs2[u]);
        assert(has_link(g1.edge_list(), obs1[u].source, obs1[u].neighbor));
        let k = choose|k: int|
            0 <= k < g1.edge_list().len() && joins(#[trigger] g1.edge_list()[k], obs1[u].source, obs1[u].neighbor);
        assert(joins(g1.edge_list()[k], x, y));
    }
}

/// Renaming the nodes one for one and rebuilding keeps the weight of every
/// pair, where equal ranks within a pair stand for equal weights.
pub proof fn renaming_keeps_weights<W>(
    g1: Graph<W>,
    obs1: Seq<Observation>,
    w1: Seq<W>,
    g2: Graph<W>,
    obs2: Seq<Observation>,
    w2: Seq<W>,
    f: spec_fn(u32) -> u32,
)
    requires
        built_from(g1, obs1, w1),
        built_from(g2, obs2, w2),
        distinct_keys(obs1),
        forall|a: u32, b: u32| #[trigger] f(a) == #[trigger] f(b) ==> a == b,
        renamed(obs1, obs2, f),
        w2 == w1,
        forall|i: int, j: int|
            0 <= i < obs1.len() && 0 <= j < obs1.len() && same_pair(#[trigger] obs1[i], #[trigger] obs1[j])
                && obs1[i].rank == obs1[j].rank ==> w1[i] == w1[j],
    ensures
        forall|x: u32, y: u32| #[trigger] g2.weight_between(f(x), f(y)) == g1.weight_between(x, y),
{
    assert forall|x: u32, y: u32| #[trigger] g2.weight_between(f(x), f(y)) == g1.weight_between(x, y) by {
        lemma_rename_pair(g1, obs1, w1, g2, obs2, w2, f, x, y);
    }
}

} // verus!
