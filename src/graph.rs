use vstd::prelude::*;

verus! {

/// An undirected weighted link between two nodes, named by their identifiers.
#[derive(Clone, Copy)]
pub struct Edge<W> {
    pub a: u32,
    pub b: u32,
    pub weight: W,
}

/// `e` links `x` and `y`, in either direction.
pub open spec fn joins<W>(e: Edge<W>, x: u32, y: u32) -> bool {
    (e.a == x && e.b == y) || (e.a == y && e.b == x)
}

/// Some edge of `edges` links `x` and `y`.
pub open spec fn has_link<W>(edges: Seq<Edge<W>>, x: u32, y: u32) -> bool {
    exists|i: int| 0 <= i < edges.len() && joins(#[trigger] edges[i], x, y)
}

/// The node table after inserting `id`: unchanged if present, else `id` appended.
pub open spec fn with_node(ids: Seq<u32>, id: u32) -> Seq<u32> {
    if ids.contains(id) {
        ids
    } else {
        ids.push(id)
    }
}

/// After inserting `id`, exactly `id` and the earlier nodes are present.
pub proof fn lemma_with_node_contains(ids: Seq<u32>, id: u32)
    ensures
        forall|x: u32| #[trigger] with_node(ids, id).contains(x) <==> (ids.contains(x) || x == id),
{
    assert forall|x: u32| #[trigger] with_node(ids, id).contains(x) <==> (ids.contains(x) || x == id) by {
        if !ids.contains(id) {
            if ids.contains(x) {
                let k = choose|k: int| 0 <= k < ids.len() && ids[k] == x;
                assert(ids.push(id)[k] == x);
            }
            assert(ids.push(id)[ids.len() as int] == id);
        }
    }
}

/// Inserting the same identifier twice leaves exactly one copy of it, at the
/// index that the first insertion gave it; earlier nodes keep their indices.
pub proof fn insertion_is_idempotent(ids: Seq<u32>, id: u32)
    requires
        ids.no_duplicates(),
    ensures
        with_node(with_node(ids, id), id) == with_node(ids, id),
        with_node(ids, id).no_duplicates(),
        with_node(ids, id).contains(id),
        forall|k: int| 0 <= k < ids.len() ==> with_node(ids, id)[k] == ids[k],
{
    lemma_with_node_contains(ids, id);
    if !ids.contains(id) {
        let s = ids.push(id);
        assert forall|i: int, j: int| 0 <= i < j < s.len() implies s[i] != s[j] by {
            if j == ids.len() {
                assert(ids[i] == s[i]);
            }
        }
    }
}

/// A weighted undirected graph over nodes named by `u32` identifiers.
/// A node's position in the node table is its dense internal index.
pub struct Graph<W> {
    nodes: Vec<u32>,
    edges: Vec<Edge<W>>,
}

impl<W> Graph<W> {
    /// The node identifiers, in order of insertion (index order).
    pub closed spec fn node_ids(&self) -> Seq<u32> {
        self.nodes@
    }

    /// The edges, in order of insertion.
    pub closed spec fn edge_list(&self) -> Seq<Edge<W>> {
        self.edges@
    }

    /// Unique node names; every edge joins two distinct existing nodes; at most
    /// one edge per unordered pair.
    pub open spec fn wf(&self) -> bool {
        &&& self.node_ids().no_duplicates()
        &&& forall|i: int|
            0 <= i < self.edge_list().len() ==> {
                let e = #[trigger] self.edge_list()[i];
                &&& self.node_ids().contains(e.a)
                &&& self.node_ids().contains(e.b)
                &&& e.a != e.b
            }
        &&& forall|i: int, j: int|
            0 <= i < j < self.edge_list().len() ==> !joins(
                #[trigger] self.edge_list()[i],
                #[trigger] self.edge_list()[j].a,
                self.edge_list()[j].b,
            )
    }

    /// The weight stored for the unordered pair `{x, y}`, if linked.
    pub open spec fn weight_between(&self, x: u32, y: u32) -> Option<W> {
        if has_link(self.edge_list(), x, y) {
            let i = choose|i: int| 0 <= i < self.edge_list().len() && joins(#[trigger] self.edge_list()[i], x, y);
            Some(self.edge_list()[i].weight)
        } else {
            None
        }
    }

    pub fn new() -> (r: Self)
        ensures
            r.wf(),
            r.node_ids() == Seq::<u32>::empty(),
            r.edge_list() == Seq::<Edge<W>>::empty(),
    {
        Graph { nodes: Vec::new(), edges: Vec::new() }
    }

    pub fn contains_node(&self, id: u32) -> (r: bool)
        ensures
            r == self.node_ids().contains(id),
    {
        let mut i: usize = 0;
        while i < self.nodes.len()
            invariant
                i <= self.nodes@.len(),
                forall|k: int| 0 <= k < i ==> self.nodes@[k] != id,
            decreases self.nodes@.len() - i,
        {
            if self.nodes[i] == id {
                return true;
            }
            i = i + 1;
        }
        false
    }

    /// Inserts `id` unless present; an existing node keeps its index.
    pub fn add_node(&mut self, id: u32)
        requires
            old(self).wf(),
        ensures
            final(self).wf(),
            final(self).node_ids() == with_node(old(self).node_ids(), id),
            final(self).edge_list() == old(self).edge_list(),
    {
        if !self.contains_node(id) {
            self.nodes.push(id);
            assert forall|i: int| 0 <= i < self.edge_list().len() implies {
                let e = #[trigger] self.edge_list()[i];
                self.node_ids().contains(e.a) && self.node_ids().contains(e.b) && e.a != e.b
            } by {
                let e = old(self).edge_list()[i];
                let ka = choose|k: int| 0 <= k < old(self).nodes@.len() && old(self).nodes@[k] == e.a;
                let kb = choose|k: int| 0 <= k < old(self).nodes@.len() && old(self).nodes@[k] == e.b;
                assert(self.nodes@[ka] == e.a);
                assert(self.nodes@[kb] == e.b);
            }
            assert(self.node_ids().no_duplicates()) by {
                assert forall|i: int, j: int|
                    0 <= i < j < self.nodes@.len() implies self.nodes@[i] != self.nodes@[j] by {
                    if j == old(self).nodes@.len() {
                        assert(old(self).nodes@[i] == self.nodes@[i]);
                    }
                }
            }
            assert(self.edge_list() == old(self).edge_list());
            assert(self.wf());
        }
    }

    /// The internal index of a node that is present.
    pub fn get_node_idx(&self, id: u32) -> (r: usize)
        requires
            self.node_ids().contains(id),
        ensures
            r < self.node_ids().len(),
            self.node_ids()[r as int] == id,
    {
        let mut i: usize = 0;
        while i < self.nodes.len()
            invariant
                i <= self.nodes@.len(),
                self.nodes@.contains(id),
                forall|k: int| 0 <= k < i ==> self.nodes@[k] != id,
            decreases self.nodes@.len() - i,
        {
            if self.nodes[i] == id {
                return i;
            }
            i = i + 1;
        }
        i
    }

    /// The position in the edge list of the edge linking `x` and `y`, if any.
    fn find_link(&self, x: u32, y: u32) -> (r: Option<usize>)
        ensures
            r is None <==> !has_link(self.edges@, x, y),
            r matches Some(i) ==> i < self.edges@.len() && joins(self.edges@[i as int], x, y),
    {
        let mut i: usize = 0;
        while i < self.edges.len()
            invariant
                i <= self.edges@.len(),
                forall|k: int| 0 <= k < i ==> !joins(#[trigger] self.edges@[k], x, y),
            decreases self.edges@.len() - i,
        {
            let e = &self.edges[i];
            if (e.a == x && e.b == y) || (e.a == y && e.b == x) {
                return Some(i);
            }
            i = i + 1;
        }
        None
    }

    /// Whether some edge links `x` and `y`.
    pub fn contains_edge(&self, x: u32, y: u32) -> (r: bool)
        ensures
            r == has_link(self.edge_list(), x, y),
    {
        self.find_link(x, y).is_some()
    }

    /// Inserts `e` when both endpoints exist, differ, and are not linked yet;
    /// otherwise leaves the graph unchanged. Returns whether it inserted.
    pub fn add_edge_from_struct(&mut self, e: Edge<W>) -> (r: bool)
        requires
            old(self).wf(),
        ensures
            final(self).wf(),
            final(self).node_ids() == old(self).node_ids(),
            r == (old(self).node_ids().contains(e.a) && old(self).node_ids().contains(e.b) && e.a
                != e.b && !has_link(old(self).edge_list(), e.a, e.b)),
            r ==> final(self).edge_list() == old(self).edge_list().push(e),
            !r ==> final(self).edge_list() == old(self).edge_list(),
    {
        if e.a == e.b || !self.contains_node(e.a) || !self.contains_node(e.b) {
            return false;
        }
        if self.find_link(e.a, e.b).is_some() {
            return false;
        }
        let ghost pre = self.edges@;
        self.edges.push(e);
        assert forall|i: int, j: int|
            0 <= i < j < self.edges@.len() implies !joins(
            #[trigger] self.edges@[i],
            #[trigger] self.edges@[j].a,
            self.edges@[j].b,
        ) by {
            if j == pre.len() {
                assert(!joins(pre[i], e.a, e.b));
            } else {
                assert(!joins(old(self).edge_list()[i], old(self).edge_list()[j].a, old(self).edge_list()[j].b));
            }
        }
        assert forall|i: int| 0 <= i < self.edges@.len() implies {
            let f = #[trigger] self.edge_list()[i];
            self.node_ids().contains(f.a) && self.node_ids().contains(f.b) && f.a != f.b
        } by {
            if i < pre.len() {
                assert(old(self).edge_list()[i] == self.edges@[i]);
            }
        }
        true
    }

    /// Number of nodes.
    pub fn get_order(&self) -> (r: usize)
        ensures
            r == self.node_ids().len(),
    {
        self.nodes.len()
    }

    /// Number of edges.
    pub fn get_size(&self) -> (r: usize)
        ensures
            r == self.edge_list().len(),
    {
        self.edges.len()
    }

    /// The node identifiers, in index order.
    pub fn get_nodes(&self) -> (r: &Vec<u32>)
        ensures
            r@ == self.node_ids(),
    {
        &self.nodes
    }

    /// The edges, in order of insertion.
    pub fn get_edges(&self) -> (r: &Vec<Edge<W>>)
        ensures
            r@ == self.edge_list(),
    {
        &self.edges
    }
}

impl<W: Copy> Graph<W> {
    /// The weight stored for the unordered pair `{x, y}`.
    pub fn get_edge_weight(&self, x: u32, y: u32) -> (r: Option<W>)
        requires
            self.wf(),
        ensures
            r == self.weight_between(x, y),
    {
        match self.find_link(x, y) {
            None => None,
            Some(i) => {
                let ghost k = choose|k: int| 0 <= k < self.edges@.len() && joins(#[trigger] self.edges@[k], x, y);
                assert(k == i) by {
                    if k < i {
                        assert(!joins(self.edges@[k], self.edges@[i as int].a, self.edges@[i as int].b));
                    } else if i < k {
                        assert(!joins(self.edges@[i as int], self.edges@[k].a, self.edges@[k].b));
                    }
                }
                Some(self.edges[i].weight)
            }
        }
    }
}

} // verus!
