//! A validated directed acyclic graph over user-supplied nodes, with
//! children-first and parents-first traversals.
//!
//! A `Dag` is modelled by the sequence of its nodes: identifiers and edges
//! are read off the nodes, and every other piece of state is derived.
use crate::graph::{
    acyclic, adj_of, all_below, find_cycle, find_roots, first_cycle_node, has_edge,
    has_parent, is_dag, is_path, is_permutation, is_root_seq, lemma_dag_is_acyclic,
    lemma_mirrored, lemma_path_in_range, lemma_permutation_covers, lemma_post_order_of_node,
    lemma_post_order_of_roots, lemma_push_row_dag, lemma_self_loop_is_reported, mirror,
    mirrored, on_cycle, post_order, post_order_from, ranked, reaches, roots_with_row,
    stands_before, well_formed,
};
use std::marker::PhantomData;
use vstd::prelude::*;
use vstd::string::StringExecFns;

verus! {

/// A node of a graph: it knows its own identifier and the identifiers of
/// the nodes it has an edge to. Identifiers are compared by their views.
pub trait GraphNode<I: View> {
    /// The identifier of this node, unique among the nodes of one graph.
    /// Left open here: an implementation that is to be verified says what
    /// it is.
    open spec fn spec_id(&self) -> I::V {
        arbitrary()
    }

    /// The identifiers of the nodes that this node has an edge to, in
    /// declaration order. Left open here, as `spec_id` is.
    open spec fn spec_child_ids(&self) -> Seq<I::V> {
        arbitrary()
    }

    fn id(&self) -> (r: I)
        ensures
            r@ == self.spec_id(),
    ;

    fn child_ids(&self) -> (r: Vec<I>)
        ensures
            r@.len() == self.spec_child_ids().len(),
            forall|k: int| 0 <= k < r@.len() ==> (#[trigger] r@[k])@ == self.spec_child_ids()[k],
    ;

    /// Whether `id` is this node's identifier.
    fn has_id(&self, id: &I) -> (b: bool)
        ensures
            b == (self.spec_id() == id@),
    ;
}

/// Why a sequence of nodes is not a DAG.
#[derive(Debug, PartialEq, Eq)]
pub enum DagError<I> {
    /// Two nodes had the same identifier.
    DuplicateId(I),
    /// The node `parent` referred to `child`, which does not exist.
    NoSuchChild { parent: I, child: I },
    /// The node with this identifier lies on a cycle.
    Cycle(I),
}

/// `s` between double quotes.
pub open spec fn quoted(s: Seq<char>) -> Seq<char> {
    "\""@ + s + "\""@
}

/// What `DagError::message` says of each error.
pub open spec fn dag_error_text(e: DagError<String>) -> Seq<char> {
    match e {
        DagError::DuplicateId(id) => "duplicate key "@ + quoted(id@),
        DagError::NoSuchChild { parent, child } => quoted(parent@) + " refers to nonexistent "@
            + quoted(child@),
        DagError::Cycle(id) => "cycle in graph, containing "@ + quoted(id@),
    }
}

/// Appends `s` between double quotes to `out`.
pub fn push_quoted(out: &mut String, s: &str)
    ensures
        final(out)@ == old(out)@ + quoted(s@),
{
    out.append("\"");
    out.append(s);
    out.append("\"");
    proof {
        assert(out@ =~= old(out)@ + quoted(s@));
    }
}

impl DagError<String> {
    /// The error in words.
    pub fn message(&self) -> (m: String)
        ensures
            m@ == dag_error_text(*self),
    {
        match self {
            DagError::DuplicateId(id) => {
                let mut m = String::from_str("duplicate key ");
                push_quoted(&mut m, id.as_str());
                m
            },
            DagError::NoSuchChild { parent, child } => {
                let mut m = String::new();
                push_quoted(&mut m, parent.as_str());
                m.append(" refers to nonexistent ");
                push_quoted(&mut m, child.as_str());
                proof {
                    assert(m@ =~= dag_error_text(*self));
                }
                m
            },
            DagError::Cycle(id) => {
                let mut m = String::from_str("cycle in graph, containing ");
                push_quoted(&mut m, id.as_str());
                m
            },
        }
    }
}

/// Some node of `nodes` has the identifier `id`.
pub open spec fn knows<I: View, G: GraphNode<I>>(nodes: Seq<G>, id: I::V) -> bool {
    exists|i: int| 0 <= i < nodes.len() && (#[trigger] nodes[i]).spec_id() == id
}

/// The index of a node with the identifier `id`.
pub open spec fn index_of<I: View, G: GraphNode<I>>(nodes: Seq<G>, id: I::V) -> int {
    choose|i: int| 0 <= i < nodes.len() && (#[trigger] nodes[i]).spec_id() == id
}

/// No two nodes share an identifier.
pub open spec fn unique_ids<I: View, G: GraphNode<I>>(nodes: Seq<G>) -> bool {
    forall|i: int, j: int|
        0 <= i < j < nodes.len() ==> (#[trigger] nodes[i]).spec_id() != (#[trigger] nodes[j]).spec_id()
}

/// The `k`-th child identifier of node `i`.
pub open spec fn child_id<I: View, G: GraphNode<I>>(nodes: Seq<G>, i: int, k: int) -> I::V {
    nodes[i].spec_child_ids()[k]
}

/// `(i, k)` names a child reference: the `k`-th of node `i`.
pub open spec fn is_child_ref<I: View, G: GraphNode<I>>(nodes: Seq<G>, i: int, k: int) -> bool {
    0 <= i < nodes.len() && 0 <= k < nodes[i].spec_child_ids().len()
}

/// Every child identifier belongs to some node.
pub open spec fn children_known<I: View, G: GraphNode<I>>(nodes: Seq<G>) -> bool {
    forall|i: int, k: int|
        is_child_ref(nodes, i, k) ==> knows(nodes, #[trigger] child_id(nodes, i, k))
}

/// The graph that the nodes describe: row `i` holds the indices of the
/// children of node `i`, in declaration order.
pub open spec fn adjacency<I: View, G: GraphNode<I>>(nodes: Seq<G>) -> Seq<Seq<usize>> {
    Seq::new(
        nodes.len(),
        |i: int|
            Seq::new(
                nodes[i].spec_child_ids().len(),
                |k: int| index_of(nodes, child_id(nodes, i, k)) as usize,
            ),
    )
}

/// The nodes form a DAG: identifiers are unique, every child identifier
/// resolves, and no node lies on a cycle.
pub open spec fn valid_nodes<I: View, G: GraphNode<I>>(nodes: Seq<G>) -> bool {
    &&& unique_ids(nodes)
    &&& children_known(nodes)
    &&& acyclic(adjacency(nodes))
}

/// `id` is the identifier of the first node that repeats an earlier one.
pub open spec fn first_duplicate<I: View, G: GraphNode<I>>(nodes: Seq<G>, id: I::V) -> bool {
    exists|j: int|
        0 <= j < nodes.len() && (#[trigger] nodes[j]).spec_id() == id && unique_ids(nodes.take(j))
            && knows(nodes.take(j), id)
}

/// The child reference `(i, k)` comes before `(i2, k2)` in declaration
/// order.
pub open spec fn ref_before(i: int, k: int, i2: int, k2: int) -> bool {
    i < i2 || (i == i2 && k < k2)
}

/// `child` is the first child identifier, in declaration order, that no
/// node has, and `parent` is the node that names it.
pub open spec fn first_unknown_child<I: View, G: GraphNode<I>>(
    nodes: Seq<G>,
    parent: I::V,
    child: I::V,
) -> bool {
    exists|i: int, k: int|
        {
            &&& is_child_ref(nodes, i, k)
            &&& nodes[i].spec_id() == parent
            &&& #[trigger] child_id(nodes, i, k) == child
            &&& !knows(nodes, child)
            &&& forall|i2: int, k2: int|
                is_child_ref(nodes, i2, k2) && ref_before(i2, k2, i, k) ==> knows(
                    nodes,
                    #[trigger] child_id(nodes, i2, k2),
                )
        }
}

/// `id` is the identifier of a node that lies on a cycle.
pub open spec fn names_cycle<I: View, G: GraphNode<I>>(nodes: Seq<G>, id: I::V) -> bool {
    exists|v: usize|
        v < nodes.len() && #[trigger] on_cycle(adjacency(nodes), v) && nodes[v as int].spec_id()
            == id
}

/// `id` is the identifier of the node that the search for a cycle reports:
/// the node at which the depth-first search from the lowest-numbered
/// unexplored node, children in declaration order, first meets its own
/// path.
pub open spec fn reports_cycle<I: View, G: GraphNode<I>>(nodes: Seq<G>, id: I::V) -> bool {
    match first_cycle_node(adjacency(nodes)) {
        Some(v) => v < nodes.len() && nodes[v as int].spec_id() == id,
        None => false,
    }
}

/// With unique identifiers, the node found for an identifier is the one
/// that `index_of` names.
pub proof fn lemma_index_of<I: View, G: GraphNode<I>>(nodes: Seq<G>, i: int)
    requires
        unique_ids(nodes),
        0 <= i < nodes.len(),
    ensures
        index_of(nodes, nodes[i].spec_id()) == i,
{
    let j = index_of(nodes, nodes[i].spec_id());
    assert(nodes[i].spec_id() == nodes[i].spec_id());
    if j < i {
        assert(nodes[j].spec_id() != nodes[i].spec_id());
    }
    if i < j {
        assert(nodes[i].spec_id() != nodes[j].spec_id());
    }
}

/// The nodes of `nodes` in the order `perm`: the node at position `j` is
/// the one that stood at `perm[j]`.
pub open spec fn reordered<G>(nodes: Seq<G>, perm: Seq<usize>) -> Seq<G> {
    Seq::new(perm.len(), |j: int| nodes[perm[j] as int])
}

/// `perm` maps the graph of `moved` onto the graph of `nodes`: it carries
/// each node to a node with the same children, edge by edge.
pub open spec fn isomorphic_by<I: View, G: GraphNode<I>>(
    nodes: Seq<G>,
    moved: Seq<G>,
    perm: Seq<usize>,
) -> bool {
    &&& is_permutation(perm, nodes.len())
    &&& moved.len() == nodes.len()
    &&& forall|j: int| 0 <= j < moved.len() ==> #[trigger] moved[j] == nodes[perm[j] as int]
    &&& forall|j: int, k: int|
        is_child_ref(moved, j, k) ==> adjacency(moved)[j][k] < moved.len()
            && perm[(#[trigger] adjacency(moved)[j][k]) as int] == adjacency(
            nodes,
        )[perm[j] as int][k]
}

/// Valid nodes stay valid in any order, and the graph they describe stays
/// the same up to the renumbering of its nodes.
pub proof fn lemma_reordered_valid<I: View, G: GraphNode<I>>(nodes: Seq<G>, perm: Seq<usize>)
    requires
        valid_nodes(nodes),
        is_permutation(perm, nodes.len()),
        nodes.len() <= usize::MAX,
    ensures
        valid_nodes(reordered(nodes, perm)),
        isomorphic_by(nodes, reordered(nodes, perm), perm),
{
    let moved = reordered(nodes, perm);
    let n = nodes.len();
    let adj = adjacency(nodes);
    let adj2 = adjacency(moved);
    assert forall|a: int, b: int| 0 <= a < b < moved.len() implies (#[trigger] moved[a]).spec_id()
        != (#[trigger] moved[b]).spec_id() by {
        let x = perm[a] as int;
        let y = perm[b] as int;
        assert(perm[a] != perm[b]);
        if x < y {
            assert(nodes[x].spec_id() != nodes[y].spec_id());
        } else {
            assert(nodes[y].spec_id() != nodes[x].spec_id());
        }
    }
    assert forall|j: int, k: int| is_child_ref(moved, j, k) implies knows(
        moved,
        #[trigger] child_id(moved, j, k),
    ) && adj2[j][k] < moved.len() && perm[adj2[j][k] as int] == adj[perm[j] as int][k] by {
        let c = child_id(moved, j, k);
        let src = perm[j] as int;
        assert(is_child_ref(nodes, src, k));
        assert(knows(nodes, child_id(nodes, src, k)));
        let w = index_of(nodes, c);
        lemma_permutation_covers(perm, n, w as usize);
        let at = choose|at: int| 0 <= at < perm.len() && perm[at] == w as usize;
        assert(moved[at].spec_id() == c);
        lemma_index_of(moved, at);
    }
    assert(well_formed(adj2)) by {
        assert forall|j: int, k: int| 0 <= j < adj2.len() && 0 <= k < adj2[j].len() implies (
        #[trigger] adj2[j][k]) < adj2.len() by {
            assert(is_child_ref(moved, j, k));
            assert(knows(moved, child_id(moved, j, k)));
        }
    }
    assert forall|v: usize| !on_cycle(adj2, v) by {
        if on_cycle(adj2, v) {
            let p = choose|p: Seq<usize>|
                is_path(adj2, p) && p.len() >= 2 && p.first() == v && p.last() == v;
            let q = Seq::new(p.len(), |i: int| perm[p[i] as int]);
            assert forall|i: int| 0 <= i < p.len() implies (#[trigger] p[i]) < n by {
                lemma_path_in_range(adj2, p, i);
            }
            assert forall|i: int| 0 <= i < q.len() - 1 implies has_edge(
                adj,
                #[trigger] q[i],
                q[i + 1],
            ) by {
                let a = p[i];
                let b = p[i + 1];
                assert(has_edge(adj2, a, b));
                let k = choose|k: int| 0 <= k < adj2[a as int].len() && adj2[a as int][k] == b;
                assert(is_child_ref(moved, a as int, k));
                assert(knows(moved, child_id(moved, a as int, k)));
                assert(adj[perm[a as int] as int][k] == perm[b as int]);
            }
            assert(is_path(adj, q));
            assert(q.first() == perm[v as int] && q.last() == perm[v as int]);
            assert(on_cycle(adj, perm[v as int]));
        }
    }
}

/// Finds the first node with the identifier `id`.
fn find_index<I: View, G: GraphNode<I>>(nodes: &Vec<G>, id: &I) -> (r: Option<usize>)
    ensures
        match r {
            Some(i) => {
                &&& i < nodes.len()
                &&& nodes@[i as int].spec_id() == id@
                &&& forall|j: int| 0 <= j < i ==> (#[trigger] nodes@[j]).spec_id() != id@
            },
            None => !knows(nodes@, id@),
        },
{
    let mut i: usize = 0;
    while i < nodes.len()
        invariant
            i <= nodes.len(),
            forall|j: int| 0 <= j < i ==> (#[trigger] nodes@[j]).spec_id() != id@,
        decreases nodes.len() - i,
    {
        if nodes[i].has_id(id) {
            return Some(i);
        }
        i += 1;
    }
    None
}

/// A directed acyclic graph over nodes of type `G`, which are identified
/// by values of type `I`.
pub struct Dag<I: View, G: GraphNode<I>> {
    nodes: Vec<G>,
    /// `edges[i]` holds the indices of the children of node `i`.
    edges: Vec<Vec<usize>>,
    /// The indices of the nodes that are nobody's child, ascending.
    root_idxs: Vec<usize>,
    _id: PhantomData<I>,
}

impl<I: View, G: GraphNode<I>> View for Dag<I, G> {
    type V = Seq<G>;

    /// The nodes, in the order in which they were given.
    closed spec fn view(&self) -> Seq<G> {
        self.nodes@
    }
}

/// What construction from `nodes` may return: the DAG of these nodes, or
/// the first fault in the order duplicate identifier, unknown child, cycle.
/// A cycle is named by the node at which the search for it first meets its
/// own path.
pub open spec fn built<I: View, G: GraphNode<I>>(
    nodes: Seq<G>,
    r: Result<Dag<I, G>, DagError<I>>,
) -> bool {
    match r {
        Ok(dag) => dag.wf() && dag@ == nodes && valid_nodes(nodes),
        Err(DagError::DuplicateId(id)) => first_duplicate(nodes, id@),
        Err(DagError::NoSuchChild { parent, child }) => unique_ids(nodes) && first_unknown_child(
            nodes,
            parent@,
            child@,
        ),
        Err(DagError::Cycle(id)) => {
            &&& unique_ids(nodes)
            &&& children_known(nodes)
            &&& names_cycle(nodes, id@)
            &&& reports_cycle(nodes, id@)
        },
    }
}

/// What adding `node` to the nodes `old` of a DAG may return, said of
/// `node` alone: it is added when its identifier is new and its children
/// are among `old`.
pub open spec fn added<I: View, G: GraphNode<I>>(
    old: Seq<G>,
    node: G,
    r: Result<Dag<I, G>, DagError<I>>,
) -> bool {
    match r {
        Ok(_) => {
            &&& !knows(old, node.spec_id())
            &&& forall|k: int|
                0 <= k < node.spec_child_ids().len() ==> knows(
                    old,
                    #[trigger] node.spec_child_ids()[k],
                )
        },
        Err(DagError::DuplicateId(id)) => knows(old, node.spec_id()) && id@ == node.spec_id(),
        Err(DagError::NoSuchChild { parent, child }) => {
            &&& !knows(old, node.spec_id())
            &&& parent@ == node.spec_id()
            &&& node.spec_child_ids().contains(child@)
            &&& !knows(old, child@)
            &&& child@ != node.spec_id()
        },
        Err(DagError::Cycle(id)) => {
            &&& !knows(old, node.spec_id())
            &&& id@ == node.spec_id()
            &&& node.spec_child_ids().contains(node.spec_id())
        },
    }
}

/// Construction succeeds exactly on valid nodes, and each error names a
/// fault that the nodes have.
pub proof fn lemma_built_exact<I: View, G: GraphNode<I>>(
    nodes: Seq<G>,
    r: Result<Dag<I, G>, DagError<I>>,
)
    requires
        built(nodes, r),
    ensures
        r is Ok <==> valid_nodes(nodes),
        r is Err && r->Err_0 is DuplicateId ==> !unique_ids(nodes),
        r is Err && r->Err_0 is NoSuchChild ==> !children_known(nodes),
        r is Err && r->Err_0 is Cycle ==> !acyclic(adjacency(nodes)),
{
    match r {
        Ok(dag) => {},
        Err(DagError::DuplicateId(id)) => {
            let j = choose|j: int|
                0 <= j < nodes.len() && (#[trigger] nodes[j]).spec_id() == id@ && unique_ids(
                    nodes.take(j),
                ) && knows(nodes.take(j), id@);
            let front = nodes.take(j);
            let i = choose|i: int| 0 <= i < front.len() && (#[trigger] front[i]).spec_id() == id@;
            assert(front[i] == nodes[i]);
            assert(nodes[i].spec_id() == nodes[j].spec_id());
        },
        Err(DagError::NoSuchChild { parent, child }) => {
            let (i, k) = choose|i: int, k: int|
                is_child_ref(nodes, i, k) && #[trigger] child_id(nodes, i, k) == child@ && !knows(
                    nodes,
                    child@,
                );
            assert(!knows(nodes, child_id(nodes, i, k)));
        },
        Err(DagError::Cycle(id)) => {
            let v = choose|v: usize|
                v < nodes.len() && #[trigger] on_cycle(adjacency(nodes), v)
                    && nodes[v as int].spec_id() == id@;
            assert(on_cycle(adjacency(nodes), v));
        },
    }
}

impl<I: View, G: GraphNode<I>> Dag<I, G> {
    /// The invariant of a `Dag`: its nodes are valid, and its stored edges
    /// and roots are those that the nodes describe.
    pub closed spec fn wf(&self) -> bool {
        &&& self.edges@.len() == self.nodes@.len()
        &&& unique_ids(self.nodes@)
        &&& children_known(self.nodes@)
        &&& adj_of(&self.edges) == adjacency(self.nodes@)
        &&& is_dag(adj_of(&self.edges))
        &&& is_root_seq(adj_of(&self.edges), self.root_idxs@)
    }

    /// The indices of the nodes that no edge leads to, in ascending order.
    pub closed spec fn roots(&self) -> Seq<usize> {
        self.root_idxs@
    }

    /// The indices of the nodes in the order in which `bottom_up` yields
    /// them: depth-first post-order from each root in turn.
    pub open spec fn bottom_up_order(&self) -> Seq<usize> {
        post_order(adjacency(self@), self.roots())
    }

    /// The indices of the nodes in the order in which `top_down_from` yields
    /// them when started at node `v`: every node after all of its parents,
    /// and the children of a node in declaration order wherever that
    /// leaves the choice. It is the reverse of the depth-first post-order
    /// from `v` that takes the children of each node last-declared first.
    pub open spec fn top_down_order(&self, v: usize) -> Seq<usize> {
        post_order(mirrored(adjacency(self@)), seq![v]).reverse()
    }

    /// A well-formed `Dag` has valid nodes, a graph with a topological
    /// rank, and the roots of that graph.
    pub proof fn lemma_wf(&self)
        requires
            self.wf(),
        ensures
            valid_nodes(self@),
            is_dag(adjacency(self@)),
            is_root_seq(adjacency(self@), self.roots()),
            self@.len() <= usize::MAX,
    {
        lemma_dag_is_acyclic(adjacency(self@));
        assert(self.nodes@.len() == self.nodes.len());
    }

    /// The identifier of the `k`-th child of the node at position `p` of
    /// `order` is that of a node at an earlier position.
    pub open spec fn child_comes_before(&self, order: Seq<usize>, p: int, k: int) -> bool {
        exists|q: int|
            0 <= q < p && (#[trigger] order[q]) < self@.len() && self@[order[q] as int].spec_id()
                == child_id(self@, order[p] as int, k)
    }

    /// The identifier of the `k`-th child of the node at position `p` of
    /// `order` is that of a node at a later position.
    pub open spec fn child_comes_after(&self, order: Seq<usize>, p: int, k: int) -> bool {
        exists|q: int|
            p < q < order.len() && (#[trigger] order[q]) < self@.len()
                && self@[order[q] as int].spec_id() == child_id(self@, order[p] as int, k)
    }

    /// The children-first walk yields every node exactly once, and every
    /// child of a node before the node itself.
    pub proof fn lemma_bottom_up(&self)
        requires
            self.wf(),
        ensures
            self.bottom_up_order().len() == self@.len(),
            self.bottom_up_order().no_duplicates(),
            forall|x: usize| x < self@.len() ==> #[trigger] self.bottom_up_order().contains(x),
            forall|p: int|
                0 <= p < self.bottom_up_order().len() ==> (#[trigger] self.bottom_up_order()[p])
                    < self@.len(),
            forall|p: int, k: int|
                0 <= p < self.bottom_up_order().len() && is_child_ref(
                    self@,
                    self.bottom_up_order()[p] as int,
                    k,
                ) ==> #[trigger] self.child_comes_before(self.bottom_up_order(), p, k),
    {
        self.lemma_wf();
        let adj = adjacency(self@);
        let order = self.bottom_up_order();
        lemma_post_order_of_roots(adj, self.roots());
        assert forall|p: int, k: int|
            0 <= p < order.len() && is_child_ref(self@, order[p] as int, k) implies #[trigger] self.child_comes_before(
            order,
            p,
            k,
        ) by {
            self.lemma_child_position(order, p, k);
            let c = adj[order[p] as int][k];
            assert(stands_before(order, p, c));
            let q = choose|q: int| 0 <= q < p && q < order.len() && order[q] == c;
            assert(order[q] < self@.len());
        }
    }

    /// The index that the graph holds for a child is that of a node with
    /// the child's identifier.
    proof fn lemma_child_position(&self, order: Seq<usize>, p: int, k: int)
        requires
            self.wf(),
            0 <= p < order.len(),
            is_child_ref(self@, order[p] as int, k),
        ensures
            0 <= k < adjacency(self@)[order[p] as int].len(),
            adjacency(self@)[order[p] as int][k] < self@.len(),
            self@[adjacency(self@)[order[p] as int][k] as int].spec_id() == child_id(
                self@,
                order[p] as int,
                k,
            ),
    {
        self.lemma_wf();
        let c = child_id(self@, order[p] as int, k);
        assert(knows(self@, c));
        let at = index_of(self@, c);
        assert(0 <= at < self@.len() && self@[at].spec_id() == c);
        assert(adjacency(self@)[order[p] as int][k] == at as usize);
    }

    /// The parents-first walk from node `v` yields exactly the nodes that
    /// can be reached from `v`, each once, `v` first, and every child of a
    /// node after the node itself.
    pub proof fn lemma_top_down(&self, v: usize)
        requires
            self.wf(),
            v < self@.len(),
        ensures
            self.top_down_order(v).no_duplicates(),
            forall|x: usize| #[trigger]
                self.top_down_order(v).contains(x) <==> reaches(adjacency(self@), v, x),
            forall|p: int|
                0 <= p < self.top_down_order(v).len() ==> (#[trigger] self.top_down_order(v)[p])
                    < self@.len(),
            self.top_down_order(v).len() > 0,
            self.top_down_order(v)[0] == v,
            forall|p: int, k: int|
                0 <= p < self.top_down_order(v).len() && is_child_ref(
                    self@,
                    self.top_down_order(v)[p] as int,
                    k,
                ) ==> #[trigger] self.child_comes_after(self.top_down_order(v), p, k),
    {
        self.lemma_wf();
        let adj = adjacency(self@);
        let back = mirrored(adj);
        let post = post_order(back, seq![v]);
        let order = self.top_down_order(v);
        let n = post.len() as int;
        lemma_mirrored(adj);
        lemma_post_order_of_node(back, v);
        assert(order.len() == n);
        assert forall|x: usize| #[trigger] post.contains(x) <==> reaches(adj, v, x) by {
            assert(post.contains(x) <==> reaches(back, v, x));
        }
        assert forall|i: int| 0 <= i < n implies #[trigger] order[i] == post[n - 1 - i] by {}
        assert forall|i: int, j: int| 0 <= i < n && 0 <= j < n && i != j implies order[i]
            != order[j] by {
            assert(post[n - 1 - i] != post[n - 1 - j]);
        }
        assert forall|x: usize| #[trigger] order.contains(x) <==> post.contains(x) by {
            if order.contains(x) {
                let i = choose|i: int| 0 <= i < order.len() && order[i] == x;
                assert(post[n - 1 - i] == x);
            }
            if post.contains(x) {
                let i = choose|i: int| 0 <= i < post.len() && post[i] == x;
                assert(order[n - 1 - i] == x);
            }
        }
        crate::graph::lemma_reach_self(adj, v);
        assert(post.contains(v));
        assert(crate::graph::visit(back, v, Seq::<usize>::empty(), back.len()).last() == v) by {
            assert(!Seq::<usize>::empty().contains(v));
        }
        assert(post == crate::graph::visit(back, v, Seq::<usize>::empty(), back.len())) by {
            let starts = seq![v];
            assert(starts.last() == v);
            assert(starts.drop_last() =~= Seq::<usize>::empty());
            assert(crate::graph::visit_all(
                back,
                starts.drop_last(),
                Seq::<usize>::empty(),
                back.len(),
            ) =~= Seq::<usize>::empty());
        }
        assert forall|p: int, k: int|
            0 <= p < order.len() && is_child_ref(self@, order[p] as int, k) implies #[trigger] self.child_comes_after(
            order,
            p,
            k,
        ) by {
            self.lemma_child_position(order, p, k);
            let c = adj[order[p] as int][k];
            let pp = n - 1 - p;
            assert(post[pp] == order[p]);
            let row = adj[order[p] as int];
            let kk = row.len() - 1 - k;
            assert(back[post[pp] as int][kk] == c);
            assert(stands_before(post, pp, back[post[pp] as int][kk]));
            let q = choose|q: int| 0 <= q < pp && q < post.len() && post[q] == c;
            let qq = n - 1 - q;
            assert(order[qq] == c);
        }
    }

    /// The nodes in the reverse of the order of the children-first walk
    /// are again valid nodes, so `new` builds a DAG from them, and that
    /// DAG is this one up to the renumbering of its nodes.
    pub proof fn lemma_rebuild_from_bottom_up(&self)
        requires
            self.wf(),
        ensures
            valid_nodes(reordered(self@, self.bottom_up_order().reverse())),
            isomorphic_by(
                self@,
                reordered(self@, self.bottom_up_order().reverse()),
                self.bottom_up_order().reverse(),
            ),
    {
        self.lemma_wf();
        self.lemma_bottom_up();
        let order = self.bottom_up_order();
        let back = order.reverse();
        let n = order.len() as int;
        assert forall|i: int| 0 <= i < n implies #[trigger] back[i] == order[n - 1 - i] by {}
        assert forall|i: int, j: int| 0 <= i < n && 0 <= j < n && i != j implies back[i]
            != back[j] by {
            assert(order[n - 1 - i] != order[n - 1 - j]);
        }
        assert(all_below(back, self@.len())) by {
            assert forall|i: int| 0 <= i < back.len() implies (#[trigger] back[i]) < self@.len() by {
                assert(order[n - 1 - i] < self@.len());
            }
        }
        lemma_reordered_valid(self@, back);
    }

    /// The graph without nodes.
    pub fn empty() -> (dag: Self)
        ensures
            dag.wf(),
            dag@ == Seq::<G>::empty(),
    {
        let dag = Dag { nodes: Vec::new(), edges: Vec::new(), root_idxs: Vec::new(), _id: PhantomData };
        proof {
            assert(adj_of(&dag.edges) =~= adjacency(dag.nodes@));
            assert(ranked(adj_of(&dag.edges), Seq::<int>::empty()));
            assert forall|x: usize| #[trigger]
                dag.root_idxs@.contains(x) <==> x < adj_of(&dag.edges).len() && !has_parent(
                    adj_of(&dag.edges),
                    x,
                ) by {}
        }
        dag
    }

    /// The number of nodes.
    pub fn len(&self) -> (n: usize)
        ensures
            n == self@.len(),
    {
        self.nodes.len()
    }

    /// The nodes, in the order in which they were given.
    pub fn nodes(&self) -> (r: &Vec<G>)
        ensures
            r@ == self@,
    {
        &self.nodes
    }

    /// The node with the identifier `id`, if there is one.
    pub fn node(&self, id: &I) -> (r: Option<&G>)
        requires
            self.wf(),
        ensures
            match r {
                Some(g) => knows(self@, id@) && *g == self@[index_of(self@, id@)],
                None => !knows(self@, id@),
            },
    {
        match find_index(&self.nodes, id) {
            Some(i) => {
                proof {
                    lemma_index_of(self.nodes@, i as int);
                }
                Some(&self.nodes[i])
            },
            None => None,
        }
    }

    /// Builds the DAG of `nodes`, or reports the first fault: a duplicate
    /// identifier, else a child identifier that no node has, else a cycle,
    /// named by the node at which the search for it first meets its own
    /// path.
    pub fn new(nodes: Vec<G>) -> (r: Result<Self, DagError<I>>)
        ensures
            built(nodes@, r),
    {
        let n = nodes.len();
        let mut j: usize = 0;
        while j < n
            invariant
                n == nodes.len(),
                j <= n,
                unique_ids(nodes@.take(j as int)),
            decreases n - j,
        {
            let id = nodes[j].id();
            let found = find_index(&nodes, &id);
            proof {
                assert(nodes@[j as int].spec_id() == id@);
            }
            match found {
                Some(i) => {
                    if i != j {
                        proof {
                            assert(i < j);
                            assert(nodes@.take(j as int)[i as int] == nodes@[i as int]);
                        }
                        return Err(DagError::DuplicateId(id));
                    }
                },
                None => {},
            }
            proof {
                let front = nodes@.take(j as int);
                let next = nodes@.take(j + 1);
                assert forall|a: int, b: int| 0 <= a < b < next.len() implies (
                #[trigger] next[a]).spec_id() != (#[trigger] next[b]).spec_id() by {
                    assert(next[a] == nodes@[a]);
                    assert(next[b] == nodes@[b]);
                    if b < j {
                        assert(front[a] == nodes@[a]);
                        assert(front[b] == nodes@[b]);
                    }
                }
            }
            j += 1;
        }
        proof {
            assert(nodes@.take(n as int) =~= nodes@);
        }
        let mut edges: Vec<Vec<usize>> = Vec::new();
        let mut i: usize = 0;
        while i < n
            invariant
                n == nodes.len(),
                i <= n,
                unique_ids(nodes@),
                edges.len() == i,
                forall|a: int| 0 <= a < i ==> (#[trigger] edges@[a])@ == adjacency(nodes@)[a],
                forall|a: int, k: int|
                    0 <= a < i && 0 <= k < edges@[a]@.len() ==> (#[trigger] edges@[a]@[k]) < n,
                forall|a: int, k: int|
                    is_child_ref(nodes@, a, k) && a < i ==> knows(
                        nodes@,
                        #[trigger] child_id(nodes@, a, k),
                    ),
            decreases n - i,
        {
            let mut kids = nodes[i].child_ids();
            let mut row: Vec<usize> = Vec::new();
            let mut k: usize = 0;
            while k < kids.len()
                invariant
                    n == nodes.len(),
                    i < n,
                    unique_ids(nodes@),
                    k <= kids.len(),
                    row.len() == k,
                    kids@.len() == nodes@[i as int].spec_child_ids().len(),
                    forall|q: int|
                        0 <= q < kids@.len() ==> (#[trigger] kids@[q])@ == child_id(
                            nodes@,
                            i as int,
                            q,
                        ),
                    forall|q: int|
                        0 <= q < k ==> (#[trigger] row@[q]) < n && row@[q] == index_of(
                            nodes@,
                            child_id(nodes@, i as int, q),
                        ) as usize,
                    forall|q: int|
                        0 <= q < k ==> knows(nodes@, #[trigger] child_id(nodes@, i as int, q)),
                    forall|a: int, q: int|
                        is_child_ref(nodes@, a, q) && a < i ==> knows(
                            nodes@,
                            #[trigger] child_id(nodes@, a, q),
                        ),
                decreases kids.len() - k,
            {
                match find_index(&nodes, &kids[k]) {
                    Some(c) => {
                        proof {
                            lemma_index_of(nodes@, c as int);
                        }
                        row.push(c);
                    },
                    None => {
                        let ghost named = kids@[k as int];
                        let child = kids.remove(k);
                        let parent = nodes[i].id();
                        proof {
                            assert(child == named);
                            assert(child@ == child_id(nodes@, i as int, k as int));
                            assert(is_child_ref(nodes@, i as int, k as int));
                            assert forall|i2: int, k2: int|
                                is_child_ref(nodes@, i2, k2) && ref_before(
                                    i2,
                                    k2,
                                    i as int,
                                    k as int,
                                ) implies knows(nodes@, #[trigger] child_id(nodes@, i2, k2)) by {}
                            assert(first_unknown_child(nodes@, parent@, child@));
                        }
                        return Err(DagError::NoSuchChild { parent, child });
                    },
                }
                k += 1;
            }
            proof {
                assert(row@ =~= adjacency(nodes@)[i as int]);
            }
            edges.push(row);
            i += 1;
        }
        proof {
            assert(adj_of(&edges) =~= adjacency(nodes@));
            assert(well_formed(adj_of(&edges))) by {
                assert forall|a: int, k: int|
                    0 <= a < adj_of(&edges).len() && 0 <= k < adj_of(&edges)[a].len() implies (
                #[trigger] adj_of(&edges)[a][k]) < adj_of(&edges).len() by {
                    assert(edges@[a]@[k] < n);
                }
            }
        }
        match find_cycle(&edges) {
            Some(w) => {
                let id = nodes[w].id();
                return Err(DagError::Cycle(id));
            },
            None => {},
        }
        let root_idxs = find_roots(&edges);
        proof {
            lemma_dag_is_acyclic(adj_of(&edges));
        }
        Ok(Dag { nodes, edges, root_idxs, _id: PhantomData })
    }

    /// Adds `node` after the nodes of this DAG. The result is what `new`
    /// returns for those nodes followed by `node`.
    pub fn with_node(self, node: G) -> (r: Result<Self, DagError<I>>)
        requires
            self.wf(),
        ensures
            built(self@.push(node), r),
            added(self@, node, r),
    {
        let mut dag = self;
        let ghost old_nodes = dag.nodes@;
        let ghost all = old_nodes.push(node);
        let ghost old_adj = adj_of(&dag.edges);
        let n = dag.nodes.len();
        let id = node.id();
        proof {
            assert(all.take(n as int) =~= old_nodes);
            assert(all[n as int] == node);
            assert forall|a: int| 0 <= a < n implies #[trigger] all[a] == old_nodes[a] by {}
        }
        if let Some(_) = find_index(&dag.nodes, &id) {
            return Err(DagError::DuplicateId(id));
        }
        proof {
            assert forall|a: int, b: int| 0 <= a < b < all.len() implies (#[trigger] all[a]).spec_id()
                != (#[trigger] all[b]).spec_id() by {
                assert(all[a] == old_nodes[a]);
                if b < n {
                    assert(all[b] == old_nodes[b]);
                }
            }
        }
        let mut kids = node.child_ids();
        let mut row: Vec<usize> = Vec::new();
        let mut loops = false;
        let mut k: usize = 0;
        while k < kids.len()
            invariant
                n == old_nodes.len(),
                all == old_nodes.push(node),
                dag.nodes@ == old_nodes,
                self@ == old_nodes,
                id@ == node.spec_id(),
                !knows(old_nodes, node.spec_id()),
                unique_ids(all),
                children_known(old_nodes),
                k <= kids.len(),
                row.len() == k,
                kids@.len() == node.spec_child_ids().len(),
                forall|q: int| 0 <= q < kids@.len() ==> (#[trigger] kids@[q])@ == child_id(all, n as int, q),
                forall|q: int|
                    0 <= q < k ==> (#[trigger] row@[q]) <= n && row@[q] == index_of(
                        all,
                        child_id(all, n as int, q),
                    ) as usize,
                forall|q: int| 0 <= q < k ==> knows(all, #[trigger] child_id(all, n as int, q)),
                forall|q: int|
                    0 <= q < k && (#[trigger] row@[q]) < n ==> knows(
                        old_nodes,
                        child_id(all, n as int, q),
                    ),
                loops <==> exists|q: int| 0 <= q < k && #[trigger] row@[q] == n,
            decreases kids.len() - k,
        {
            let ghost before = row@;
            let found = find_index(&dag.nodes, &kids[k]);
            match found {
                Some(c) => {
                    proof {
                        assert(all[c as int] == old_nodes[c as int]);
                        lemma_index_of(all, c as int);
                    }
                    row.push(c);
                },
                None => {
                    if node.has_id(&kids[k]) {
                        proof {
                            lemma_index_of(all, n as int);
                        }
                        row.push(n);
                        loops = true;
                    } else {
                        let ghost named = kids@[k as int];
                        let child = kids.remove(k);
                        proof {
                            assert(child == named);
                            assert(is_child_ref(all, n as int, k as int));
                            assert(child@ == child_id(all, n as int, k as int));
                            assert(node.spec_child_ids()[k as int] == child@);
                            assert(!knows(all, child@)) by {
                                if knows(all, child@) {
                                    let w = choose|w: int|
                                        0 <= w < all.len() && (#[trigger] all[w]).spec_id()
                                            == child@;
                                    if w < n {
                                        assert(old_nodes[w].spec_id() == child@);
                                    }
                                }
                            }
                            assert forall|i2: int, k2: int|
                                is_child_ref(all, i2, k2) && ref_before(
                                    i2,
                                    k2,
                                    n as int,
                                    k as int,
                                ) implies knows(all, #[trigger] child_id(all, i2, k2)) by {
                                if i2 < n {
                                    assert(all[i2] == old_nodes[i2]);
                                    assert(is_child_ref(old_nodes, i2, k2));
                                    let c = child_id(old_nodes, i2, k2);
                                    assert(knows(old_nodes, c));
                                    let w = choose|w: int|
                                        0 <= w < old_nodes.len() && (
                                        #[trigger] old_nodes[w]).spec_id() == c;
                                    assert(all[w].spec_id() == c);
                                }
                            }
                            assert(first_unknown_child(all, id@, child@));
                        }
                        return Err(DagError::NoSuchChild { parent: id, child });
                    }
                },
            }
            proof {
                assert forall|q: int| 0 <= q < k + 1 implies knows(
                    all,
                    #[trigger] child_id(all, n as int, q),
                ) by {
                    if q == k {
                        let c = row@[k as int];
                        assert(all[c as int].spec_id() == child_id(all, n as int, q));
                    }
                }
                if loops {
                    if row@[k as int] != n {
                        let q = choose|q: int| 0 <= q < k && #[trigger] before[q] == n;
                        assert(row@[q] == before[q]);
                    }
                }
                if exists|q: int| 0 <= q < k + 1 && #[trigger] row@[q] == n {
                    let q = choose|q: int| 0 <= q < k + 1 && #[trigger] row@[q] == n;
                    if q < k {
                        assert(before[q] == row@[q]);
                    }
                }
            }
            k += 1;
        }
        let ghost new_adj = old_adj.push(row@);
        proof {
            assert forall|i2: int, k2: int| is_child_ref(all, i2, k2) implies knows(
                all,
                #[trigger] child_id(all, i2, k2),
            ) by {
                if i2 < n {
                    assert(all[i2] == old_nodes[i2]);
                    assert(is_child_ref(old_nodes, i2, k2));
                    let c = child_id(old_nodes, i2, k2);
                    assert(knows(old_nodes, c));
                    let w = choose|w: int|
                        0 <= w < old_nodes.len() && (#[trigger] old_nodes[w]).spec_id() == c;
                    assert(all[w].spec_id() == c);
                }
            }
            assert(new_adj =~= adjacency(all)) by {
                assert forall|a: int| 0 <= a < new_adj.len() implies #[trigger] new_adj[a]
                    =~= adjacency(all)[a] by {
                    if a < n {
                        assert(all[a] == old_nodes[a]);
                        assert(new_adj[a] == adjacency(old_nodes)[a]);
                        assert forall|q: int| 0 <= q < new_adj[a].len() implies new_adj[a][q]
                            == adjacency(all)[a][q] by {
                            let c = child_id(old_nodes, a, q);
                            assert(is_child_ref(old_nodes, a, q));
                            assert(knows(old_nodes, c));
                            let w = index_of(old_nodes, c);
                            assert(all[w] == old_nodes[w]);
                            lemma_index_of(all, w);
                        }
                    }
                }
            }
        }
        if loops {
            proof {
                let q = choose|q: int| 0 <= q < k && #[trigger] row@[q] == n;
                lemma_index_of(all, n as int);
                assert(knows(all, child_id(all, n as int, q)));
                let at = index_of(all, child_id(all, n as int, q));
                assert(at == n);
                assert(node.spec_child_ids()[q] == node.spec_id());
                let p = seq![n, n];
                assert(adjacency(all)[n as int][q] == n);
                assert(has_edge(adjacency(all), n, n));
                assert(is_path(adjacency(all), p));
                assert(p.first() == n && p.last() == n);
                assert(on_cycle(adjacency(all), n));
                lemma_self_loop_is_reported(old_adj, row@, n);
            }
            return Err(DagError::Cycle(id));
        }
        proof {
            assert(all_below(row@, n as nat)) by {
                assert forall|q: int| 0 <= q < row@.len() implies (#[trigger] row@[q]) < n by {
                    assert(row@[q] <= n);
                }
            }
            lemma_push_row_dag(old_adj, row@);
            lemma_dag_is_acyclic(new_adj);
            assert forall|q: int| 0 <= q < node.spec_child_ids().len() implies knows(
                old_nodes,
                #[trigger] node.spec_child_ids()[q],
            ) by {
                assert(row@[q] < n);
                assert(child_id(all, n as int, q) == node.spec_child_ids()[q]);
            }
        }
        let root_idxs = roots_with_row(&dag.root_idxs, &row, n, Ghost(old_adj));
        dag.edges.push(row);
        dag.nodes.push(node);
        dag.root_idxs = root_idxs;
        proof {
            assert(adj_of(&dag.edges) =~= new_adj);
        }
        Ok(dag)
    }

    /// Visits every node once, each after all of its children: depth-first
    /// post-order from each root in turn, children in declaration order.
    pub fn bottom_up(&self) -> (it: BottomUp<'_, I, G>)
        requires
            self.wf(),
        ensures
            it.wf(),
            it.dag() == self,
            it.remaining() == self.bottom_up_order(),
    {
        proof {
            assert(adj_of(&self.edges).len() == self.edges.len());
            assert forall|i: int| 0 <= i < self.root_idxs@.len() implies (
            #[trigger] self.root_idxs@[i]) < self.edges.len() by {
                assert(self.root_idxs@.contains(self.root_idxs@[i]));
            }
        }
        let order = post_order_from(&self.edges, &self.root_idxs);
        proof {
            lemma_post_order_of_roots(adj_of(&self.edges), self.root_idxs@);
            assert(order@.skip(0) =~= order@);
        }
        BottomUp { dag: self, order, next: 0 }
    }

    /// Visits the nodes that can be reached from the node `id`, each once
    /// and before all of its children. `None` if no node has that
    /// identifier.
    pub fn top_down_from(&self, id: &I) -> (r: Option<TopDown<'_, I, G>>)
        requires
            self.wf(),
        ensures
            r is Some <==> knows(self@, id@),
            match r {
                Some(it) => {
                    &&& it.wf()
                    &&& it.dag() == self
                    &&& it.remaining() == self.top_down_order(index_of(self@, id@) as usize)
                },
                None => true,
            },
    {
        match find_index(&self.nodes, id) {
            Some(v) => {
                let mut starts: Vec<usize> = Vec::new();
                starts.push(v);
                let back = mirror(&self.edges);
                proof {
                    lemma_mirrored(adj_of(&self.edges));
                }
                let order = post_order_from(&back, &starts);
                let left = order.len();
                proof {
                    lemma_index_of(self.nodes@, v as int);
                    assert(starts@ =~= seq![v]);
                    lemma_post_order_of_node(adj_of(&back), v);
                    assert(order@.take(left as int) =~= order@);
                }
                Some(TopDown { dag: self, order, left })
            },
            None => None,
        }
    }
}

/// A walk over the nodes of a DAG, children first.
pub struct BottomUp<'a, I: View, G: GraphNode<I>> {
    dag: &'a Dag<I, G>,
    order: Vec<usize>,
    next: usize,
}

impl<'a, I: View, G: GraphNode<I>> BottomUp<'a, I, G> {
    /// The invariant of the walk: it points into the order that it walks,
    /// and the order names nodes of its DAG.
    pub closed spec fn wf(&self) -> bool {
        &&& self.next <= self.order@.len()
        &&& all_below(self.order@, self.dag@.len())
    }

    /// The DAG that is walked.
    pub closed spec fn dag(&self) -> &'a Dag<I, G> {
        self.dag
    }

    /// The indices of the nodes that are still to come, next first.
    pub closed spec fn remaining(&self) -> Seq<usize> {
        self.order@.skip(self.next as int)
    }

    /// The next node of the walk, or `None` when every node has been
    /// yielded.
    pub fn next(&mut self) -> (r: Option<&'a G>)
        requires
            old(self).wf(),
        ensures
            final(self).wf(),
            final(self).dag() == old(self).dag(),
            match r {
                Some(g) => {
                    &&& old(self).remaining().len() > 0
                    &&& old(self).remaining()[0] < old(self).dag()@.len()
                    &&& *g == old(self).dag()@[old(self).remaining()[0] as int]
                    &&& final(self).remaining() == old(self).remaining().drop_first()
                },
                None => old(self).remaining().len() == 0 && final(self).remaining() == old(
                    self,
                ).remaining(),
            },
    {
        if self.next >= self.order.len() {
            return None;
        }
        let v = self.order[self.next];
        let dag: &'a Dag<I, G> = self.dag;
        self.next = self.next + 1;
        proof {
            assert(old(self).remaining()[0] == v);
            assert(self.remaining() =~= old(self).remaining().drop_first());
        }
        Some(&dag.nodes[v])
    }
}

/// A walk over the nodes below one node of a DAG, parents first.
pub struct TopDown<'a, I: View, G: GraphNode<I>> {
    dag: &'a Dag<I, G>,
    /// The nodes in post-order; the walk yields them from the back.
    order: Vec<usize>,
    left: usize,
}

impl<'a, I: View, G: GraphNode<I>> TopDown<'a, I, G> {
    /// The invariant of the walk: it points into the order that it walks,
    /// and the order names nodes of its DAG.
    pub closed spec fn wf(&self) -> bool {
        &&& self.left <= self.order@.len()
        &&& all_below(self.order@, self.dag@.len())
    }

    /// The DAG that is walked.
    pub closed spec fn dag(&self) -> &'a Dag<I, G> {
        self.dag
    }

    /// The indices of the nodes that are still to come, next first.
    pub closed spec fn remaining(&self) -> Seq<usize> {
        self.order@.take(self.left as int).reverse()
    }

    /// The next node of the walk, or `None` when every node has been
    /// yielded.
    pub fn next(&mut self) -> (r: Option<&'a G>)
        requires
            old(self).wf(),
        ensures
            final(self).wf(),
            final(self).dag() == old(self).dag(),
            match r {
                Some(g) => {
                    &&& old(self).remaining().len() > 0
                    &&& old(self).remaining()[0] < old(self).dag()@.len()
                    &&& *g == old(self).dag()@[old(self).remaining()[0] as int]
                    &&& final(self).remaining() == old(self).remaining().drop_first()
                },
                None => old(self).remaining().len() == 0 && final(self).remaining() == old(
                    self,
                ).remaining(),
            },
    {
        if self.left == 0 {
            return None;
        }
        let v = self.order[self.left - 1];
        let dag: &'a Dag<I, G> = self.dag;
        self.left = self.left - 1;
        proof {
            assert(old(self).remaining()[0] == v);
            assert(self.remaining() =~= old(self).remaining().drop_first());
        }
        Some(&dag.nodes[v])
    }
}

} // verus!
