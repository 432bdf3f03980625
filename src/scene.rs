//! The scene graph: an arena of nodes keyed by handles, with parent/child
//! links, a dirty set, and a batch recompute of world transforms.
//!
//! Policies:
//! - Structural operations report bad input: `attach_to_parent`,
//!   `attach_to_root` and `set_model_ref` return a [`SceneError`]. The
//!   per-frame edits `set_transform`, `set_model` and `mark_transform_dirty`
//!   ignore a handle that names no node.
//! - The links never form a cycle (part of [`SceneGraph::wf`], witnessed by a
//!   ghost rank that grows from parent to child): `attach_to_parent` refuses
//!   to attach a node below itself, and never gives the root a parent.
//! - The dirty set is closed under taking children, so marking a node that
//!   is already dirty has nothing left to do below it.
use vstd::prelude::*;
use vstd::set_lib::{lemma_int_range, lemma_len_subset, set_int_range};

verus! {

/// Identifier of a node: its position in the graph's node table. Handles are
/// allocated in increasing order and are never reused within one graph. The
/// index is public so that contracts can name handles; a made-up handle is
/// either rejected or ignored by every operation.
#[derive(Debug, Clone, Copy, PartialEq, Eq, Hash)]
pub struct NodeHandle(pub usize);

/// One node of the hierarchy.
///
/// `parent` and `children` are maintained by the graph and must agree with each
/// other; `world_transform` is derived by [`SceneGraph::update_transforms`].
pub struct SceneNode<T, M, D> {
    pub name: String,
    /// Transform relative to the parent.
    pub transform: T,
    /// Transform relative to the global origin, as of the last recompute.
    pub world_transform: M,
    pub parent: Option<NodeHandle>,
    /// Children in insertion order, without duplicates.
    pub children: Vec<NodeHandle>,
    /// Drawable attached to the node; only stored and handed back.
    pub model: Option<D>,
    /// Placements of the drawable for instanced rendering.
    pub instances: Vec<T>,
    pub visible: bool,
}

impl<T: Copy, M: Copy, D> SceneNode<T, M, D> {
    /// A detached, visible node without drawable, whose local transform and
    /// single instance are `identity_transform` and whose world transform is
    /// `identity_matrix`.
    pub fn new(name: String, identity_transform: T, identity_matrix: M) -> (n: Self)
        ensures
            n.name@ == name@,
            n.transform == identity_transform,
            n.world_transform == identity_matrix,
            n.parent is None,
            n.children@.len() == 0,
            n.model is None,
            n.instances@ == seq![identity_transform],
            n.visible,
    {
        SceneNode {
            name,
            transform: identity_transform,
            world_transform: identity_matrix,
            parent: None,
            children: Vec::new(),
            model: None,
            instances: vec![identity_transform],
            visible: true,
        }
    }

    /// Appends one placement.
    pub fn add_instance(&mut self, instance: T)
        ensures
            final(self).instances@ == old(self).instances@.push(instance),
            final(self).name == old(self).name,
            final(self).transform == old(self).transform,
            final(self).world_transform == old(self).world_transform,
            final(self).parent == old(self).parent,
            final(self).children == old(self).children,
            final(self).model == old(self).model,
            final(self).visible == old(self).visible,
    {
        self.instances.push(instance);
    }

    /// Replaces all placements.
    pub fn set_instances(&mut self, instances: Vec<T>)
        ensures
            final(self).instances@ == instances@,
            final(self).name == old(self).name,
            final(self).transform == old(self).transform,
            final(self).world_transform == old(self).world_transform,
            final(self).parent == old(self).parent,
            final(self).children == old(self).children,
            final(self).model == old(self).model,
            final(self).visible == old(self).visible,
    {
        self.instances = instances;
    }
}

/// Errors of the structural operations.
#[derive(Debug, Clone, Copy, PartialEq, Eq)]
pub enum SceneError {
    /// A handle that does not name a node of this graph.
    InvalidHandle,
    /// The requested parent lies in the subtree of the child, so the link
    /// would close a cycle.
    WouldCreateCycle,
    /// The root never gets a parent.
    RootHasNoParent,
}

/// The hierarchy: a table of nodes indexed by handle, a designated root, and
/// the set of nodes whose world transform may be stale.
pub struct SceneGraph<T, M, D> {
    nodes: Vec<SceneNode<T, M, D>>,
    root: NodeHandle,
    dirty_transforms: Vec<NodeHandle>,
    identity_transform: T,
    identity_matrix: M,
    /// A rank per node that grows along every parent/child link, witnessing
    /// that the links have no cycle.
    ranks: Ghost<Seq<int>>,
}

/// The elements of a list after appending `x`.
proof fn lemma_push_to_set(l: Seq<NodeHandle>, x: NodeHandle)
    ensures
        l.push(x).to_set() == l.to_set().insert(x),
{
    assert forall|y: NodeHandle| l.push(x).to_set().contains(y) <==> l.to_set().insert(x).contains(y) by {
        if l.to_set().contains(y) {
            let i = l.index_of(y);
            assert(l.push(x)[i] == y);
        }
        if l.push(x).contains(y) && y != x {
            let i = l.push(x).index_of(y);
            assert(l[i] == y);
        }
        assert(l.push(x)[l.len() as int] == x);
    }
    assert(l.push(x).to_set() =~= l.to_set().insert(x));
}

/// A sequence of distinct handles that all lie below `n` has at most `n` entries.
pub proof fn lemma_distinct_handles_bounded(s: Seq<NodeHandle>, n: nat)
    requires
        s.no_duplicates(),
        forall|i: int| 0 <= i < s.len() ==> #[trigger] s[i].0 < n,
    ensures
        s.len() <= n,
{
    let ints = s.map_values(|h: NodeHandle| h.0 as int);
    assert forall|i: int, j: int| 0 <= i < ints.len() && 0 <= j < ints.len() && i != j
        implies ints[i] != ints[j] by {
        assert(s[i] != s[j]);
    }
    ints.unique_seq_to_set();
    assert forall|x: int| ints.to_set().contains(x) implies set_int_range(0, n as int).contains(x) by {
        let i = choose|i: int| 0 <= i < ints.len() && ints[i] == x;
        assert(s[i].0 < n);
    }
    lemma_int_range(0, n as int);
    lemma_len_subset(ints.to_set(), set_int_range(0, n as int));
}

impl<T: Copy, M: Copy, D> SceneGraph<T, M, D> {
    // View of the graph and its well-formedness.

    /// The node table, indexed by handle.
    pub closed spec fn nodes(&self) -> Seq<SceneNode<T, M, D>> {
        self.nodes@
    }

    /// The designated root, which never has a parent.
    pub closed spec fn root_handle(&self) -> NodeHandle {
        self.root
    }

    /// The dirty set in insertion order.
    pub closed spec fn dirty_list(&self) -> Seq<NodeHandle> {
        self.dirty_transforms@
    }

    /// Local transform given to new nodes and their default instance.
    pub closed spec fn identity_transform(&self) -> T {
        self.identity_transform
    }

    /// World transform of new nodes, and the implicit parent of the root.
    pub closed spec fn identity_matrix(&self) -> M {
        self.identity_matrix
    }

    /// Rank of each node, indexed by handle: larger for a child than for its
    /// parent.
    pub closed spec fn ranks(&self) -> Seq<int> {
        self.ranks@
    }

    /// No node lies below one of its own children.
    pub open spec fn acyclic(&self) -> bool {
        forall|a: NodeHandle, b: NodeHandle| #[trigger] self.is_child(a, b) ==> !self.descends(b, a)
    }

    /// Nodes whose world transform may be stale.
    pub open spec fn dirty(&self) -> Set<NodeHandle> {
        self.dirty_list().to_set()
    }

    /// `h` names a node of this graph.
    pub open spec fn contains(&self, h: NodeHandle) -> bool {
        h.0 < self.nodes().len()
    }

    /// The node named by `h` (meaningful when `self.contains(h)`).
    pub open spec fn node(&self, h: NodeHandle) -> SceneNode<T, M, D> {
        self.nodes()[h.0 as int]
    }

    /// `c` is listed among the children of `p`.
    pub open spec fn is_child(&self, p: NodeHandle, c: NodeHandle) -> bool {
        self.contains(p) && self.node(p).children@.contains(c)
    }

    /// A downward chain of valid handles, each a child of the previous one.
    pub open spec fn is_path(&self, path: Seq<NodeHandle>) -> bool {
        &&& path.len() > 0
        &&& forall|i: int| 0 <= i < path.len() ==> self.contains(#[trigger] path[i])
        &&& forall|i: int| 0 <= i < path.len() - 1 ==> #[trigger] self.is_child(path[i], path[i + 1])
    }

    /// `b` lies in the subtree of `a` (`a` itself included).
    pub open spec fn descends(&self, a: NodeHandle, b: NodeHandle) -> bool {
        exists|path: Seq<NodeHandle>| #[trigger] self.is_path(path) && path[0] == a && path.last() == b
    }

    /// The subtree rooted at `a`.
    pub open spec fn subtree(&self, a: NodeHandle) -> Set<NodeHandle> {
        Set::new(|b: NodeHandle| self.descends(a, b))
    }

    /// The table fits in memory, every stored handle is valid, links agree in
    /// both directions and form no cycle, children lists and the dirty list
    /// hold no duplicates, the root has no parent, and the dirty set is
    /// closed under taking children.
    pub open spec fn wf(&self) -> bool {
        &&& self.nodes().len() > 0
        &&& self.nodes().len() <= usize::MAX
        &&& self.ranks().len() == self.nodes().len()
        &&& forall|p: NodeHandle, c: NodeHandle| #[trigger] self.is_child(p, c) && self.contains(c)
            ==> self.ranks()[p.0 as int] < self.ranks()[c.0 as int]
        &&& self.acyclic()
        &&& self.contains(self.root_handle())
        &&& self.node(self.root_handle()).parent is None
        &&& forall|h: NodeHandle| #[trigger] self.contains(h) ==> {
            &&& self.node(h).children@.no_duplicates()
            &&& (forall|i: int| 0 <= i < self.node(h).children@.len()
                ==> self.contains(#[trigger] self.node(h).children@[i]))
            &&& (self.node(h).parent matches Some(p) ==> self.contains(p))
        }
        &&& forall|p: NodeHandle, c: NodeHandle| self.contains(p) && self.contains(c) ==>
            (#[trigger] self.is_child(p, c) <==> self.node(c).parent == Some(p))
        &&& self.dirty_list().no_duplicates()
        &&& forall|i: int| 0 <= i < self.dirty_list().len() ==> self.contains(#[trigger] self.dirty_list()[i])
        &&& forall|d: NodeHandle, c: NodeHandle| #[trigger] self.dirty().contains(d) && #[trigger] self.is_child(d, c)
            ==> self.dirty().contains(c)
    }

    // Facts about subtrees.

    /// Every valid node lies in its own subtree.
    pub proof fn lemma_descends_refl(&self, a: NodeHandle)
        requires
            self.contains(a),
        ensures
            self.descends(a, a),
    {
        let path = seq![a];
        assert(self.is_path(path));
    }

    /// Subtrees are closed under taking children.
    pub proof fn lemma_descends_step(&self, a: NodeHandle, p: NodeHandle, c: NodeHandle)
        requires
            self.descends(a, p),
            self.is_child(p, c),
            self.contains(c),
        ensures
            self.descends(a, c),
    {
        let path = choose|path: Seq<NodeHandle>| #[trigger] self.is_path(path) && path[0] == a && path.last() == p;
        let longer = path.push(c);
        assert forall|i: int| 0 <= i < longer.len() - 1 implies #[trigger] self.is_child(longer[i], longer[i + 1]) by {
            if i < path.len() - 1 {
                assert(longer[i] == path[i] && longer[i + 1] == path[i + 1]);
            }
        }
        assert(self.is_path(longer));
    }

    /// Subtrees nest: a node below `b`, itself below `a`, is below `a`.
    pub proof fn lemma_descends_trans(&self, a: NodeHandle, b: NodeHandle, c: NodeHandle)
        requires
            self.descends(a, b),
            self.descends(b, c),
        ensures
            self.descends(a, c),
    {
        let upper = choose|path: Seq<NodeHandle>| #[trigger] self.is_path(path) && path[0] == a && path.last() == b;
        let lower = choose|path: Seq<NodeHandle>| #[trigger] self.is_path(path) && path[0] == b && path.last() == c;
        let joined = upper + lower.drop_first();
        assert forall|i: int| 0 <= i < joined.len() implies self.contains(#[trigger] joined[i]) by {
            if i < upper.len() {
                assert(joined[i] == upper[i]);
            } else {
                assert(joined[i] == lower[i - upper.len() + 1]);
            }
        }
        assert forall|i: int| 0 <= i < joined.len() - 1 implies #[trigger] self.is_child(joined[i], joined[i + 1]) by {
            if i < upper.len() - 1 {
                assert(joined[i] == upper[i] && joined[i + 1] == upper[i + 1]);
            } else if i == upper.len() - 1 {
                assert(joined[i] == upper.last());
                assert(joined[i + 1] == lower[1]);
                let z: int = 0;
                assert(self.is_child(lower[z], lower[z + 1]));
            } else {
                let k = i - upper.len() + 1;
                assert(joined[i] == lower[k] && joined[i + 1] == lower[k + 1]);
            }
        }
        if lower.len() == 1 {
            assert(joined =~= upper);
        } else {
            assert(joined.last() == lower.last());
        }
        assert(self.is_path(joined));
    }

    /// A path that meets `x` at position `j` continues into a path from `x`.
    pub proof fn lemma_path_suffix(&self, path: Seq<NodeHandle>, j: int)
        requires
            self.is_path(path),
            0 <= j < path.len(),
        ensures
            self.descends(path[j], path.last()),
    {
        let tail = path.subrange(j, path.len() as int);
        assert forall|i: int| 0 <= i < tail.len() - 1 implies #[trigger] self.is_child(tail[i], tail[i + 1]) by {
            assert(tail[i] == path[j + i] && tail[i + 1] == path[j + i + 1]);
            assert(self.is_child(path[j + i], path[(j + i) + 1]));
        }
        assert forall|i: int| 0 <= i < tail.len() implies self.contains(#[trigger] tail[i]) by {
            assert(tail[i] == path[j + i]);
        }
        assert(self.is_path(tail));
        assert(tail[0] == path[j]);
        assert(tail.last() == path.last());
    }

    /// Ranks never decrease along a path, and grow along one with a link.
    proof fn lemma_rank_grows_along_path(&self, path: Seq<NodeHandle>, k: int)
        requires
            self.is_path(path),
            0 <= k < path.len(),
            self.ranks().len() == self.nodes().len(),
            forall|p: NodeHandle, c: NodeHandle| #[trigger] self.is_child(p, c) && self.contains(c)
                ==> self.ranks()[p.0 as int] < self.ranks()[c.0 as int],
        ensures
            self.ranks()[path[0].0 as int] + k <= self.ranks()[path[k].0 as int],
        decreases k,
    {
        if k > 0 {
            self.lemma_rank_grows_along_path(path, k - 1);
            let j = k - 1;
            assert(self.is_child(path[j], path[j + 1]));
            assert(self.contains(path[k]));
        }
    }

    /// Links that raise the rank form no cycle.
    proof fn lemma_ranked_acyclic(&self)
        requires
            self.ranks().len() == self.nodes().len(),
            forall|p: NodeHandle, c: NodeHandle| #[trigger] self.is_child(p, c) && self.contains(c)
                ==> self.ranks()[p.0 as int] < self.ranks()[c.0 as int],
        ensures
            self.acyclic(),
    {
        assert forall|a: NodeHandle, b: NodeHandle| #[trigger] self.is_child(a, b) implies !self.descends(b, a) by {
            if self.descends(b, a) {
                let path = choose|path: Seq<NodeHandle>| #[trigger] self.is_path(path) && path[0] == b && path.last() == a;
                self.lemma_rank_grows_along_path(path, path.len() - 1);
            }
        }
    }

    /// A graph with the links and ranks of a well-formed graph has rising
    /// ranks and no cycle.
    proof fn lemma_same_links_ranked(&self, other: Self)
        requires
            other.wf(),
            self.nodes().len() == other.nodes().len(),
            self.ranks() == other.ranks(),
            forall|a: NodeHandle, b: NodeHandle| #[trigger] self.is_child(a, b) <==> other.is_child(a, b),
        ensures
            self.ranks().len() == self.nodes().len(),
            forall|p: NodeHandle, c: NodeHandle| #[trigger] self.is_child(p, c) && self.contains(c)
                ==> self.ranks()[p.0 as int] < self.ranks()[c.0 as int],
            self.acyclic(),
    {
        assert forall|p: NodeHandle, c: NodeHandle| #[trigger] self.is_child(p, c) && self.contains(c)
            implies self.ranks()[p.0 as int] < self.ranks()[c.0 as int] by {
            assert(other.is_child(p, c));
        }
        self.lemma_ranked_acyclic();
    }

    /// Below `c`, every node but `c` has a parent that is also below `c`.
    pub proof fn lemma_descends_parent(&self, c: NodeHandle, v: NodeHandle)
        requires
            self.wf(),
            self.descends(c, v),
            v != c,
        ensures
            self.node(v).parent matches Some(w) && self.descends(c, w) && self.is_child(w, v),
    {
        let path = choose|path: Seq<NodeHandle>| #[trigger] self.is_path(path) && path[0] == c && path.last() == v;
        assert(path.len() >= 2);
        let j = path.len() - 2;
        let w = path[j];
        assert(path[j + 1] == v);
        assert(self.is_child(w, v));
        assert(self.contains(w) && self.contains(v));
        let head = path.subrange(0, j + 1);
        assert forall|i: int| 0 <= i < head.len() - 1 implies #[trigger] self.is_child(head[i], head[i + 1]) by {
            assert(head[i] == path[i] && head[i + 1] == path[i + 1]);
        }
        assert forall|i: int| 0 <= i < head.len() implies self.contains(#[trigger] head[i]) by {
            assert(head[i] == path[i]);
        }
        assert(self.is_path(head));
        assert(head.last() == w);
    }

    /// A set that holds `a` and is closed under taking children holds the
    /// whole subtree of `a`.
    pub proof fn lemma_closed_set_holds_subtree(&self, s: Set<NodeHandle>, a: NodeHandle)
        requires
            s.contains(a),
            forall|d: NodeHandle, c: NodeHandle| #[trigger] s.contains(d) && #[trigger] self.is_child(d, c)
                ==> s.contains(c),
        ensures
            self.subtree(a).subset_of(s),
    {
        assert forall|b: NodeHandle| #[trigger] self.subtree(a).contains(b) implies s.contains(b) by {
            let path = choose|path: Seq<NodeHandle>| #[trigger] self.is_path(path) && path[0] == a && path.last() == b;
            self.lemma_path_stays_in_closed_set(s, path, path.len() - 1);
        }
    }

    /// Every node of a path from a member of `s` is in `s`, when `s` is
    /// closed under taking children.
    proof fn lemma_path_stays_in_closed_set(&self, s: Set<NodeHandle>, path: Seq<NodeHandle>, k: int)
        requires
            self.is_path(path),
            s.contains(path[0]),
            0 <= k < path.len(),
            forall|d: NodeHandle, c: NodeHandle| #[trigger] s.contains(d) && #[trigger] self.is_child(d, c)
                ==> s.contains(c),
        ensures
            s.contains(path[k]),
        decreases k,
    {
        if k > 0 {
            self.lemma_path_stays_in_closed_set(s, path, k - 1);
            let j = k - 1;
            assert(self.is_child(path[j], path[j + 1]));
        }
    }

    /// Only the root itself has the root in its subtree.
    pub proof fn lemma_root_has_no_ancestor(&self, h: NodeHandle)
        requires
            self.wf(),
            self.contains(h),
        ensures
            self.descends(h, self.root_handle()) ==> h == self.root_handle(),
    {
        let root = self.root_handle();
        if self.descends(h, root) && h != root {
            let path = choose|path: Seq<NodeHandle>| #[trigger] self.is_path(path) && path[0] == h && path.last() == root;
            assert(path.len() >= 2);
            let j = path.len() - 2;
            assert(0 <= j < path.len() - 1);
            assert(path[j + 1] == root);
            assert(self.is_child(path[j], path[j + 1]));
            assert(self.contains(path[j]));
            assert(self.node(root).parent == Some(path[j]));
        }
    }

    /// A graph with the links, root and dirty list of a well-formed graph is
    /// well formed too, and has the same parent/child pairs.
    proof fn lemma_same_links(&self, other: Self)
        requires
            other.wf(),
            self.nodes().len() == other.nodes().len(),
            self.root_handle() == other.root_handle(),
            self.dirty_list() == other.dirty_list(),
            self.ranks() == other.ranks(),
            forall|i: int| 0 <= i < other.nodes().len() ==>
                (#[trigger] self.nodes()[i]).parent == other.nodes()[i].parent
                && self.nodes()[i].children == other.nodes()[i].children,
        ensures
            self.wf(),
            forall|a: NodeHandle, b: NodeHandle| #[trigger] self.is_child(a, b) <==> other.is_child(a, b),
    {
        assert forall|x: NodeHandle| #[trigger] self.contains(x) implies
            self.node(x).parent == other.node(x).parent && self.node(x).children == other.node(x).children by {
            assert(self.nodes()[x.0 as int] == self.node(x));
        }
        assert forall|a: NodeHandle, b: NodeHandle| #[trigger] self.is_child(a, b) <==> other.is_child(a, b) by {
            if self.contains(a) {
                assert(self.node(a).children == other.node(a).children);
            }
        }
        assert forall|x: NodeHandle| #[trigger] self.contains(x) implies {
            &&& self.node(x).children@.no_duplicates()
            &&& (forall|i: int| 0 <= i < self.node(x).children@.len()
                ==> self.contains(#[trigger] self.node(x).children@[i]))
            &&& (self.node(x).parent matches Some(p) ==> self.contains(p))
        } by {
            assert(other.contains(x));
        }
        assert forall|p: NodeHandle, c: NodeHandle| self.contains(p) && self.contains(c) implies
            (#[trigger] self.is_child(p, c) <==> self.node(c).parent == Some(p)) by {
            assert(other.contains(p) && other.contains(c));
            assert(other.is_child(p, c) <==> other.node(c).parent == Some(p));
        }
        assert forall|d: NodeHandle, c: NodeHandle| #[trigger] self.dirty().contains(d) && #[trigger] self.is_child(d, c)
            implies self.dirty().contains(c) by {
            assert(other.is_child(d, c));
            assert(other.dirty().contains(d));
        }
        self.lemma_same_links_ranked(other);
    }

    /// Graphs with the same links have the same subtrees.
    pub proof fn lemma_same_links_subtree(&self, other: Self, a: NodeHandle)
        requires
            self.nodes().len() == other.nodes().len(),
            forall|x: NodeHandle, y: NodeHandle| #[trigger] self.is_child(x, y) <==> other.is_child(x, y),
        ensures
            self.subtree(a) == other.subtree(a),
    {
        assert forall|b: NodeHandle| self.descends(a, b) <==> other.descends(a, b) by {
            if self.descends(a, b) {
                let path = choose|path: Seq<NodeHandle>| #[trigger] self.is_path(path) && path[0] == a && path.last() == b;
                assert forall|i: int| 0 <= i < path.len() - 1 implies #[trigger] other.is_child(path[i], path[i + 1]) by {
                    assert(self.is_child(path[i], path[i + 1]));
                }
                assert(other.is_path(path));
            }
            if other.descends(a, b) {
                let path = choose|path: Seq<NodeHandle>| #[trigger] other.is_path(path) && path[0] == a && path.last() == b;
                assert forall|i: int| 0 <= i < path.len() - 1 implies #[trigger] self.is_child(path[i], path[i + 1]) by {
                    assert(other.is_child(path[i], path[i + 1]));
                }
                assert(self.is_path(path));
            }
        }
        assert(self.subtree(a) =~= other.subtree(a));
    }

    // Construction and lookup.

    /// A graph holding only the root, named `root_name`, whose local transform
    /// is `identity_transform`. The dirty set starts empty.
    pub fn new(root_name: String, identity_transform: T, identity_matrix: M) -> (g: Self)
        ensures
            g.wf(),
            g.nodes().len() == 1,
            g.root_handle() == NodeHandle(0),
            g.node(NodeHandle(0)).name@ == root_name@,
            g.node(NodeHandle(0)).transform == identity_transform,
            g.node(NodeHandle(0)).world_transform == identity_matrix,
            g.node(NodeHandle(0)).parent is None,
            g.node(NodeHandle(0)).children@.len() == 0,
            g.node(NodeHandle(0)).model is None,
            g.node(NodeHandle(0)).instances@ == seq![identity_transform],
            g.node(NodeHandle(0)).visible,
            g.dirty_list().len() == 0,
            g.identity_transform() == identity_transform,
            g.identity_matrix() == identity_matrix,
    {
        let mut nodes: Vec<SceneNode<T, M, D>> = Vec::new();
        nodes.push(SceneNode::new(root_name, identity_transform, identity_matrix));
        let g = SceneGraph {
            nodes,
            root: NodeHandle(0),
            dirty_transforms: Vec::new(),
            identity_transform,
            identity_matrix,
            ranks: Ghost(Seq::empty().push(0int)),
        };
        assert(g.dirty_list() =~= Seq::<NodeHandle>::empty());
        g
    }

    /// The root's handle.
    pub fn root(&self) -> (r: NodeHandle)
        ensures
            r == self.root_handle(),
    {
        self.root
    }

    /// Adds a detached node named `name` with the identity local transform,
    /// one identity instance, no drawable, and visible; the new node is marked
    /// dirty. Existing nodes are untouched. Never fails.
    pub fn create_node(&mut self, name: String) -> (h: NodeHandle)
        requires
            old(self).wf(),
        ensures
            final(self).wf(),
            h == NodeHandle(old(self).nodes().len() as usize),
            !old(self).contains(h),
            final(self).nodes().len() == old(self).nodes().len() + 1,
            final(self).nodes().drop_last() == old(self).nodes(),
            final(self).node(h).name@ == name@,
            final(self).node(h).transform == old(self).identity_transform(),
            final(self).node(h).world_transform == old(self).identity_matrix(),
            final(self).node(h).parent is None,
            final(self).node(h).children@.len() == 0,
            final(self).node(h).model is None,
            final(self).node(h).instances@ == seq![old(self).identity_transform()],
            final(self).node(h).visible,
            final(self).dirty_list() == old(self).dirty_list().push(h),
            final(self).dirty() == old(self).dirty().insert(h),
            final(self).root_handle() == old(self).root_handle(),
            final(self).identity_transform() == old(self).identity_transform(),
            final(self).identity_matrix() == old(self).identity_matrix(),
    {
        let h = NodeHandle(self.nodes.len());
        let node = SceneNode::new(name, self.identity_transform, self.identity_matrix);
        self.nodes.push(node);
        proof {
            assert forall|i: int| 0 <= i < old(self).dirty_list().len() implies
                #[trigger] old(self).dirty_list()[i] != h by {
                assert(old(self).contains(old(self).dirty_list()[i]));
            }
        }
        self.dirty_transforms.push(h);
        self.ranks = Ghost(self.ranks@.push(0int));
        proof {
            let o = old(self);
            lemma_push_to_set(o.dirty_list(), h);
            assert(self.nodes().drop_last() =~= o.nodes());
            assert forall|x: NodeHandle| o.contains(x) implies #[trigger] self.node(x) == o.node(x) by {}
            assert forall|x: NodeHandle| #[trigger] self.contains(x) implies {
                &&& self.node(x).children@.no_duplicates()
                &&& (forall|i: int| 0 <= i < self.node(x).children@.len()
                    ==> self.contains(#[trigger] self.node(x).children@[i]))
                &&& (self.node(x).parent matches Some(p) ==> self.contains(p))
            } by {
                if x != h {
                    assert(o.contains(x));
                    assert(self.node(x) == o.node(x));
                }
            }
            assert forall|p: NodeHandle, c: NodeHandle| self.contains(p) && self.contains(c) implies
                (#[trigger] self.is_child(p, c) <==> self.node(c).parent == Some(p)) by {
                if p != h && c != h {
                    assert(o.contains(p) && o.contains(c));
                    assert(self.node(p) == o.node(p));
                    assert(self.node(c) == o.node(c));
                    assert(self.is_child(p, c) == o.is_child(p, c));
                    assert(o.is_child(p, c) <==> o.node(c).parent == Some(p));
                } else if p == h {
                    assert(!self.node(p).children@.contains(c));
                    if c != h {
                        assert(o.contains(c));
                        assert(self.node(c) == o.node(c));
                    }
                } else {
                    assert(o.contains(p));
                    assert(self.node(p) == o.node(p));
                    if self.is_child(p, c) {
                        let i = self.node(p).children@.index_of(c);
                        assert(o.contains(o.node(p).children@[i]));
                    }
                    assert(self.node(c).parent is None);
                }
            }
            assert forall|d: NodeHandle, c: NodeHandle| #[trigger] self.dirty().contains(d) && #[trigger] self.is_child(d, c)
                implies self.dirty().contains(c) by {
                if d != h {
                    let i = self.dirty_list().index_of(d);
                    assert(o.dirty_list()[i] == d);
                    assert(o.dirty().contains(d));
                    assert(o.is_child(d, c));
                    let j = o.dirty_list().index_of(c);
                    assert(self.dirty_list()[j] == c);
                } else {
                    assert(!self.node(d).children@.contains(c));
                }
            }
            assert forall|p: NodeHandle, c: NodeHandle| #[trigger] self.is_child(p, c) && self.contains(c)
                implies self.ranks()[p.0 as int] < self.ranks()[c.0 as int] by {
                assert(p != h);
                assert(o.contains(p));
                assert(self.node(p) == o.node(p));
                let i = o.node(p).children@.index_of(c);
                assert(o.contains(o.node(p).children@[i]));
                assert(o.is_child(p, c));
                assert(p.0 != h.0 && c.0 != h.0);
            }
            assert(self.nodes().len() <= usize::MAX) by {
                assert(self.nodes.len() == self.nodes@.len());
            }
            self.lemma_ranked_acyclic();
        }
        h
    }

    /// The node named by `h`, or `None` when `h` is not a handle of this graph.
    pub fn get_node(&self, h: NodeHandle) -> (r: Option<&SceneNode<T, M, D>>)
        ensures
            r is Some <==> self.contains(h),
            r matches Some(n) ==> *n == self.node(h),
    {
        if h.0 < self.nodes.len() {
            Some(&self.nodes[h.0])
        } else {
            None
        }
    }

    /// Mutable access to the node named by `h`, or `None` when `h` names no
    /// node. The graph stays well formed as long as the caller leaves
    /// `parent` and `children` alone; a changed `transform` is picked up
    /// after [`Self::mark_transform_dirty`].
    pub fn get_node_mut(&mut self, h: NodeHandle) -> (r: Option<&mut SceneNode<T, M, D>>)
        requires
            old(self).wf(),
        ensures
            r is Some <==> old(self).contains(h),
            final(self).root_handle() == old(self).root_handle(),
            final(self).identity_transform() == old(self).identity_transform(),
            final(self).identity_matrix() == old(self).identity_matrix(),
            final(self).dirty_list() == old(self).dirty_list(),
            final(self).ranks() == old(self).ranks(),
            r is None ==> final(self).nodes() == old(self).nodes(),
            r matches Some(n) ==> {
                &&& *n == old(self).node(h)
                &&& final(self).nodes() == old(self).nodes().update(h.0 as int, *final(n))
                &&& (final(n).parent == n.parent && final(n).children == n.children) ==> final(self).wf()
            },
    {
        if h.0 < self.nodes.len() {
            let ghost before = *self;
            let n = &mut self.nodes[h.0];
            proof {
                assert forall|g: Self|
                    g.nodes() == before.nodes().update(h.0 as int, g.node(h)) && g.node(h).parent == before.node(h).parent
                        && g.node(h).children == before.node(h).children && g.root_handle() == before.root_handle()
                        && g.dirty_list() == before.dirty_list() && g.ranks() == before.ranks()
                        implies #[trigger] g.wf() by {
                    assert forall|i: int| 0 <= i < before.nodes().len() implies
                        (#[trigger] g.nodes()[i]).parent == before.nodes()[i].parent
                        && g.nodes()[i].children == before.nodes()[i].children by {
                        if i != h.0 {
                            assert(g.nodes()[i] == before.nodes()[i]);
                        }
                    }
                    g.lemma_same_links(before);
                }
            }
            Some(n)
        } else {
            None
        }
    }

    /// Whether `h` is in the dirty set.
    pub fn is_dirty(&self, h: NodeHandle) -> (r: bool)
        ensures
            r == self.dirty().contains(h),
    {
        let mut i: usize = 0;
        while i < self.dirty_transforms.len()
            invariant
                0 <= i <= self.dirty_list().len(),
                forall|k: int| 0 <= k < i ==> self.dirty_list()[k] != h,
            decreases self.dirty_list().len() - i,
        {
            if self.dirty_transforms[i].0 == h.0 {
                assert(self.dirty_list()[i as int] == h);
                return true;
            }
            i += 1;
        }
        false
    }

    /// Whether some world transform may be stale.
    pub fn has_dirty_transforms(&self) -> (r: bool)
        ensures
            r == !self.dirty().is_empty(),
    {
        proof {
            if self.dirty_list().len() > 0 {
                assert(self.dirty().contains(self.dirty_list()[0]));
            } else {
                assert(self.dirty() =~= Set::empty());
            }
        }
        self.dirty_transforms.len() > 0
    }

    /// Whether `b` lies in the subtree of `a`.
    pub fn in_subtree(&self, a: NodeHandle, b: NodeHandle) -> (r: bool)
        requires
            self.wf(),
            self.contains(a),
            self.contains(b),
        ensures
            r == self.descends(a, b),
    {
        let mut visited: Vec<bool> = Vec::new();
        while visited.len() < self.nodes.len()
            invariant
                visited@.len() <= self.nodes().len(),
                forall|k: int| 0 <= k < visited@.len() ==> !#[trigger] visited@[k],
            decreases self.nodes().len() - visited@.len(),
        {
            visited.push(false);
        }
        let total: usize = self.nodes.len();
        let ghost seen: Seq<NodeHandle> = Seq::empty();
        let mut stack: Vec<NodeHandle> = Vec::new();
        stack.push(a);
        proof {
            self.lemma_descends_refl(a);
            assert(stack@[0] == a);
        }
        while stack.len() > 0
            invariant
                self.wf(),
                self.contains(a),
                self.contains(b),
                visited@.len() == self.nodes().len(),
                total == self.nodes().len(),
                seen.no_duplicates(),
                forall|k: int| 0 <= k < seen.len() ==> self.contains(#[trigger] seen[k]),
                forall|k: int| 0 <= k < visited@.len() ==> (#[trigger] visited@[k] <==> seen.contains(NodeHandle(k as usize))),
                forall|k: int| 0 <= k < seen.len() ==> self.subtree(a).contains(#[trigger] seen[k]),
                forall|k: int| 0 <= k < stack@.len() ==> self.subtree(a).contains(#[trigger] stack@[k]),
                forall|k: int| 0 <= k < stack@.len() ==> self.contains(#[trigger] stack@[k]),
                seen.contains(a) || stack@.contains(a),
                !seen.contains(b),
                forall|d: NodeHandle, c: NodeHandle| #[trigger] seen.contains(d) && #[trigger] self.is_child(d, c)
                    ==> seen.contains(c) || stack@.contains(c),
            decreases self.nodes().len() - seen.len(), stack@.len(),
        {
            proof {
                lemma_distinct_handles_bounded(seen, self.nodes().len());
            }
            let ghost stack_full = stack@;
            let n = stack.pop().unwrap();
            proof {
                assert(stack_full =~= stack@.push(n));
                assert(stack_full[stack@.len() as int] == n);
                assert forall|k: int| 0 <= k < stack@.len() implies
                    self.subtree(a).contains(#[trigger] stack@[k]) && self.contains(stack@[k]) by {
                    assert(stack_full[k] == stack@[k]);
                }
            }
            if n.0 == b.0 {
                return true;
            }
            if visited[n.0] {
                proof {
                    assert(seen.contains(NodeHandle(n.0)));
                    assert forall|d: NodeHandle, c: NodeHandle| #[trigger] seen.contains(d) && #[trigger] self.is_child(d, c)
                        implies seen.contains(c) || stack@.contains(c) by {
                        if c != n && !seen.contains(c) {
                            let k = stack_full.index_of(c);
                            assert(stack@[k] == c);
                        }
                    }
                    if !seen.contains(a) {
                        let k = stack_full.index_of(a);
                        if k < stack@.len() {
                            assert(stack@[k] == a);
                        }
                    }
                }
            } else {
                let ghost stack_rest = stack@;
                let ghost seen_before = seen;
                proof {
                    assert(!seen.contains(n));
                    seen = seen.push(n);
                    lemma_push_to_set(seen_before, n);
                    assert forall|x: NodeHandle| seen.contains(x) <==> (seen_before.contains(x) || x == n) by {
                        assert(seen.to_set().contains(x) == seen.contains(x));
                        assert(seen_before.to_set().contains(x) == seen_before.contains(x));
                    }
                }
                visited.set(n.0, true);
                self.push_children(n, &mut stack);
                proof {
                    let kids = self.node(n).children@;
                    assert forall|k: int| 0 <= k < visited@.len() implies
                        (#[trigger] visited@[k] <==> seen.contains(NodeHandle(k as usize))) by {
                        assert(n == NodeHandle(n.0));
                        if k != n.0 {
                            assert((k as usize) as int == k);
                            assert(NodeHandle(k as usize).0 != n.0);
                        }
                    }
                    assert forall|k: int| 0 <= k < seen.len() implies
                        self.subtree(a).contains(#[trigger] seen[k]) && self.contains(seen[k]) by {
                        if k < seen_before.len() {
                            assert(seen[k] == seen_before[k]);
                        }
                    }
                    assert forall|k: int| 0 <= k < stack@.len() implies
                        self.subtree(a).contains(#[trigger] stack@[k]) && self.contains(stack@[k]) by {
                        if k >= stack_rest.len() {
                            let c = kids[k - stack_rest.len()];
                            assert(stack@[k] == c);
                            assert(self.contains(c));
                            assert(self.is_child(n, c));
                            self.lemma_descends_step(a, n, c);
                        } else {
                            assert(stack@[k] == stack_rest[k]);
                        }
                    }
                    assert forall|d: NodeHandle, c: NodeHandle| #[trigger] seen.contains(d) && #[trigger] self.is_child(d, c)
                        implies seen.contains(c) || stack@.contains(c) by {
                        if d == n {
                            let k = kids.index_of(c);
                            assert(stack@[stack_rest.len() + k] == c);
                        } else if c != n && !seen.contains(c) {
                            assert(seen_before.contains(d));
                            let k = stack_full.index_of(c);
                            assert(stack@[k] == c);
                        }
                    }
                    if !seen.contains(a) {
                        let k = stack_full.index_of(a);
                        assert(stack@[k] == a);
                    }
                    assert(n != b);
                    lemma_distinct_handles_bounded(seen, self.nodes().len());
                }
            }
        }
        proof {
            let s = seen.to_set();
            assert forall|d: NodeHandle, c: NodeHandle| #[trigger] s.contains(d) && #[trigger] self.is_child(d, c)
                implies s.contains(c) by {
                assert(seen.contains(d));
            }
            assert(s.contains(a));
            self.lemma_closed_set_holds_subtree(s, a);
            assert(!s.contains(b));
            assert(!self.subtree(a).contains(b));
        }
        false
    }

    // Dirty marking.

    /// The state reached part-way through marking the subtree of `h`: the
    /// nodes are untouched, the dirty list only grew, and every child of a
    /// dirty node is dirty or still waiting on `stack`.
    spec fn marking(&self, before: Self, h: NodeHandle, stack: Seq<NodeHandle>) -> bool {
        &&& before.wf()
        &&& before.contains(h)
        &&& self.nodes() == before.nodes()
        &&& self.ranks() == before.ranks()
        &&& self.root_handle() == before.root_handle()
        &&& self.identity_transform() == before.identity_transform()
        &&& self.identity_matrix() == before.identity_matrix()
        &&& self.dirty_list().no_duplicates()
        &&& forall|i: int| 0 <= i < self.dirty_list().len() ==> self.contains(#[trigger] self.dirty_list()[i])
        &&& before.dirty().subset_of(self.dirty())
        &&& self.dirty().subset_of(before.dirty().union(before.subtree(h)))
        &&& forall|i: int| 0 <= i < stack.len() ==> before.subtree(h).contains(#[trigger] stack[i])
        &&& forall|i: int| 0 <= i < stack.len() ==> self.contains(#[trigger] stack[i])
        &&& (self.dirty().contains(h) || stack.contains(h))
        &&& forall|d: NodeHandle, c: NodeHandle| #[trigger] self.dirty().contains(d) && #[trigger] before.is_child(d, c)
            ==> self.dirty().contains(c) || stack.contains(c)
    }

    /// Appends the children of `n` to `stack`, in order.
    fn push_children(&self, n: NodeHandle, stack: &mut Vec<NodeHandle>)
        requires
            self.contains(n),
        ensures
            final(stack)@ == old(stack)@ + self.node(n).children@,
    {
        let ghost start = stack@;
        let mut j: usize = 0;
        while j < self.nodes[n.0].children.len()
            invariant
                self.contains(n),
                0 <= j <= self.node(n).children@.len(),
                stack@ == start + self.node(n).children@.take(j as int),
            decreases self.node(n).children@.len() - j,
        {
            stack.push(self.nodes[n.0].children[j]);
            proof {
                assert(start + self.node(n).children@.take(j + 1) =~= (start
                    + self.node(n).children@.take(j as int)).push(self.node(n).children@[j as int]));
            }
            j += 1;
        }
        proof {
            assert(self.node(n).children@.take(j as int) =~= self.node(n).children@);
        }
    }

    /// Adds `h` and every node below it to the dirty set. Handles that name
    /// no node are ignored.
    pub fn mark_transform_dirty(&mut self, h: NodeHandle)
        requires
            old(self).wf(),
        ensures
            final(self).wf(),
            final(self).nodes() == old(self).nodes(),
            final(self).root_handle() == old(self).root_handle(),
            final(self).identity_transform() == old(self).identity_transform(),
            final(self).identity_matrix() == old(self).identity_matrix(),
            old(self).contains(h) ==> final(self).dirty() == old(self).dirty().union(old(self).subtree(h)),
            !old(self).contains(h) ==> final(self).dirty_list() == old(self).dirty_list(),
    {
        if h.0 >= self.nodes.len() {
            return;
        }
        let ghost before = *self;
        let mut stack: Vec<NodeHandle> = Vec::new();
        stack.push(h);
        proof {
            before.lemma_descends_refl(h);
            assert forall|d: NodeHandle, c: NodeHandle| #[trigger] self.dirty().contains(d) && #[trigger] before.is_child(d, c)
                implies self.dirty().contains(c) || stack@.contains(c) by {
                assert(before.dirty().contains(d));
            }
            assert(stack@[0] == h);
        }
        while stack.len() > 0
            invariant
                self.marking(before, h, stack@),
            decreases self.nodes().len() - self.dirty_list().len(), stack@.len(),
        {
            let ghost stack_full = stack@;
            let n = stack.pop().unwrap();
            proof {
                assert(stack_full =~= stack@.push(n));
            }
            if self.is_dirty(n) {
                proof {
                    assert forall|d: NodeHandle, c: NodeHandle| #[trigger] self.dirty().contains(d) && #[trigger] before.is_child(d, c)
                        implies self.dirty().contains(c) || stack@.contains(c) by {
                        if c != n && !self.dirty().contains(c) {
                            let i = stack_full.index_of(c);
                            assert(stack@[i] == c);
                        }
                    }
                    if !self.dirty().contains(h) {
                        let i = stack_full.index_of(h);
                        if i < stack@.len() {
                            assert(stack@[i] == h);
                        }
                    }
                    assert forall|i: int| 0 <= i < stack@.len() implies before.subtree(h).contains(#[trigger] stack@[i]) by {
                        assert(stack_full[i] == stack@[i]);
                    }
                    assert forall|i: int| 0 <= i < stack@.len() implies self.contains(#[trigger] stack@[i]) by {
                        assert(stack_full[i] == stack@[i]);
                    }
                }
            } else {
                let ghost stack_rest = stack@;
                let ghost dirty_before = self.dirty_list();
                proof {
                    assert forall|i: int| 0 <= i < stack_rest.len() implies before.subtree(h).contains(#[trigger] stack_rest[i]) by {
                        assert(stack_full[i] == stack_rest[i]);
                    }
                    assert(stack_full[stack_rest.len() as int] == n);
                    lemma_distinct_handles_bounded(dirty_before.push(n), self.nodes().len());
                    assert(before.subtree(h).contains(n));
                    assert(self.contains(n));
                }
                self.dirty_transforms.push(n);
                proof {
                    lemma_push_to_set(dirty_before, n);
                }
                self.push_children(n, &mut stack);
                proof {
                    let kids = self.node(n).children@;
                    assert(before.contains(n));
                    assert forall|i: int| 0 <= i < stack@.len() implies
                        before.subtree(h).contains(#[trigger] stack@[i]) && self.contains(stack@[i]) by {
                        if i < stack_rest.len() {
                            assert(stack@[i] == stack_rest[i]);
                            assert(stack_full[i] == stack_rest[i]);
                        } else {
                            let c = kids[i - stack_rest.len()];
                            assert(stack@[i] == c);
                            assert(before.contains(c));
                            assert(before.is_child(n, c));
                            before.lemma_descends_step(h, n, c);
                        }
                    }
                    assert forall|d: NodeHandle, c: NodeHandle| #[trigger] self.dirty().contains(d) && #[trigger] before.is_child(d, c)
                        implies self.dirty().contains(c) || stack@.contains(c) by {
                        if d == n {
                            let k = kids.index_of(c);
                            assert(stack@[stack_rest.len() + k] == c);
                        } else if c != n && !self.dirty().contains(c) {
                            assert(dirty_before.to_set().contains(d));
                            let i = stack_full.index_of(c);
                            assert(stack@[i] == c);
                        }
                    }
                    if !self.dirty().contains(h) {
                        let i = stack_full.index_of(h);
                        assert(stack@[i] == h);
                    }
                }
            }
        }
        proof {
            before.lemma_closed_set_holds_subtree(self.dirty(), h);
            assert(self.dirty() =~= before.dirty().union(before.subtree(h)));
            assert forall|x: NodeHandle| #[trigger] self.contains(x) implies {
                &&& self.node(x).children@.no_duplicates()
                &&& (forall|i: int| 0 <= i < self.node(x).children@.len()
                    ==> self.contains(#[trigger] self.node(x).children@[i]))
                &&& (self.node(x).parent matches Some(p) ==> self.contains(p))
            } by {
                assert(before.contains(x));
            }
            assert forall|p: NodeHandle, c: NodeHandle| self.contains(p) && self.contains(c) implies
                (#[trigger] self.is_child(p, c) <==> self.node(c).parent == Some(p)) by {
                assert(before.is_child(p, c) == self.is_child(p, c));
            }
            assert forall|d: NodeHandle, c: NodeHandle| #[trigger] self.dirty().contains(d) && #[trigger] self.is_child(d, c)
                implies self.dirty().contains(c) by {
                assert(before.is_child(d, c));
            }
            assert forall|a: NodeHandle, b: NodeHandle| #[trigger] self.is_child(a, b) <==> before.is_child(a, b) by {}
            self.lemma_same_links_ranked(before);
        }
    }

    // Parent/child links.

    /// Position of `c` in the children list of `p`.
    fn child_position(&self, p: NodeHandle, c: NodeHandle) -> (k: usize)
        requires
            self.contains(p),
            self.node(p).children@.contains(c),
        ensures
            k < self.node(p).children@.len(),
            self.node(p).children@[k as int] == c,
    {
        let mut k: usize = 0;
        while k < self.nodes[p.0].children.len()
            invariant
                self.contains(p),
                self.node(p).children@.contains(c),
                0 <= k <= self.node(p).children@.len(),
                forall|i: int| 0 <= i < k ==> self.node(p).children@[i] != c,
            decreases self.node(p).children@.len() - k,
        {
            if self.nodes[p.0].children[k].0 == c.0 {
                return k;
            }
            k += 1;
        }
        proof {
            let i = self.node(p).children@.index_of(c);
            assert(self.node(p).children@[i] == c);
        }
        0
    }

    /// `after` is the node table `before` with `child` moved from its former
    /// parent (if any) to the end of the children of `parent`; nothing else
    /// changes.
    pub open spec fn relinked(
        before: Seq<SceneNode<T, M, D>>,
        after: Seq<SceneNode<T, M, D>>,
        child: NodeHandle,
        parent: NodeHandle,
    ) -> bool {
        let old_parent = before[child.0 as int].parent;
        &&& after.len() == before.len()
        &&& after[child.0 as int].parent == Some(parent)
        &&& after[parent.0 as int].children@ == before[parent.0 as int].children@.push(child)
        &&& forall|op: NodeHandle| old_parent == Some(op) ==>
            after[op.0 as int].children@ == before[op.0 as int].children@.remove(
                before[op.0 as int].children@.index_of(child))
        &&& forall|h: NodeHandle| h.0 < before.len() && h != parent && Some(h) != old_parent ==>
            #[trigger] after[h.0 as int].children == before[h.0 as int].children
        &&& forall|h: NodeHandle| h.0 < before.len() && h != child ==>
            #[trigger] after[h.0 as int].parent == before[h.0 as int].parent
        &&& forall|h: NodeHandle| h.0 < before.len() ==> Self::same_payload(#[trigger] after[h.0 as int], before[h.0 as int])
    }

    /// `a` and `b` agree on everything but their links.
    pub open spec fn same_payload(a: SceneNode<T, M, D>, b: SceneNode<T, M, D>) -> bool {
        &&& a.name == b.name
        &&& a.transform == b.transform
        &&& a.world_transform == b.world_transform
        &&& a.model == b.model
        &&& a.instances == b.instances
        &&& a.visible == b.visible
    }

    /// Removing `x` from a duplicate-free sequence keeps it duplicate-free and
    /// leaves exactly the other elements.
    pub proof fn lemma_remove_distinct(l: Seq<NodeHandle>, x: NodeHandle)
        requires
            l.no_duplicates(),
            l.contains(x),
        ensures
            l.remove(l.index_of(x)).no_duplicates(),
            forall|y: NodeHandle| l.remove(l.index_of(x)).contains(y) <==> (l.contains(y) && y != x),
    {
        let k = l.index_of(x);
        let r = l.remove(k);
        assert forall|i: int, j: int| 0 <= i < r.len() && 0 <= j < r.len() && i != j implies r[i] != r[j] by {
            let ii = if i < k { i } else { i + 1 };
            let jj = if j < k { j } else { j + 1 };
            assert(r[i] == l[ii]);
            assert(r[j] == l[jj]);
        }
        assert forall|y: NodeHandle| r.contains(y) <==> (l.contains(y) && y != x) by {
            if r.contains(y) {
                let i = r.index_of(y);
                let ii = if i < k { i } else { i + 1 };
                assert(r[i] == l[ii]);
                assert(ii != k);
            }
            if l.contains(y) && y != x {
                let i = l.index_of(y);
                assert(i != k);
                let jj = if i < k { i } else { i - 1 };
                assert(r[jj] == y);
            }
        }
    }

    /// Appending a fresh element keeps a sequence duplicate-free.
    proof fn lemma_push_distinct(l: Seq<NodeHandle>, x: NodeHandle)
        requires
            l.no_duplicates(),
            !l.contains(x),
        ensures
            l.push(x).no_duplicates(),
            forall|y: NodeHandle| l.push(x).contains(y) <==> (l.contains(y) || y == x),
    {
        let r = l.push(x);
        assert forall|i: int, j: int| 0 <= i < r.len() && 0 <= j < r.len() && i != j implies r[i] != r[j] by {
            if i < l.len() && j < l.len() {
                assert(r[i] == l[i] && r[j] == l[j]);
            } else if i < l.len() {
                assert(r[i] == l[i]);
            } else {
                assert(r[j] == l[j]);
            }
        }
        assert forall|y: NodeHandle| r.contains(y) <==> (l.contains(y) || y == x) by {
            if r.contains(y) && y != x {
                let i = r.index_of(y);
                assert(l[i] == y);
            }
            if l.contains(y) {
                let i = l.index_of(y);
                assert(r[i] == y);
            }
            assert(r[l.len() as int] == x);
        }
    }

    /// Moving `child` under `parent` keeps the links well formed.
    proof fn lemma_relinked_links(o: Self, s: Self, child: NodeHandle, parent: NodeHandle)
        requires
            o.wf(),
            o.contains(child),
            o.contains(parent),
            child != o.root_handle(),
            o.node(child).parent != Some(parent),
            Self::relinked(o.nodes(), s.nodes(), child, parent),
            s.root_handle() == o.root_handle(),
        ensures
            s.nodes().len() > 0,
            s.contains(s.root_handle()),
            s.node(s.root_handle()).parent is None,
            forall|h: NodeHandle| #[trigger] s.contains(h) ==> {
                &&& s.node(h).children@.no_duplicates()
                &&& (forall|i: int| 0 <= i < s.node(h).children@.len()
                    ==> s.contains(#[trigger] s.node(h).children@[i]))
                &&& (s.node(h).parent matches Some(p) ==> s.contains(p))
            },
            forall|p: NodeHandle, c: NodeHandle| s.contains(p) && s.contains(c) ==>
                (#[trigger] s.is_child(p, c) <==> s.node(c).parent == Some(p)),
    {
        assert(!o.node(parent).children@.contains(child)) by {
            assert(!o.is_child(parent, child));
        }
        Self::lemma_push_distinct(o.node(parent).children@, child);
        if let Some(op) = o.node(child).parent {
            assert(o.contains(op));
            assert(o.is_child(op, child));
            Self::lemma_remove_distinct(o.node(op).children@, child);
        }
        assert(o.root_handle() != child);
        assert(o.contains(o.root_handle()));
        assert forall|h: NodeHandle| #[trigger] s.contains(h) implies {
            &&& s.node(h).children@.no_duplicates()
            &&& (forall|i: int| 0 <= i < s.node(h).children@.len()
                ==> s.contains(#[trigger] s.node(h).children@[i]))
            &&& (s.node(h).parent matches Some(p) ==> s.contains(p))
        } by {
            assert(o.contains(h));
            let kids = s.node(h).children@;
            assert forall|i: int| 0 <= i < kids.len() implies s.contains(#[trigger] kids[i]) by {
                assert(kids.contains(kids[i]));
                if h == parent {
                    if kids[i] != child {
                        let j = o.node(h).children@.index_of(kids[i]);
                        assert(o.contains(o.node(h).children@[j]));
                    }
                } else if Some(h) == o.node(child).parent {
                    let j = o.node(h).children@.index_of(kids[i]);
                    assert(o.contains(o.node(h).children@[j]));
                } else {
                    assert(o.contains(o.node(h).children@[i]));
                }
            }
        }
        assert forall|p: NodeHandle, c: NodeHandle| s.contains(p) && s.contains(c) implies
            (#[trigger] s.is_child(p, c) <==> s.node(c).parent == Some(p)) by {
            assert(o.contains(p) && o.contains(c));
            assert(o.is_child(p, c) <==> o.node(c).parent == Some(p));
            if p == parent {
            } else if Some(p) == o.node(child).parent {
            } else {
                assert(s.node(p).children == o.node(p).children);
            }
        }
    }

    /// Moving `child` keeps every downward path that avoids the subtree of
    /// `child`.
    pub proof fn lemma_relinked_keeps_path(o: Self, s: Self, child: NodeHandle, parent: NodeHandle, a: NodeHandle, b: NodeHandle)
        requires
            o.wf(),
            o.contains(child),
            o.contains(parent),
            o.node(child).parent != Some(parent),
            Self::relinked(o.nodes(), s.nodes(), child, parent),
            o.descends(a, b),
            !o.descends(child, b),
        ensures
            s.descends(a, b),
    {
        let path = choose|path: Seq<NodeHandle>| #[trigger] o.is_path(path) && path[0] == a && path.last() == b;
        assert forall|j: int| 0 <= j < path.len() implies #[trigger] path[j] != child by {
            if path[j] == child {
                o.lemma_path_suffix(path, j);
            }
        }
        if let Some(op) = o.node(child).parent {
            assert(o.contains(op));
            assert(o.is_child(op, child));
            Self::lemma_remove_distinct(o.node(op).children@, child);
        }
        assert forall|i: int| 0 <= i < path.len() - 1 implies #[trigger] s.is_child(path[i], path[i + 1]) by {
            let u = path[i];
            let v = path[i + 1];
            assert(o.is_child(u, v));
            assert(v != child);
            if u == parent {
                let k = o.node(u).children@.index_of(v);
                assert(s.node(u).children@[k] == v);
            } else if Some(u) == o.node(child).parent {
            } else {
                assert(s.node(u).children == o.node(u).children);
            }
        }
        assert(s.is_path(path));
    }

    /// Moves `child` from its current parent (if any) to the end of the
    /// children of `parent`. `child` must already be dirty.
    fn relink(&mut self, child: NodeHandle, parent: NodeHandle)
        requires
            old(self).wf(),
            old(self).contains(child),
            old(self).contains(parent),
            child != old(self).root_handle(),
            old(self).node(child).parent != Some(parent),
            old(self).dirty().contains(child),
            !old(self).descends(child, parent),
        ensures
            final(self).wf(),
            Self::relinked(old(self).nodes(), final(self).nodes(), child, parent),
            final(self).root_handle() == old(self).root_handle(),
            final(self).identity_transform() == old(self).identity_transform(),
            final(self).identity_matrix() == old(self).identity_matrix(),
            final(self).dirty_list() == old(self).dirty_list(),
    {
        let ghost o = *self;
        let old_parent = self.nodes[child.0].parent;
        match old_parent {
            Some(op) => {
                proof {
                    assert(o.contains(op));
                    assert(o.is_child(op, child));
                    assert(o.node(op).children@.no_duplicates());
                }
                let k = self.child_position(op, child);
                proof {
                    let l = o.node(op).children@;
                    assert(l[l.index_of(child) as int] == child);
                    assert(k == l.index_of(child));
                }
                self.nodes[op.0].children.remove(k);
            },
            None => {},
        }
        let ghost mid = *self;
        proof {
            assert forall|h: NodeHandle| #[trigger] o.contains(h) && Some(h) != old_parent implies
                mid.node(h) == o.node(h) by {
                if let Some(op) = old_parent {
                    assert(h.0 != op.0);
                }
            }
        }
        self.nodes[child.0].parent = Some(parent);
        let ghost mid2 = *self;
        self.nodes[parent.0].children.push(child);
        let ghost shift = o.ranks()[parent.0 as int] + 1 - o.ranks()[child.0 as int];
        let ghost moved = Seq::new(o.ranks().len(), |i: int|
            if o.descends(child, NodeHandle(i as usize)) { o.ranks()[i] + shift } else { o.ranks()[i] });
        self.ranks = Ghost(moved);
        proof {
            assert forall|h: NodeHandle| #[trigger] o.contains(h) && h != child implies
                mid2.node(h) == mid.node(h) by {
                assert(h.0 != child.0);
            }
            assert forall|h: NodeHandle| #[trigger] o.contains(h) && h != parent implies
                self.node(h) == mid2.node(h) by {
                assert(h.0 != parent.0);
            }
            assert forall|h: NodeHandle| h.0 < o.nodes().len() && h != parent && Some(h) != old_parent implies
                #[trigger] self.nodes()[h.0 as int].children == o.nodes()[h.0 as int].children by {
                assert(o.contains(h));
            }
            assert forall|h: NodeHandle| h.0 < o.nodes().len() && h != child implies
                #[trigger] self.nodes()[h.0 as int].parent == o.nodes()[h.0 as int].parent by {
                assert(o.contains(h));
            }
            assert forall|h: NodeHandle| h.0 < o.nodes().len() implies
                Self::same_payload(#[trigger] self.nodes()[h.0 as int], o.nodes()[h.0 as int]) by {
                assert(o.contains(h));
            }
            assert(Self::relinked(o.nodes(), self.nodes(), child, parent));
            Self::lemma_relinked_links(o, *self, child, parent);
            assert(self.dirty_list() == o.dirty_list());
            assert forall|d: NodeHandle, c: NodeHandle| #[trigger] self.dirty().contains(d) && #[trigger] self.is_child(d, c)
                implies self.dirty().contains(c) by {
                if c != child {
                    assert(self.contains(c)) by {
                        let i = self.node(d).children@.index_of(c);
                    }
                    assert(self.node(c).parent == Some(d));
                    assert(o.node(c).parent == Some(d));
                    assert(o.is_child(d, c));
                }
            }
            // Ranks: the subtree of `child` moves by `shift`, which puts
            // `child` just above `parent`.
            o.lemma_descends_refl(child);
            if let Some(op) = old_parent {
                assert(o.contains(op));
                assert(o.is_child(op, child));
                Self::lemma_remove_distinct(o.node(op).children@, child);
            }
            assert forall|u: NodeHandle, v: NodeHandle| #[trigger] self.is_child(u, v) && self.contains(v)
                implies self.ranks()[u.0 as int] < self.ranks()[v.0 as int] by {
                assert(self.contains(u));
                assert(NodeHandle((u.0 as int) as usize) == u);
                assert(NodeHandle((v.0 as int) as usize) == v);
                if v == child {
                    assert(self.node(child).parent == Some(u));
                    assert(u == parent);
                } else {
                    assert(o.contains(u) && o.contains(v));
                    if u == parent {
                        let i = self.node(u).children@.index_of(v);
                        assert(i < o.node(u).children@.len());
                        assert(o.node(u).children@[i] == v);
                    } else if Some(u) == old_parent {
                    } else {
                        assert(self.node(u).children == o.node(u).children);
                    }
                    assert(o.is_child(u, v));
                    if o.descends(child, u) {
                        o.lemma_descends_step(child, u, v);
                    } else if o.descends(child, v) {
                        o.lemma_descends_parent(child, v);
                        assert(o.node(v).parent == Some(u));
                    }
                }
            }
            self.lemma_ranked_acyclic();
        }
    }

    /// What [`Self::attach_to_parent`] does: which error comes on which
    /// input, that a failure changes nothing, and how links and the dirty set
    /// change on success.
    pub open spec fn attached(
        before: Self,
        after: Self,
        child: NodeHandle,
        parent: NodeHandle,
        r: Result<(), SceneError>,
    ) -> bool {
        &&& r == Err::<(), SceneError>(SceneError::InvalidHandle)
            <==> !before.contains(child) || !before.contains(parent)
        &&& r == Err::<(), SceneError>(SceneError::RootHasNoParent)
            <==> before.contains(child) && before.contains(parent) && child == before.root_handle()
        &&& r == Err::<(), SceneError>(SceneError::WouldCreateCycle)
            <==> before.contains(child) && before.contains(parent) && child != before.root_handle()
                && before.descends(child, parent)
        &&& r is Ok <==> before.contains(child) && before.contains(parent) && child != before.root_handle()
            && !before.descends(child, parent)
        &&& r is Err ==> after.nodes() == before.nodes() && after.dirty_list() == before.dirty_list()
        &&& after.root_handle() == before.root_handle()
        &&& after.identity_transform() == before.identity_transform()
        &&& after.identity_matrix() == before.identity_matrix()
        &&& after.nodes().len() == before.nodes().len()
        &&& r is Ok ==> after.dirty() == before.dirty().union(before.subtree(child))
        &&& r is Ok && before.node(child).parent == Some(parent) ==> after.nodes() == before.nodes()
        &&& r is Ok && before.node(child).parent != Some(parent)
            ==> Self::relinked(before.nodes(), after.nodes(), child, parent)
    }

    /// Makes `parent` the parent of `child`.
    ///
    /// Fails with `InvalidHandle` when either handle names no node, with
    /// `RootHasNoParent` when `child` is the root, and with `WouldCreateCycle`
    /// when `parent` lies in the subtree of `child` (`parent == child`
    /// included); a failed call changes nothing. On success `child` leaves the
    /// children list of its former parent, is appended once to the children
    /// of `parent` (a child already under `parent` keeps its place), and its
    /// subtree is marked dirty.
    pub fn attach_to_parent(&mut self, child: NodeHandle, parent: NodeHandle) -> (r: Result<(), SceneError>)
        requires
            old(self).wf(),
        ensures
            final(self).wf(),
            Self::attached(*old(self), *final(self), child, parent, r),
    {
        if child.0 >= self.nodes.len() || parent.0 >= self.nodes.len() {
            return Err(SceneError::InvalidHandle);
        }
        if child.0 == self.root.0 {
            return Err(SceneError::RootHasNoParent);
        }
        if self.in_subtree(child, parent) {
            return Err(SceneError::WouldCreateCycle);
        }
        let ghost before = *self;
        proof {
            before.lemma_descends_refl(child);
        }
        self.mark_transform_dirty(child);
        let ghost marked = *self;
        proof {
            assert(before.subtree(child).contains(child));
            assert(marked.dirty().contains(child));
            assert forall|a: NodeHandle, b: NodeHandle| #[trigger] marked.is_child(a, b) <==> before.is_child(a, b) by {}
            marked.lemma_same_links_subtree(before, child);
            assert(!before.subtree(child).contains(parent));
        }
        let reattach = match self.nodes[child.0].parent {
            Some(op) => op.0 == parent.0,
            None => false,
        };
        if reattach {
            proof {
                assert(self.node(child).parent == Some(parent));
            }
            return Ok(());
        }
        self.relink(child, parent);
        proof {
            assert(marked.nodes() == before.nodes());
        }
        Ok(())
    }

    /// Attaches `child` under the root; see [`Self::attach_to_parent`].
    pub fn attach_to_root(&mut self, child: NodeHandle) -> (r: Result<(), SceneError>)
        requires
            old(self).wf(),
        ensures
            final(self).wf(),
            Self::attached(*old(self), *final(self), child, old(self).root_handle(), r),
            r is Ok <==> old(self).contains(child) && child != old(self).root_handle(),
    {
        let root = self.root;
        proof {
            if self.contains(child) {
                self.lemma_root_has_no_ancestor(child);
            }
        }
        let r = self.attach_to_parent(child, root);
        proof {
            if let Err(e) = r {
                assert(e == SceneError::InvalidHandle || e == SceneError::RootHasNoParent
                    || e == SceneError::WouldCreateCycle);
            }
        }
        r
    }

    // Editing a node.

    /// What [`Self::set_transform`] does: for a valid `h`, only its local
    /// transform changes and its subtree joins the dirty set; otherwise
    /// nothing changes.
    pub open spec fn transform_set(before: Self, after: Self, h: NodeHandle, transform: T) -> bool {
        &&& after.root_handle() == before.root_handle()
        &&& after.identity_transform() == before.identity_transform()
        &&& after.identity_matrix() == before.identity_matrix()
        &&& !before.contains(h) ==> after.nodes() == before.nodes() && after.dirty_list() == before.dirty_list()
        &&& before.contains(h) ==> {
            &&& after.nodes() == before.nodes().update(h.0 as int, SceneNode { transform, ..before.node(h) })
            &&& after.dirty() == before.dirty().union(before.subtree(h))
        }
    }

    /// Replaces the local transform of `h` and marks its subtree dirty. A
    /// handle that names no node is ignored: on the per-frame path callers
    /// have already looked the node up.
    pub fn set_transform(&mut self, h: NodeHandle, transform: T)
        requires
            old(self).wf(),
        ensures
            final(self).wf(),
            Self::transform_set(*old(self), *final(self), h, transform),
    {
        if h.0 < self.nodes.len() {
            let ghost before = *self;
            self.nodes[h.0].transform = transform;
            proof {
                let changed = SceneNode { transform, ..before.node(h) };
                assert(self.nodes() =~= before.nodes().update(h.0 as int, changed));
                self.lemma_same_links(before);
            }
            let ghost mid = *self;
            self.mark_transform_dirty(h);
            proof {
                mid.lemma_same_links_subtree(before, h);
            }
        }
    }

    /// Attaches `model` to `h`; dirty state is untouched. A handle that names
    /// no node is ignored.
    pub fn set_model(&mut self, h: NodeHandle, model: D)
        requires
            old(self).wf(),
        ensures
            final(self).wf(),
            final(self).root_handle() == old(self).root_handle(),
            final(self).identity_transform() == old(self).identity_transform(),
            final(self).identity_matrix() == old(self).identity_matrix(),
            final(self).dirty_list() == old(self).dirty_list(),
            !old(self).contains(h) ==> final(self).nodes() == old(self).nodes(),
            old(self).contains(h) ==> final(self).nodes() == old(self).nodes().update(
                h.0 as int,
                SceneNode { model: Some(model), ..old(self).node(h) },
            ),
    {
        if h.0 < self.nodes.len() {
            let ghost before = *self;
            self.nodes[h.0].model = Some(model);
            proof {
                assert(self.nodes() =~= before.nodes().update(
                    h.0 as int,
                    SceneNode { model: Some(model), ..before.node(h) },
                ));
                self.lemma_same_links(before);
            }
        }
    }

    /// Attaches a clone of `model` to `h`, or fails with `InvalidHandle` and
    /// changes nothing when `h` names no node. Dirty state is untouched.
    pub fn set_model_ref(&mut self, h: NodeHandle, model: &D) -> (r: Result<(), SceneError>)
        where
            D: Clone,
        requires
            old(self).wf(),
        ensures
            final(self).wf(),
            final(self).root_handle() == old(self).root_handle(),
            final(self).identity_transform() == old(self).identity_transform(),
            final(self).identity_matrix() == old(self).identity_matrix(),
            final(self).dirty_list() == old(self).dirty_list(),
            r is Ok <==> old(self).contains(h),
            r == Err::<(), SceneError>(SceneError::InvalidHandle) <==> !old(self).contains(h),
            !old(self).contains(h) ==> final(self).nodes() == old(self).nodes(),
            old(self).contains(h) ==> exists|m: D| #[trigger] cloned(*model, m)
                && final(self).nodes() == old(self).nodes().update(
                    h.0 as int,
                    SceneNode { model: Some(m), ..old(self).node(h) },
                ),
    {
        if h.0 < self.nodes.len() {
            let m = model.clone();
            self.set_model(h, m);
            proof {
                assert(cloned(*model, m));
            }
            Ok(())
        } else {
            Err(SceneError::InvalidHandle)
        }
    }

    // Recomputing world transforms.

    /// `a` and `b` differ at most in their world transform.
    pub open spec fn same_but_world(a: SceneNode<T, M, D>, b: SceneNode<T, M, D>) -> bool {
        &&& a.name == b.name
        &&& a.transform == b.transform
        &&& a.parent == b.parent
        &&& a.children == b.children
        &&& a.model == b.model
        &&& a.instances == b.instances
        &&& a.visible == b.visible
    }

    /// `self` has the nodes, links and settings of `other`; world transforms
    /// and the dirty set may differ.
    pub open spec fn same_shape(&self, other: Self) -> bool {
        &&& self.nodes().len() == other.nodes().len()
        &&& self.root_handle() == other.root_handle()
        &&& self.identity_transform() == other.identity_transform()
        &&& self.identity_matrix() == other.identity_matrix()
        &&& forall|h: NodeHandle| #[trigger] other.contains(h) ==> Self::same_but_world(self.node(h), other.node(h))
    }

    /// The world transform of `h` is what `compose` returns for `parent_world`
    /// and the local transform of `h` when `h` is `start`, and otherwise for
    /// the world transform of its parent and its local transform.
    pub open spec fn fits_below<F: Fn(M, T) -> M>(
        &self,
        compose: F,
        start: NodeHandle,
        parent_world: M,
        h: NodeHandle,
    ) -> bool {
        let n = self.node(h);
        if h == start {
            compose.ensures((parent_world, n.transform), n.world_transform)
        } else {
            match n.parent {
                Some(p) => compose.ensures((self.node(p).world_transform, n.transform), n.world_transform),
                None => false,
            }
        }
    }

    /// The world transform of `h` is what `compose` returns for the world
    /// transform of its parent (the identity matrix for the root) and the
    /// local transform of `h`.
    pub open spec fn world_fits<F: Fn(M, T) -> M>(&self, compose: F, h: NodeHandle) -> bool {
        self.fits_below(compose, self.root_handle(), self.identity_matrix(), h)
    }

    /// What [`Self::update_transforms`] does: with a non-empty dirty set,
    /// every node of the root's subtree gets a world transform that fits its
    /// parent's, the others keep theirs; with an empty one nothing changes.
    /// Either way only world transforms change, and the dirty set ends empty.
    pub open spec fn recomputed<F: Fn(M, T) -> M>(before: Self, after: Self, compose: F) -> bool {
        &&& after.same_shape(before)
        &&& after.dirty().is_empty()
        &&& before.dirty().is_empty() ==> after.nodes() == before.nodes()
            && after.dirty_list() == before.dirty_list()
        &&& !before.dirty().is_empty() ==> forall|h: NodeHandle| #[trigger] before.contains(h) ==> {
            if before.descends(before.root_handle(), h) {
                after.world_fits(compose, h)
            } else {
                after.node(h).world_transform == before.node(h).world_transform
            }
        }
    }

    /// Recomputes world transforms when anything is dirty, then empties the
    /// dirty set. The walk starts at the root and reaches its whole subtree,
    /// whether or not each node was marked: every node reached gets
    /// `compose(parent_world, local)`, the root `compose(identity, local)`.
    /// Nodes outside the root's subtree keep their world transform. With an
    /// empty dirty set nothing changes.
    pub fn update_transforms<F: Fn(M, T) -> M>(&mut self, compose: F)
        requires
            old(self).wf(),
            forall|pw: M, l: T| #[trigger] compose.requires((pw, l)),
        ensures
            final(self).wf(),
            Self::recomputed(*old(self), *final(self), compose),
    {
        if self.dirty_transforms.len() == 0 {
            proof {
                assert(self.dirty_list() =~= Seq::<NodeHandle>::empty());
                assert(self.dirty() =~= Set::<NodeHandle>::empty());
            }
            return;
        }
        proof {
            assert(self.dirty().contains(self.dirty_list()[0]));
        }
        let ghost before = *self;
        let root = self.root;
        self.update_node_transform(root, self.identity_matrix, compose);
        self.dirty_transforms.clear();
        proof {
            assert(self.dirty() =~= Set::<NodeHandle>::empty());
            assert forall|x: NodeHandle| #[trigger] self.contains(x) implies {
                &&& self.node(x).children@.no_duplicates()
                &&& (forall|k: int| 0 <= k < self.node(x).children@.len()
                    ==> self.contains(#[trigger] self.node(x).children@[k]))
                &&& (self.node(x).parent matches Some(p) ==> self.contains(p))
            } by {
                assert(before.contains(x));
            }
            assert forall|p: NodeHandle, c: NodeHandle| self.contains(p) && self.contains(c) implies
                (#[trigger] self.is_child(p, c) <==> self.node(c).parent == Some(p)) by {
                assert(before.contains(p) && before.contains(c));
                assert(before.is_child(p, c) == self.is_child(p, c));
            }
            assert forall|a: NodeHandle, b: NodeHandle| #[trigger] self.is_child(a, b) <==> before.is_child(a, b) by {
                if before.contains(a) {
                    assert(self.node(a).children == before.node(a).children);
                }
            }
            self.lemma_same_links_ranked(before);
        }
    }

    /// Recomputes the world transforms of the subtree of `start`: `start`
    /// gets `compose(parent_world, local)`, every node below it
    /// `compose(parent's world, local)`, parents before children. Nodes
    /// outside the subtree, and everything but world transforms, stay as they
    /// are; a handle that names no node changes nothing.
    pub fn update_node_transform<F: Fn(M, T) -> M>(&mut self, start: NodeHandle, parent_world: M, compose: F)
        requires
            old(self).wf(),
            forall|pw: M, l: T| #[trigger] compose.requires((pw, l)),
        ensures
            final(self).wf(),
            final(self).same_shape(*old(self)),
            final(self).dirty_list() == old(self).dirty_list(),
            final(self).ranks() == old(self).ranks(),
            !old(self).contains(start) ==> final(self).nodes() == old(self).nodes(),
            old(self).contains(start) ==> forall|h: NodeHandle| #[trigger] old(self).contains(h) ==> {
                if old(self).descends(start, h) {
                    final(self).fits_below(compose, start, parent_world, h)
                } else {
                    final(self).node(h).world_transform == old(self).node(h).world_transform
                }
            },
    {
        if start.0 >= self.nodes.len() {
            return;
        }
        let ghost before = *self;
        let w0 = compose(parent_world, self.nodes[start.0].transform);
        self.nodes[start.0].world_transform = w0;
        let mut order: Vec<NodeHandle> = Vec::new();
        order.push(start);
        let mut i: usize = 0;
        proof {
            before.lemma_descends_refl(start);
            assert(order@[0] == start);
            assert(order@.contains(start));
            assert forall|x: NodeHandle| #[trigger] before.contains(x) && x != start implies
                !(order@.contains(x)) && self.node(x) == before.node(x) by {
                assert(x.0 != start.0);
            }
        }
        while i < order.len()
            invariant
                before.wf(),
                before.contains(start),
                self.same_shape(before),
                self.dirty_list() == before.dirty_list(),
                self.ranks() == before.ranks(),
                forall|pw: M, l: T| #[trigger] compose.requires((pw, l)),
                0 <= i <= order@.len(),
                order@.len() > 0,
                order@.no_duplicates(),
                order@[0] == start,
                forall|k: int| 0 <= k < order@.len() ==> before.contains(#[trigger] order@[k]),
                forall|k: int| 0 <= k < order@.len() ==> before.descends(start, #[trigger] order@[k]),
                forall|x: NodeHandle| #[trigger] before.contains(x) && x != start ==>
                    (order@.contains(x) <==> (before.node(x).parent matches Some(q) && order@.take(i as int).contains(q))),
                forall|x: NodeHandle| #[trigger] before.contains(x) && order@.contains(x) ==>
                    self.fits_below(compose, start, parent_world, x),
                forall|x: NodeHandle| #[trigger] before.contains(x) && !order@.contains(x) ==>
                    self.node(x).world_transform == before.node(x).world_transform,
                forall|x: NodeHandle| #[trigger] before.contains(x) && x != start && order@.contains(x) ==>
                    (before.node(x).parent matches Some(q) && order@.contains(q)),
            decreases before.nodes().len() - i,
        {
            proof {
                lemma_distinct_handles_bounded(order@, before.nodes().len());
            }
            let p = order[i];
            let ghost base = order@;
            let ghost added: Seq<NodeHandle> = Seq::empty();
            let mut j: usize = 0;
            proof {
                assert(order@ =~= base + added);
            }
            while j < self.nodes[p.0].children.len()
                invariant
                    before.wf(),
                    before.contains(start),
                    self.same_shape(before),
                    self.dirty_list() == before.dirty_list(),
                    self.ranks() == before.ranks(),
                    forall|pw: M, l: T| #[trigger] compose.requires((pw, l)),
                    0 <= i < base.len(),
                    p == base[i as int],
                    base.no_duplicates(),
                    base[0] == start,
                    before.contains(p),
                    before.descends(start, p),
                    0 <= j <= before.node(p).children@.len(),
                    order@ == base + added,
                    order@.no_duplicates(),
                    forall|y: NodeHandle| #[trigger] added.contains(y) <==>
                        (before.node(p).children@.take(j as int).contains(y) && y != start),
                    forall|k: int| 0 <= k < order@.len() ==> before.contains(#[trigger] order@[k]),
                    forall|k: int| 0 <= k < order@.len() ==> before.descends(start, #[trigger] order@[k]),
                    forall|x: NodeHandle| #[trigger] before.contains(x) && x != start ==>
                        (base.contains(x) <==> (before.node(x).parent matches Some(q) && base.take(i as int).contains(q))),
                    forall|x: NodeHandle| #[trigger] before.contains(x) && order@.contains(x) ==>
                        self.fits_below(compose, start, parent_world, x),
                    forall|x: NodeHandle| #[trigger] before.contains(x) && !order@.contains(x) ==>
                        self.node(x).world_transform == before.node(x).world_transform,
                    forall|x: NodeHandle| #[trigger] before.contains(x) && x != start && order@.contains(x) ==>
                        (before.node(x).parent matches Some(q) && order@.contains(q)),
                decreases before.node(p).children@.len() - j,
            {
                let c = self.nodes[p.0].children[j];
                let ghost kids = before.node(p).children@;
                proof {
                    assert(self.node(p).children@ == kids);
                    assert(kids[j as int] == c);
                    assert(kids.take(j + 1) =~= kids.take(j as int).push(c));
                    assert(before.contains(c));
                    assert(before.is_child(p, c));
                    assert(before.node(c).parent == Some(p));
                }
                if c.0 != start.0 {
                    proof {
                        // `c` is not listed yet: its parent is only now being processed.
                        if base.contains(c) {
                            assert(base.take(i as int).contains(p));
                            let k = base.take(i as int).index_of(p);
                            assert(base[k] == p);
                        }
                        if added.contains(c) {
                            let k = kids.take(j as int).index_of(c);
                            assert(kids[k] == kids[j as int]);
                        }
                        if order@.contains(c) {
                            let k = order@.index_of(c);
                            if k < base.len() {
                                assert(base[k] == c);
                            } else {
                                assert(added[k - base.len()] == c);
                            }
                        }
                        assert(order@.contains(p)) by {
                            assert(order@[i as int] == p);
                        }
                    }
                    let w = compose(self.nodes[p.0].world_transform, self.nodes[c.0].transform);
                    let ghost prev = *self;
                    self.nodes[c.0].world_transform = w;
                    let ghost order_prev = order@;
                    order.push(c);
                    proof {
                        let added_prev = added;
                        added = added.push(c);
                        assert(order@ =~= base + added);
                        assert(kids.take(j + 1)[j as int] == c);
                        assert(c != start);
                        assert forall|y: NodeHandle| #[trigger] added.contains(y) <==>
                            (kids.take(j + 1).contains(y) && y != start) by {
                            if added.contains(y) && y != c {
                                let k = added.index_of(y);
                                assert(added_prev[k] == y);
                            }
                            if added_prev.contains(y) {
                                let k = added_prev.index_of(y);
                                assert(added[k] == y);
                            }
                            assert(added[added_prev.len() as int] == c);
                            if kids.take(j + 1).contains(y) && y != c {
                                let k = kids.take(j + 1).index_of(y);
                                assert(kids.take(j as int)[k] == y);
                            }
                            if kids.take(j as int).contains(y) {
                                let k = kids.take(j as int).index_of(y);
                                assert(kids.take(j + 1)[k] == y);
                            }
                        }
                        before.lemma_descends_step(start, p, c);
                        assert(order@[order_prev.len() as int] == c);
                        assert forall|k: int| 0 <= k < order@.len() implies
                            before.contains(#[trigger] order@[k]) && before.descends(start, order@[k]) by {
                            if k < order_prev.len() {
                                assert(order@[k] == order_prev[k]);
                            }
                        }
                        assert forall|x: NodeHandle| #[trigger] before.contains(x) && order@.contains(x) implies
                            self.fits_below(compose, start, parent_world, x) by {
                            if x != c {
                                assert(order_prev.contains(x)) by {
                                    let k = order@.index_of(x);
                                    assert(order_prev[k] == x);
                                }
                                assert(x.0 != c.0);
                                assert(self.node(x) == prev.node(x));
                                assert(prev.fits_below(compose, start, parent_world, x));
                                if x != start {
                                    let q = before.node(x).parent.unwrap();
                                    assert(order_prev.contains(q));
                                    assert(q.0 != c.0);
                                    assert(self.node(q) == prev.node(q));
                                }
                            } else {
                                assert(p.0 != c.0);
                                assert(self.node(p) == prev.node(p));
                            }
                        }
                        assert forall|x: NodeHandle| #[trigger] before.contains(x) && !order@.contains(x) implies
                            self.node(x).world_transform == before.node(x).world_transform by {
                            assert(x != c);
                            assert(x.0 != c.0);
                            if order_prev.contains(x) {
                                let k = order_prev.index_of(x);
                                assert(order@[k] == x);
                            }
                        }
                        assert forall|x: NodeHandle| #[trigger] before.contains(x) && x != start && order@.contains(x) implies
                            (before.node(x).parent matches Some(q) && order@.contains(q)) by {
                            assert(order@[i as int] == p);
                            if x != c {
                                let k = order@.index_of(x);
                                assert(order_prev[k] == x);
                                let q = before.node(x).parent.unwrap();
                                let m = order_prev.index_of(q);
                                assert(order@[m] == q);
                            }
                        }
                    }
                } else {
                    proof {
                        assert(c == NodeHandle(c.0) && start == NodeHandle(start.0));
                        assert(c == start);
                        assert(kids.take(j + 1)[j as int] == c);
                        assert forall|y: NodeHandle| #[trigger] added.contains(y) <==>
                            (kids.take(j + 1).contains(y) && y != start) by {
                            if kids.take(j + 1).contains(y) && y != c {
                                let k = kids.take(j + 1).index_of(y);
                                assert(kids.take(j as int)[k] == y);
                            }
                            if kids.take(j as int).contains(y) {
                                let k = kids.take(j as int).index_of(y);
                                assert(kids.take(j + 1)[k] == y);
                            }
                        }
                    }
                }
                j += 1;
            }
            proof {
                let kids = before.node(p).children@;
                assert(kids.take(kids.len() as int) =~= kids);
                assert(base.take(i + 1) =~= base.take(i as int).push(p));
                assert(order@.take(i + 1) =~= base.take(i + 1));
                assert forall|x: NodeHandle| #[trigger] before.contains(x) && x != start implies
                    (order@.contains(x) <==> (before.node(x).parent matches Some(q) && order@.take(i + 1).contains(q))) by {
                    if order@.contains(x) && !base.contains(x) {
                        let k = order@.index_of(x);
                        assert(added[k - base.len()] == x);
                        assert(added.contains(x));
                        assert(before.is_child(p, x));
                        assert(base.take(i + 1)[i as int] == p);
                    }
                    if let Some(q) = before.node(x).parent {
                        if order@.take(i + 1).contains(q) && !base.take(i as int).contains(q) {
                            let k = base.take(i + 1).index_of(q);
                            if k < i {
                                assert(base.take(i as int)[k] == q);
                            }
                            assert(q == p);
                            assert(before.is_child(p, x));
                            assert(added.contains(x));
                            let m = added.index_of(x);
                            assert(order@[base.len() + m] == x);
                        }
                        if base.take(i as int).contains(q) {
                            let k = base.take(i as int).index_of(q);
                            assert(order@.take(i + 1)[k] == q);
                            assert(base.contains(x));
                            let m = base.index_of(x);
                            assert(order@[m] == x);
                        }
                    }
                    if base.contains(x) {
                        let m = base.index_of(x);
                        assert(order@[m] == x);
                    }
                }
            }
            i += 1;
        }
        proof {
            let s = order@.to_set();
            assert(order@.take(i as int) =~= order@);
            assert forall|d: NodeHandle, c: NodeHandle| #[trigger] s.contains(d) && #[trigger] before.is_child(d, c)
                implies s.contains(c) by {
                assert(before.contains(c));
                assert(before.node(c).parent == Some(d));
                if c == start {
                    assert(order@[0] == start);
                }
            }
            assert(s.contains(start)) by {
                assert(order@[0] == start);
                assert(order@.contains(start));
            }
            before.lemma_closed_set_holds_subtree(s, start);
            assert forall|h: NodeHandle| #[trigger] before.contains(h) implies {
                if before.descends(start, h) {
                    self.fits_below(compose, start, parent_world, h)
                } else {
                    self.node(h).world_transform == before.node(h).world_transform
                }
            } by {
                if before.descends(start, h) {
                    assert(before.subtree(start).contains(h));
                    assert(s.contains(h));
                } else if order@.contains(h) {
                    let k = order@.index_of(h);
                    assert(before.descends(start, order@[k]));
                }
            }
            assert forall|x: NodeHandle| #[trigger] self.contains(x) implies {
                &&& self.node(x).children@.no_duplicates()
                &&& (forall|k: int| 0 <= k < self.node(x).children@.len()
                    ==> self.contains(#[trigger] self.node(x).children@[k]))
                &&& (self.node(x).parent matches Some(p) ==> self.contains(p))
            } by {
                assert(before.contains(x));
            }
            assert forall|p: NodeHandle, c: NodeHandle| self.contains(p) && self.contains(c) implies
                (#[trigger] self.is_child(p, c) <==> self.node(c).parent == Some(p)) by {
                assert(before.contains(p) && before.contains(c));
                assert(before.is_child(p, c) == self.is_child(p, c));
            }
            assert forall|d: NodeHandle, c: NodeHandle| #[trigger] self.dirty().contains(d) && #[trigger] self.is_child(d, c)
                implies self.dirty().contains(c) by {
                assert(before.is_child(d, c));
                assert(before.dirty().contains(d));
            }
            assert forall|a: NodeHandle, b: NodeHandle| #[trigger] self.is_child(a, b) <==> before.is_child(a, b) by {
                if before.contains(a) {
                    assert(self.node(a).children == before.node(a).children);
                }
            }
            self.lemma_same_links_ranked(before);
        }
    }

    // What the renderer draws.

    /// Handles, in increasing order, of the nodes among the first `k` that
    /// are visible and carry a drawable.
    pub open spec fn drawn_upto(&self, k: int) -> Seq<NodeHandle>
        decreases k,
    {
        if k <= 0 {
            Seq::empty()
        } else {
            let prev = self.drawn_upto(k - 1);
            let n = self.nodes()[k - 1];
            if n.visible && n.model is Some {
                prev.push(NodeHandle((k - 1) as usize))
            } else {
                prev
            }
        }
    }

    /// Handles, in increasing order, of all visible nodes with a drawable.
    pub open spec fn drawn(&self) -> Seq<NodeHandle> {
        self.drawn_upto(self.nodes().len() as int)
    }

    /// The visible nodes that carry a drawable, with their handles, in
    /// increasing handle order: what the renderer draws this frame.
    pub fn iter_visible_models(&self) -> (r: Vec<(NodeHandle, &SceneNode<T, M, D>)>)
        requires
            self.wf(),
        ensures
            r@.len() == self.drawn().len(),
            forall|i: int| 0 <= i < r@.len() ==> {
                &&& (#[trigger] r@[i]).0 == self.drawn()[i]
                &&& *r@[i].1 == self.node(r@[i].0)
            },
    {
        let mut r: Vec<(NodeHandle, &SceneNode<T, M, D>)> = Vec::new();
        let mut k: usize = 0;
        while k < self.nodes.len()
            invariant
                0 <= k <= self.nodes().len(),
                r@.len() == self.drawn_upto(k as int).len(),
                forall|i: int| 0 <= i < r@.len() ==> {
                    &&& (#[trigger] r@[i]).0 == self.drawn_upto(k as int)[i]
                    &&& *r@[i].1 == self.node(r@[i].0)
                },
            decreases self.nodes().len() - k,
        {
            let n = &self.nodes[k];
            if n.visible && n.model.is_some() {
                r.push((NodeHandle(k), n));
            }
            k += 1;
        }
        r
    }
}

} // verus!
