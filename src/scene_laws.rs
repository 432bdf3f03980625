//! Properties that relate several operations of the scene graph.
use vstd::prelude::*;
use crate::scene::{NodeHandle, SceneError, SceneGraph};

verus! {

/// What `compose` yields from `w` through the local transforms `locals`,
/// first to last: the world transform at the end of a chain of nodes whose
/// first parent has world transform `w`.
pub open spec fn compose_along<M, T, F: Fn(M, T) -> M>(compose: F, w: M, locals: Seq<T>) -> M
    decreases locals.len(),
{
    if locals.len() == 0 {
        w
    } else {
        let before = compose_along(compose, w, locals.drop_last());
        choose|r: M| compose.ensures((before, locals.last()), r)
    }
}

/// `compose` gives one result for each pair of arguments.
pub open spec fn deterministic<M, T, F: Fn(M, T) -> M>(compose: F) -> bool {
    forall|x: M, l: T, r1: M, r2: M| compose.ensures((x, l), r1) && compose.ensures((x, l), r2) ==> r1 == r2
}

/// Recomputing twice in a row, with no mutation in between, gives the same
/// world transforms both times and leaves the dirty set empty after each pass.
pub proof fn lemma_recompute_twice_is_stable<T: Copy, M: Copy, D, F: Fn(M, T) -> M>(
    g0: SceneGraph<T, M, D>,
    g1: SceneGraph<T, M, D>,
    g2: SceneGraph<T, M, D>,
    compose: F,
)
    requires
        g0.wf(),
        SceneGraph::recomputed(g0, g1, compose),
        SceneGraph::recomputed(g1, g2, compose),
    ensures
        g1.dirty().is_empty(),
        g2.dirty().is_empty(),
        g2.nodes() == g1.nodes(),
        forall|h: NodeHandle| #[trigger] g1.contains(h) ==> g2.node(h).world_transform == g1.node(h).world_transform,
{
}

/// Changing the local transform of a node `a` of the root's subtree and then
/// recomputing refreshes the whole subtree of `a`: `a` carries the new local
/// transform, the nodes below it keep theirs and their parents, and each of
/// them gets the world transform that `compose` gives for its parent's new
/// world transform and its local transform.
pub proof fn lemma_ancestor_change_propagates<T: Copy, M: Copy, D, F: Fn(M, T) -> M>(
    g0: SceneGraph<T, M, D>,
    g1: SceneGraph<T, M, D>,
    g2: SceneGraph<T, M, D>,
    a: NodeHandle,
    t: T,
    compose: F,
)
    requires
        g0.wf(),
        g0.contains(a),
        g0.descends(g0.root_handle(), a),
        SceneGraph::transform_set(g0, g1, a, t),
        SceneGraph::recomputed(g1, g2, compose),
    ensures
        g2.node(a).transform == t,
        forall|b: NodeHandle| #[trigger] g0.descends(a, b) ==> {
            &&& g2.world_fits(compose, b)
            &&& b != a ==> g2.node(b).transform == g0.node(b).transform
            &&& g2.node(b).parent == g0.node(b).parent
        },
{
    g0.lemma_descends_refl(a);
    assert(g1.dirty().contains(a));
    assert(!g1.dirty().is_empty());
    assert forall|x: NodeHandle, y: NodeHandle| #[trigger] g1.is_child(x, y) <==> g0.is_child(x, y) by {
        if g0.contains(x) && x != a {
            assert(g1.node(x) == g0.node(x));
        }
    }
    g1.lemma_same_links_subtree(g0, g0.root_handle());
    assert forall|b: NodeHandle| #[trigger] g0.descends(a, b) implies {
        &&& g2.world_fits(compose, b)
        &&& b != a ==> g2.node(b).transform == g0.node(b).transform
        &&& g2.node(b).parent == g0.node(b).parent
    } by {
        g0.lemma_descends_trans(g0.root_handle(), a, b);
        assert(g0.subtree(g0.root_handle()).contains(b));
        assert(g1.subtree(g1.root_handle()).contains(b));
        let path = choose|path: Seq<NodeHandle>| #[trigger] g0.is_path(path) && path[0] == a && path.last() == b;
        assert(g0.contains(path[path.len() - 1]));
        assert(g1.contains(b));
        if b != a {
            assert(g1.node(b) == g0.node(b));
        }
    }
}

/// Moving `x` under a parent `p` of the root's subtree: `x` leaves the
/// children of its former parent, appears exactly once among the children
/// of `p`, and after a recompute its world transform is what `compose` gives
/// for the world transform of `p` and the local transform of `x`.
pub proof fn lemma_reparent<T: Copy, M: Copy, D, F: Fn(M, T) -> M>(
    g0: SceneGraph<T, M, D>,
    g1: SceneGraph<T, M, D>,
    g2: SceneGraph<T, M, D>,
    x: NodeHandle,
    p: NodeHandle,
    compose: F,
)
    requires
        g0.wf(),
        SceneGraph::attached(g0, g1, x, p, Ok::<(), SceneError>(())),
        g1.wf(),
        SceneGraph::recomputed(g1, g2, compose),
        g0.descends(g0.root_handle(), p),
    ensures
        forall|op: NodeHandle| g0.node(x).parent == Some(op) && op != p ==> !g1.node(op).children@.contains(x),
        g1.node(p).children@.contains(x),
        g1.node(p).children@.no_duplicates(),
        g2.node(x).parent == Some(p),
        compose.ensures((g2.node(p).world_transform, g2.node(x).transform), g2.node(x).world_transform),
{
    let root = g0.root_handle();
    assert(g0.contains(x) && g0.contains(p));
    assert(x != root);
    assert(!g0.descends(x, p));
    g0.lemma_descends_refl(x);
    assert(g1.dirty().contains(x));
    assert(!g1.dirty().is_empty());
    if g0.node(x).parent == Some(p) {
        assert(g1.nodes() == g0.nodes());
        assert(g0.is_child(p, x));
        assert(g1.is_child(p, x));
        assert forall|u: NodeHandle, v: NodeHandle| #[trigger] g1.is_child(u, v) <==> g0.is_child(u, v) by {}
        g1.lemma_same_links_subtree(g0, root);
        assert(g0.subtree(root).contains(p));
        assert(g1.descends(root, p));
    } else {
        SceneGraph::lemma_relinked_keeps_path(g0, g1, x, p, root, p);
        assert(g1.node(p).children@ == g0.node(p).children@.push(x));
        assert(g1.node(p).children@[g1.node(p).children@.len() - 1] == x);
        if let Some(op) = g0.node(x).parent {
            assert(g0.contains(op));
            assert(g0.is_child(op, x));
            SceneGraph::<T, M, D>::lemma_remove_distinct(g0.node(op).children@, x);
        }
    }
    assert(g1.contains(p));
    assert(g1.is_child(p, x));
    g1.lemma_descends_step(root, p, x);
    assert(g1.node(x).parent == Some(p));
    assert(g1.contains(x));
}

/// Composing through two lists in a row is composing through their
/// concatenation.
pub proof fn lemma_compose_along_concat<M, T, F: Fn(M, T) -> M>(compose: F, w: M, l1: Seq<T>, l2: Seq<T>)
    ensures
        compose_along(compose, w, l1 + l2) == compose_along(compose, compose_along(compose, w, l1), l2),
    decreases l2.len(),
{
    if l2.len() == 0 {
        assert(l1 + l2 =~= l1);
    } else {
        lemma_compose_along_concat(compose, w, l1, l2.drop_last());
        assert((l1 + l2).drop_last() =~= l1 + l2.drop_last());
        assert((l1 + l2).last() == l2.last());
    }
}

/// Local transforms of the nodes of `path`, in order.
pub open spec fn locals_along<T: Copy, M: Copy, D>(g: SceneGraph<T, M, D>, path: Seq<NodeHandle>) -> Seq<T> {
    path.map_values(|h: NodeHandle| g.node(h).transform)
}

/// On a chain of nodes down from the root whose world transforms fit their
/// parents', the last world transform is the identity composed through the
/// chain's local transforms.
pub proof fn lemma_world_along_root_path<T: Copy, M: Copy, D, F: Fn(M, T) -> M>(
    g: SceneGraph<T, M, D>,
    compose: F,
    path: Seq<NodeHandle>,
    n: int,
)
    requires
        deterministic(compose),
        0 < n <= path.len(),
        path[0] == g.root_handle(),
        forall|k: int| 0 < k < path.len() ==> #[trigger] g.node(path[k]).parent == Some(path[k - 1])
            && path[k] != g.root_handle(),
        forall|k: int| 0 <= k < path.len() ==> g.world_fits(compose, #[trigger] path[k]),
    ensures
        g.node(path[n - 1]).world_transform == compose_along(compose, g.identity_matrix(), locals_along(g, path).take(n)),
    decreases n,
{
    let ls = locals_along(g, path).take(n);
    let x = path[n - 1];
    assert(ls.last() == g.node(x).transform);
    assert(g.world_fits(compose, x));
    if n == 1 {
        assert(ls.drop_last() =~= Seq::<T>::empty());
        assert(compose_along(compose, g.identity_matrix(), Seq::<T>::empty()) == g.identity_matrix());
        assert(compose.ensures((g.identity_matrix(), g.node(x).transform), g.node(x).world_transform));
    } else {
        lemma_world_along_root_path(g, compose, path, n - 1);
        assert(ls.drop_last() =~= locals_along(g, path).take(n - 1));
        assert(g.node(x).parent == Some(path[n - 2]));
        assert(x != g.root_handle());
    }
    let before = compose_along(compose, g.identity_matrix(), ls.drop_last());
    assert(compose_along(compose, g.identity_matrix(), ls) == choose|r: M| compose.ensures((before, ls.last()), r));
}

/// A path holds each node once when the links have no cycle.
proof fn lemma_path_distinct<T: Copy, M: Copy, D>(g: SceneGraph<T, M, D>, path: Seq<NodeHandle>, i: int, k: int)
    requires
        g.wf(),
        g.is_path(path),
        0 <= i < k < path.len(),
    ensures
        path[i] != path[k],
{
    if path[i] == path[k] {
        let tail = path.subrange(i + 1, k + 1);
        assert forall|j: int| 0 <= j < tail.len() - 1 implies #[trigger] g.is_child(tail[j], tail[j + 1]) by {
            assert(tail[j] == path[i + 1 + j] && tail[j + 1] == path[(i + 1 + j) + 1]);
        }
        assert forall|j: int| 0 <= j < tail.len() implies g.contains(#[trigger] tail[j]) by {
            assert(tail[j] == path[i + 1 + j]);
        }
        assert(g.is_path(tail));
        assert(tail.last() == path[i]);
        assert(g.is_child(path[i], path[i + 1]));
        assert(g.descends(path[i + 1], path[i]));
    }
}

/// Changing the local transform of `a` and recomputing replaces exactly the
/// factor of `a` in the world transform of every node `b` reached through
/// `a` from the root: with `before_a` the world transform above `a` (its
/// parent's, or the identity for the root) in an up-to-date graph, `b`'s
/// world transform goes from `before_a` composed through `a`'s old local
/// transform and the locals below it, to `before_a` composed through `t` and
/// the same locals. Stated for a deterministic `compose`.
#[verifier::rlimit(80)]
pub proof fn lemma_ancestor_change_replaces_factor<T: Copy, M: Copy, D, F: Fn(M, T) -> M>(
    g0: SceneGraph<T, M, D>,
    g1: SceneGraph<T, M, D>,
    g2: SceneGraph<T, M, D>,
    t: T,
    compose: F,
    path: Seq<NodeHandle>,
    i: int,
)
    requires
        g0.wf(),
        deterministic(compose),
        forall|h: NodeHandle| #[trigger] g0.contains(h) && g0.descends(g0.root_handle(), h)
            ==> g0.world_fits(compose, h),
        g0.is_path(path),
        path[0] == g0.root_handle(),
        0 <= i < path.len(),
        SceneGraph::transform_set(g0, g1, path[i], t),
        SceneGraph::recomputed(g1, g2, compose),
    ensures
        ({
            let l0 = locals_along(g0, path);
            let before_a = compose_along(compose, g0.identity_matrix(), l0.take(i));
            let below = l0.subrange(i + 1, path.len() as int);
            &&& i == 0 ==> before_a == g0.identity_matrix()
            &&& i > 0 ==> before_a == g0.node(path[i - 1]).world_transform
            &&& g0.node(path.last()).world_transform
                == compose_along(compose, before_a, seq![g0.node(path[i]).transform] + below)
            &&& g2.node(path.last()).world_transform == compose_along(compose, before_a, seq![t] + below)
        }),
{
    let root = g0.root_handle();
    let a = path[i];
    let len = path.len() as int;
    let l0 = locals_along(g0, path);
    // Links, and so paths and subtrees, are the same in all three graphs.
    assert forall|x: NodeHandle, y: NodeHandle| #[trigger] g1.is_child(x, y) <==> g0.is_child(x, y) by {
        if g0.contains(x) && x != a {
            assert(g1.node(x) == g0.node(x));
        }
    }
    g1.lemma_same_links_subtree(g0, root);
    assert forall|k: int| 0 <= k < len implies #[trigger] g0.descends(root, path[k]) by {
        let head = path.subrange(0, k + 1);
        assert forall|j: int| 0 <= j < head.len() - 1 implies #[trigger] g0.is_child(head[j], head[j + 1]) by {
            assert(head[j] == path[j] && head[j + 1] == path[j + 1]);
        }
        assert forall|j: int| 0 <= j < head.len() implies g0.contains(#[trigger] head[j]) by {
            assert(head[j] == path[j]);
        }
        assert(g0.is_path(head));
        assert(head[0] == root && head.last() == path[k]);
    }
    assert forall|k: int| 0 < k < len implies #[trigger] g0.node(path[k]).parent == Some(path[k - 1])
        && path[k] != root by {
        let j = k - 1;
        assert(g0.is_child(path[j], path[j + 1]));
        assert(g0.contains(path[k]));
        g0.lemma_root_has_no_ancestor(path[j]);
        if path[k] == root {
            assert(g0.node(root).parent is None);
        }
    }
    assert forall|k: int| 0 <= k < len implies g0.world_fits(compose, #[trigger] path[k]) by {
        assert(g0.descends(root, path[k]));
        assert(g0.contains(path[k]));
    }
    // The old world transforms, in closed form.
    lemma_world_along_root_path(g0, compose, path, len);
    assert(l0.take(len) =~= l0);
    assert(l0 =~= l0.take(i) + (seq![g0.node(a).transform] + l0.subrange(i + 1, len)));
    lemma_compose_along_concat(compose, g0.identity_matrix(), l0.take(i), seq![g0.node(a).transform] + l0.subrange(i + 1, len));
    if i > 0 {
        lemma_world_along_root_path(g0, compose, path, i);
    } else {
        assert(l0.take(0) =~= Seq::<T>::empty());
    }
    // The new ones: every node of the path is recomputed, and only `a` has a
    // new local transform.
    g0.lemma_descends_refl(a);
    assert(g1.dirty().contains(a));
    assert(!g1.dirty().is_empty());
    assert(g2.root_handle() == root && g2.identity_matrix() == g0.identity_matrix());
    assert forall|k: int| 0 < k < len implies #[trigger] g2.node(path[k]).parent == Some(path[k - 1])
        && path[k] != g2.root_handle() by {
        assert(g0.contains(path[k]));
        assert(g1.contains(path[k]));
        assert(SceneGraph::same_but_world(g2.node(path[k]), g1.node(path[k])));
        assert(g2.node(path[k]).parent == g1.node(path[k]).parent);
        if path[k] != a {
            assert(g1.node(path[k]) == g0.node(path[k]));
        }
    }
    assert forall|k: int| 0 <= k < len implies g2.world_fits(compose, #[trigger] path[k]) by {
        assert(g0.descends(root, path[k]));
        assert(g0.subtree(root).contains(path[k]));
        assert(g1.subtree(g1.root_handle()).contains(path[k]));
        assert(g1.contains(path[k]));
    }
    lemma_world_along_root_path(g2, compose, path, len);
    let l2 = locals_along(g2, path);
    assert(l2.take(len) =~= l2);
    assert forall|k: int| 0 <= k < len implies #[trigger] l2[k] == (if k == i { t } else { l0[k] }) by {
        assert(g0.contains(path[k]));
        assert(g1.contains(path[k]));
        assert(SceneGraph::same_but_world(g2.node(path[k]), g1.node(path[k])));
        assert(l2[k] == g2.node(path[k]).transform);
        assert(l0[k] == g0.node(path[k]).transform);
        if k == i {
            assert(g1.node(a).transform == t);
        } else {
            if k < i {
                lemma_path_distinct(g0, path, k, i);
            } else {
                lemma_path_distinct(g0, path, i, k);
            }
            assert(path[k].0 != a.0);
            assert(g1.node(path[k]) == g0.node(path[k]));
        }
    }
    assert(l2 =~= l0.take(i) + (seq![t] + l0.subrange(i + 1, len)));
    lemma_compose_along_concat(compose, g0.identity_matrix(), l0.take(i), seq![t] + l0.subrange(i + 1, len));
}

} // verus!
