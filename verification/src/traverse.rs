//! The traversal: a depth-first walk from the prims below the root that sorts
//! prims into leaves and point instancers.
//!
//! The walk keeps a work stack, which starts with the prims that the edges
//! from the root lead to. A prim taken from it is discarded if its path is
//! pruned, recorded if it is a point instancer, recorded as a leaf if no edge
//! from it leads to an unpruned prim, and otherwise replaced on the stack by
//! the unpruned prims that its edges lead to. A prim is recorded once, where
//! the walk first finds it.

use crate::classify::{
    is_in_prototypes_subtree, is_instancer_type, is_point_instancer, is_pruned,
    lemma_pruned_iff_under_prototypes, under_prototypes,
};
use crate::scene::{Scene, SceneModel};
use vstd::prelude::*;

verus! {

/// The path of prim `n` is pruned.
pub open spec fn pruned(m: SceneModel, n: int) -> bool {
    is_pruned(m.prims[n].path)
}

/// Prim `n` is a point instancer.
pub open spec fn instancer(m: SceneModel, n: int) -> bool {
    is_instancer_type(m.prims[n].prim_type)
}

/// An edge leads from prim `p` to prim `c`.
pub open spec fn edge(m: SceneModel, p: int, c: int) -> bool {
    m.has(p) && m.has(c) && m.prims[p].children.contains(c as usize)
}

/// No edge from prim `n` leads to an unpruned prim.
pub open spec fn childless(m: SceneModel, n: int) -> bool {
    forall|k: int|
        0 <= k < m.prims[n].children.len() ==> pruned(m, #[trigger] m.prims[n].children[k] as int)
}

/// The walk comes by prim `n`: an edge leads to it from the root, or from a
/// visited prim that is no point instancer.
pub open spec fn in_reach(m: SceneModel, n: int) -> bool
    decreases n, 0int,
{
    exists|p: int|
        0 <= p < n && #[trigger] edge(m, p, n) && (p == 0 || (visited(m, p) && !instancer(m, p)))
}

/// The walk takes prim `n` from its work stack and does not discard it.
pub open spec fn visited(m: SceneModel, n: int) -> bool
    decreases n, 1int,
{
    0 < n < m.prims.len() && !pruned(m, n) && in_reach(m, n)
}

/// Prim `n` belongs to the leaves: it is visited, is no point instancer, and
/// has no unpruned prim below it.
pub open spec fn is_leaf(m: SceneModel, n: int) -> bool {
    visited(m, n) && !instancer(m, n) && childless(m, n)
}

/// Prim `n` belongs to the instancers: it is visited and is a point instancer.
pub open spec fn is_instancer(m: SceneModel, n: int) -> bool {
    visited(m, n) && instancer(m, n)
}

/// `leaves` and `instancers` are what a traversal of `m` yields, in some
/// order: each list holds exactly the prims of its class, each of them once.
pub open spec fn classifies(m: SceneModel, leaves: Seq<usize>, instancers: Seq<usize>) -> bool {
    &&& leaves.no_duplicates()
    &&& instancers.no_duplicates()
    &&& forall|n: usize| leaves.contains(n) <==> is_leaf(m, n as int)
    &&& forall|n: usize| instancers.contains(n) <==> is_instancer(m, n as int)
}

/// The paths of the prims that a list of handles names.
pub open spec fn paths_of(m: SceneModel, handles: Seq<usize>) -> Seq<Seq<char>> {
    Seq::new(handles.len(), |k: int| m.prims[handles[k] as int].path)
}

/// What the walk records from the moment it takes prim `n` from its stack
/// until the stack is as low again as it was then: the instancers where
/// `instancers` is set, else the leaves, each as often as the walk finds it.
pub open spec fn found_from(m: SceneModel, n: int, instancers: bool) -> Seq<usize>
    decreases m.prims.len() - n, m.prims[n].children.len() + 1,
{
    if !m.has(n) || pruned(m, n) {
        Seq::empty()
    } else if instancer(m, n) {
        if instancers {
            seq![n as usize]
        } else {
            Seq::empty()
        }
    } else if childless(m, n) {
        if instancers {
            Seq::empty()
        } else {
            seq![n as usize]
        }
    } else {
        found_below(m, n, m.prims[n].children.len(), instancers)
    }
}

/// What the walk records on account of the first `k` edges from prim `n`. It
/// follows the last of them first.
pub open spec fn found_below(m: SceneModel, n: int, k: nat, instancers: bool) -> Seq<usize>
    decreases m.prims.len() - n, k,
{
    if m.has(n) && 0 < k <= m.prims[n].children.len() {
        let c = m.prims[n].children[k - 1] as int;
        (if n < c < m.prims.len() {
            found_from(m, c, instancers)
        } else {
            Seq::empty()
        }) + found_below(m, n, (k - 1) as nat, instancers)
    } else {
        Seq::empty()
    }
}

/// All that the walk records, in the order in which it does.
pub open spec fn found(m: SceneModel, instancers: bool) -> Seq<usize> {
    found_below(m, 0, m.prims[0].children.len(), instancers)
}

/// A list without its repeats: each item stays where it first stands.
pub open spec fn first_occurrences(s: Seq<usize>) -> Seq<usize>
    decreases s.len(),
{
    if s.len() == 0 {
        Seq::empty()
    } else if s.drop_last().contains(s.last()) {
        first_occurrences(s.drop_last())
    } else {
        first_occurrences(s.drop_last()).push(s.last())
    }
}

/// No path in or below a prim named `Prototypes` is among the results of a
/// traversal, and every result is a prim of the scene other than the root.
pub proof fn lemma_results_outside_prototypes(
    m: SceneModel,
    leaves: Seq<usize>,
    instancers: Seq<usize>,
)
    requires
        classifies(m, leaves, instancers),
    ensures
        forall|k: int|
            0 <= k < leaves.len() ==> 0 < #[trigger] leaves[k] < m.prims.len() && !under_prototypes(
                paths_of(m, leaves)[k],
            ),
        forall|k: int|
            0 <= k < instancers.len() ==> 0 < #[trigger] instancers[k] < m.prims.len()
                && !under_prototypes(paths_of(m, instancers)[k]),
{
    assert forall|k: int| 0 <= k < leaves.len() implies 0 < #[trigger] leaves[k] < m.prims.len()
        && !under_prototypes(paths_of(m, leaves)[k]) by {
        assert(leaves.contains(leaves[k]));
        lemma_pruned_iff_under_prototypes(m.prims[leaves[k] as int].path);
    }
    assert forall|k: int| 0 <= k < instancers.len() implies 0 < #[trigger] instancers[k]
        < m.prims.len() && !under_prototypes(paths_of(m, instancers)[k]) by {
        assert(instancers.contains(instancers[k]));
        lemma_pruned_iff_under_prototypes(m.prims[instancers[k] as int].path);
    }
}

/// Each path among the results of a traversal stands there once, however
/// many edges lead to its prim.
pub proof fn lemma_result_paths_once(m: SceneModel, leaves: Seq<usize>, instancers: Seq<usize>)
    requires
        m.wf(),
        classifies(m, leaves, instancers),
    ensures
        paths_of(m, leaves).no_duplicates(),
        paths_of(m, instancers).no_duplicates(),
{
    assert forall|i: int, j: int|
        0 <= i < leaves.len() && 0 <= j < leaves.len() && i != j implies paths_of(m, leaves)[i]
        != paths_of(m, leaves)[j] by {
        assert(leaves.contains(leaves[i]) && leaves.contains(leaves[j]));
        lemma_distinct_paths(m, leaves[i] as int, leaves[j] as int);
    }
    assert forall|i: int, j: int|
        0 <= i < instancers.len() && 0 <= j < instancers.len() && i != j implies paths_of(
        m,
        instancers,
    )[i] != paths_of(m, instancers)[j] by {
        assert(instancers.contains(instancers[i]) && instancers.contains(instancers[j]));
        lemma_distinct_paths(m, instancers[i] as int, instancers[j] as int);
    }
}

/// Two traversals of one scene yield the same leaves and the same
/// instancers, as sets and in number.
pub proof fn lemma_traversal_repeatable(
    m: SceneModel,
    leaves: Seq<usize>,
    instancers: Seq<usize>,
    leaves_again: Seq<usize>,
    instancers_again: Seq<usize>,
)
    requires
        classifies(m, leaves, instancers),
        classifies(m, leaves_again, instancers_again),
    ensures
        leaves.to_set() == leaves_again.to_set(),
        instancers.to_set() == instancers_again.to_set(),
        leaves.len() == leaves_again.len(),
        instancers.len() == instancers_again.len(),
{
    assert(leaves.to_set() =~= leaves_again.to_set());
    assert(instancers.to_set() =~= instancers_again.to_set());
    leaves.unique_seq_to_set();
    leaves_again.unique_seq_to_set();
    instancers.unique_seq_to_set();
    instancers_again.unique_seq_to_set();
}

/// No prim is both a leaf and an instancer.
pub proof fn lemma_classes_disjoint(m: SceneModel, n: int)
    ensures
        !(is_leaf(m, n) && is_instancer(m, n)),
{
}

/// The walk does not go below a point instancer: a prim that edges lead to
/// from point instancers and unvisited prims alone, and not from the root,
/// is not visited.
pub proof fn lemma_closed_off_is_unvisited(m: SceneModel, n: int)
    requires
        forall|p: int| #[trigger] edge(m, p, n) ==> p != 0 && (instancer(m, p) || !visited(m, p)),
    ensures
        !visited(m, n),
        !is_leaf(m, n),
        !is_instancer(m, n),
{
}

/// A list without its repeats holds the items of the list, each once.
pub proof fn lemma_first_occurrences(s: Seq<usize>)
    ensures
        first_occurrences(s).no_duplicates(),
        forall|x: usize| first_occurrences(s).contains(x) <==> s.contains(x),
    decreases s.len(),
{
    if s.len() > 0 {
        let init = s.drop_last();
        lemma_first_occurrences(init);
        lemma_push_keeps(first_occurrences(init), s.last());
        lemma_push_keeps(init, s.last());
        assert(init.push(s.last()) =~= s);
        assert forall|x: usize| first_occurrences(s).contains(x) <==> s.contains(x) by {
            assert(first_occurrences(init).contains(x) <==> init.contains(x));
            assert(init.push(s.last()).contains(x) <==> init.contains(x) || x == s.last());
        }
    } else {
        assert forall|x: usize| !s.contains(x) by {}
    }
}

/// Two prims of a scene have two paths.
proof fn lemma_distinct_paths(m: SceneModel, i: int, j: int)
    requires
        m.wf(),
        m.has(i),
        m.has(j),
        i != j,
    ensures
        m.prims[i].path != m.prims[j].path,
{
    if i < j {
        assert(m.prims[i].path != m.prims[j].path);
    } else {
        assert(m.prims[j].path != m.prims[i].path);
    }
}

/// What a list holds after a push: what it held, and the new item.
proof fn lemma_push_keeps(s: Seq<usize>, x: usize)
    ensures
        forall|y: usize| s.push(x).contains(y) <==> s.contains(y) || y == x,
        s.no_duplicates() && !s.contains(x) ==> s.push(x).no_duplicates(),
{
    assert forall|y: usize| s.push(x).contains(y) implies s.contains(y) || y == x by {
        let k = choose|k: int| 0 <= k < s.push(x).len() && s.push(x)[k] == y;
        if k < s.len() {
            assert(s[k] == y);
        }
    }
    assert forall|y: usize| s.contains(y) || y == x implies s.push(x).contains(y) by {
        if s.contains(y) {
            let k = choose|k: int| 0 <= k < s.len() && s[k] == y;
            assert(s.push(x)[k] == y);
        } else {
            assert(s.push(x)[s.len() as int] == y);
        }
    }
}

/// The number of times the walk takes a prim from its stack at most, once
/// prim `n` is on it, on account of `n`.
spec fn weight(m: SceneModel, n: int) -> nat
    decreases m.prims.len() - n, m.prims[n].children.len() + 1,
{
    if m.has(n) {
        1 + weight_below(m, n, m.prims[n].children.len())
    } else {
        0
    }
}

/// The weights of the prims that the first `k` edges from prim `n` lead to,
/// added up.
spec fn weight_below(m: SceneModel, n: int, k: nat) -> nat
    decreases m.prims.len() - n, k,
{
    if m.has(n) && 0 < k <= m.prims[n].children.len() {
        let c = m.prims[n].children[k - 1] as int;
        weight_below(m, n, (k - 1) as nat) + if n < c < m.prims.len() {
            weight(m, c)
        } else {
            0
        }
    } else {
        0
    }
}

/// The weights of the prims on a stack, added up.
spec fn stack_weight(m: SceneModel, stack: Seq<usize>) -> nat
    decreases stack.len(),
{
    if stack.len() == 0 {
        0
    } else {
        stack_weight(m, stack.drop_last()) + weight(m, stack.last() as int)
    }
}

/// What the walk has yet to record on account of the prims on its stack,
/// taken from the top down.
spec fn pending(m: SceneModel, stack: Seq<usize>, instancers: bool) -> Seq<usize>
    decreases stack.len(),
{
    if stack.len() == 0 {
        Seq::empty()
    } else {
        found_from(m, stack.last() as int, instancers) + pending(m, stack.drop_last(), instancers)
    }
}

/// A prim put on the stack is dealt with before all that the stack held.
proof fn lemma_pending_push(m: SceneModel, stack: Seq<usize>, c: usize, instancers: bool)
    ensures
        pending(m, stack.push(c), instancers) == found_from(m, c as int, instancers) + pending(
            m,
            stack,
            instancers,
        ),
{
    assert(stack.push(c).drop_last() =~= stack);
}

/// Where every unpruned prim in reach of the root or of a handled prim has
/// been handled itself, every visited prim has been handled.
proof fn lemma_visited_is_handled(m: SceneModel, handled: Set<int>, n: int)
    requires
        forall|p: int, c: int|
            #[trigger] edge(m, p, c) && (p == 0 || (handled.contains(p) && !instancer(m, p)))
                && !pruned(m, c) ==> handled.contains(c),
        visited(m, n),
    ensures
        handled.contains(n),
    decreases n,
{
    let p = choose|p: int|
        0 <= p < n && #[trigger] edge(m, p, n) && (p == 0 || (visited(m, p) && !instancer(m, p)));
    if p != 0 {
        lemma_visited_is_handled(m, handled, p);
    }
}

/// Walks the scene from the prims below the root and returns the handles of
/// the leaves and of the point instancers. Each list holds the prims of its
/// class, each once, in the order in which the walk first finds them.
pub fn collect_leaves_and_instancers(scene: &Scene) -> (r: (Vec<usize>, Vec<usize>))
    requires
        scene@.wf(),
    ensures
        classifies(scene@, r.0@, r.1@),
        r.0@ == first_occurrences(found(scene@, false)),
        r.1@ == first_occurrences(found(scene@, true)),
        forall|k: int|
            0 <= k < r.0.len() ==> 0 < #[trigger] r.0@[k] < scene@.prims.len() && !under_prototypes(
                paths_of(scene@, r.0@)[k],
            ),
        forall|k: int|
            0 <= k < r.1.len() ==> 0 < #[trigger] r.1@[k] < scene@.prims.len() && !under_prototypes(
                paths_of(scene@, r.1@)[k],
            ),
        paths_of(scene@, r.0@).no_duplicates(),
        paths_of(scene@, r.1@).no_duplicates(),
{
    let n = scene.len();
    let mut leaves: Vec<usize> = Vec::new();
    let mut instancers: Vec<usize> = Vec::new();
    let mut seen_leaf: Vec<bool> = vec![false; n];
    let mut seen_inst: Vec<bool> = vec![false; n];
    let mut stack: Vec<usize> = Vec::new();
    let ghost m = scene@;
    let ghost mut handled: Set<int> = Set::empty();
    let ghost mut leaf_finds: Seq<usize> = Seq::empty();
    let ghost mut inst_finds: Seq<usize> = Seq::empty();

    let roots = scene.children(0);
    let mut i: usize = 0;
    while i < roots.len()
        invariant
            m == scene@,
            m.wf(),
            roots@ == m.prims[0].children,
            i <= roots.len(),
            stack@ == roots@.take(i as int),
            pending(m, stack@, false) == found_below(m, 0, i as nat, false),
            pending(m, stack@, true) == found_below(m, 0, i as nat, true),
        decreases roots.len() - i,
    {
        proof {
            lemma_pending_push(m, stack@, roots@[i as int], false);
            lemma_pending_push(m, stack@, roots@[i as int], true);
        }
        stack.push(roots[i]);
        proof {
            assert(roots@.take(i + 1) =~= roots@.take(i as int).push(roots@[i as int]));
        }
        i += 1;
    }
    proof {
        assert(roots@.take(roots.len() as int) =~= roots@);
        assert forall|k: int| 0 <= k < stack.len() implies 0 < #[trigger] stack@[k] < n
            && in_reach(m, stack@[k] as int) by {
            assert(edge(m, 0, stack@[k] as int));
        }
        assert(leaf_finds + pending(m, stack@, false) =~= found(m, false));
        assert(inst_finds + pending(m, stack@, true) =~= found(m, true));
    }

    while stack.len() > 0
        invariant
            m == scene@,
            m.wf(),
            n == m.prims.len(),
            seen_leaf.len() == n,
            seen_inst.len() == n,
            forall|k: int|
                0 <= k < stack.len() ==> 0 < #[trigger] stack@[k] < n && in_reach(
                    m,
                    stack@[k] as int,
                ),
            leaves@.no_duplicates(),
            instancers@.no_duplicates(),
            forall|x: usize| x < n ==> (seen_leaf@[x as int] <==> leaves@.contains(x)),
            forall|x: usize| x < n ==> (seen_inst@[x as int] <==> instancers@.contains(x)),
            forall|x: usize| leaves@.contains(x) ==> is_leaf(m, x as int),
            forall|x: usize| instancers@.contains(x) ==> is_instancer(m, x as int),
            forall|x: int|
                handled.contains(x) ==> {
                    &&& visited(m, x)
                    &&& instancer(m, x) ==> instancers@.contains(x as usize)
                    &&& is_leaf(m, x) ==> leaves@.contains(x as usize)
                },
            forall|p: int, c: int|
                #[trigger] edge(m, p, c) && (p == 0 || (handled.contains(p) && !instancer(m, p)))
                    && !pruned(m, c) ==> handled.contains(c) || stack@.contains(c as usize),
            leaves@ == first_occurrences(leaf_finds),
            instancers@ == first_occurrences(inst_finds),
            found(m, false) == leaf_finds + pending(m, stack@, false),
            found(m, true) == inst_finds + pending(m, stack@, true),
        decreases stack_weight(m, stack@),
    {
        let ghost before = stack@;
        let prim = stack.pop().unwrap();
        proof {
            assert(before.drop_last() =~= stack@);
            assert(before.last() == prim);
            assert forall|c: usize| before.contains(c) implies stack@.contains(c) || c == prim by {
                let k = choose|k: int| 0 <= k < before.len() && before[k] == c;
                if k < stack@.len() {
                    assert(stack@[k] == c);
                }
            }
            lemma_first_occurrences(leaf_finds);
            lemma_first_occurrences(inst_finds);
        }
        if is_in_prototypes_subtree(scene.path(prim)) {
            proof {
                assert(leaf_finds + (Seq::<usize>::empty() + pending(m, stack@, false))
                    =~= leaf_finds + pending(m, stack@, false));
                assert(inst_finds + (Seq::<usize>::empty() + pending(m, stack@, true))
                    =~= inst_finds + pending(m, stack@, true));
            }
        } else if is_point_instancer(scene, prim) {
            if !seen_inst[prim] {
                let ghost prior = instancers@;
                seen_inst.set(prim, true);
                instancers.push(prim);
                proof {
                    lemma_push_keeps(prior, prim);
                }
            }
            proof {
                handled = handled.insert(prim as int);
                assert(inst_finds.push(prim).drop_last() =~= inst_finds);
                assert(inst_finds + (seq![prim] + pending(m, stack@, true)) =~= inst_finds.push(
                    prim,
                ) + pending(m, stack@, true));
                assert(leaf_finds + (Seq::<usize>::empty() + pending(m, stack@, false))
                    =~= leaf_finds + pending(m, stack@, false));
                inst_finds = inst_finds.push(prim);
            }
        } else {
            let ghost base = stack@;
            let kids = scene.children(prim);
            let mut pushed = false;
            let mut k: usize = 0;
            while k < kids.len()
                invariant
                    m == scene@,
                    m.wf(),
                    n == m.prims.len(),
                    0 < prim < n,
                    visited(m, prim as int),
                    !instancer(m, prim as int),
                    kids@ == m.prims[prim as int].children,
                    k <= kids.len(),
                    base.len() <= stack@.len(),
                    stack@.take(base.len() as int) == base,
                    !pushed ==> stack@ == base,
                    forall|j: int|
                        0 <= j < stack.len() ==> 0 < #[trigger] stack@[j] < n && in_reach(
                            m,
                            stack@[j] as int,
                        ),
                    pushed <==> exists|j: int| 0 <= j < k && !pruned(m, kids@[j] as int),
                    forall|j: int|
                        0 <= j < k && !pruned(m, kids@[j] as int) ==> stack@.contains(kids@[j]),
                    stack_weight(m, stack@) <= stack_weight(m, base) + weight_below(
                        m,
                        prim as int,
                        k as nat,
                    ),
                    pending(m, stack@, false) == found_below(m, prim as int, k as nat, false)
                        + pending(m, base, false),
                    pending(m, stack@, true) == found_below(m, prim as int, k as nat, true)
                        + pending(m, base, true),
                decreases kids.len() - k,
            {
                let kid = kids[k];
                let ghost lower = stack@;
                if !is_in_prototypes_subtree(scene.path(kid)) {
                    stack.push(kid);
                    pushed = true;
                    proof {
                        assert(stack@.drop_last() =~= lower);
                        assert(stack@.take(base.len() as int) =~= lower.take(base.len() as int));
                        assert(edge(m, prim as int, kid as int));
                        lemma_push_keeps(lower, kid);
                        assert forall|j: int|
                            0 <= j < k + 1 && !pruned(m, kids@[j] as int) implies stack@.contains(
                            kids@[j],
                        ) by {
                            assert(stack@ =~= lower.push(kid));
                            if j < k {
                                assert(lower.contains(kids@[j]));
                                assert(lower.push(kid).contains(kids@[j]));
                            } else {
                                assert(kids@[j] == kid);
                                assert(lower.push(kid).contains(kid));
                            }
                        }
                        lemma_pending_push(m, lower, kid, false);
                        lemma_pending_push(m, lower, kid, true);
                        assert(found_from(m, kid as int, false) + (found_below(
                            m,
                            prim as int,
                            k as nat,
                            false,
                        ) + pending(m, base, false)) =~= found_below(
                            m,
                            prim as int,
                            (k + 1) as nat,
                            false,
                        ) + pending(m, base, false));
                        assert(found_from(m, kid as int, true) + (found_below(
                            m,
                            prim as int,
                            k as nat,
                            true,
                        ) + pending(m, base, true)) =~= found_below(
                            m,
                            prim as int,
                            (k + 1) as nat,
                            true,
                        ) + pending(m, base, true));
                    }
                } else {
                    proof {
                        assert(found_below(m, prim as int, (k + 1) as nat, false) =~= found_below(
                            m,
                            prim as int,
                            k as nat,
                            false,
                        ));
                        assert(found_below(m, prim as int, (k + 1) as nat, true) =~= found_below(
                            m,
                            prim as int,
                            k as nat,
                            true,
                        ));
                    }
                }
                k += 1;
            }
            if !pushed {
                if !seen_leaf[prim] {
                    let ghost prior = leaves@;
                    seen_leaf.set(prim, true);
                    leaves.push(prim);
                    proof {
                        lemma_push_keeps(prior, prim);
                    }
                }
                proof {
                    assert(childless(m, prim as int));
                    assert(leaf_finds.push(prim).drop_last() =~= leaf_finds);
                    assert(leaf_finds + (seq![prim] + pending(m, stack@, false))
                        =~= leaf_finds.push(prim) + pending(m, stack@, false));
                    assert(inst_finds + (Seq::<usize>::empty() + pending(m, stack@, true))
                        =~= inst_finds + pending(m, stack@, true));
                    leaf_finds = leaf_finds.push(prim);
                }
            } else {
                proof {
                    let j = choose|j: int| 0 <= j < kids@.len() && !pruned(m, kids@[j] as int);
                    assert(!pruned(m, m.prims[prim as int].children[j] as int));
                    assert(!childless(m, prim as int));
                    assert(leaf_finds + (found_from(m, prim as int, false) + pending(
                        m,
                        base,
                        false,
                    )) =~= leaf_finds + pending(m, stack@, false));
                    assert(inst_finds + (found_from(m, prim as int, true) + pending(m, base, true))
                        =~= inst_finds + pending(m, stack@, true));
                }
            }
            proof {
                assert forall|c: usize| base.contains(c) implies stack@.contains(c) by {
                    let j = choose|j: int| 0 <= j < base.len() && base[j] == c;
                    assert(stack@.take(base.len() as int)[j] == stack@[j]);
                }
                assert forall|p: int, c: int|
                    #[trigger] edge(m, p, c) && (p == 0 || (handled.insert(prim as int).contains(p)
                        && !instancer(m, p))) && !pruned(m, c) implies handled.insert(
                    prim as int,
                ).contains(c) || stack@.contains(c as usize) by {
                    if p == prim {
                        let j = choose|j: int|
                            0 <= j < kids@.len() && kids@[j] == c as usize;
                        assert(!pruned(m, kids@[j] as int));
                    }
                }
                handled = handled.insert(prim as int);
            }
        }
    }
    proof {
        assert forall|x: usize| is_leaf(m, x as int) implies leaves@.contains(x) by {
            lemma_visited_is_handled(m, handled, x as int);
        }
        assert forall|x: usize| is_instancer(m, x as int) implies instancers@.contains(x) by {
            lemma_visited_is_handled(m, handled, x as int);
        }
        lemma_results_outside_prototypes(m, leaves@, instancers@);
        lemma_result_paths_once(m, leaves@, instancers@);
        assert(leaf_finds + Seq::<usize>::empty() =~= leaf_finds);
        assert(inst_finds + Seq::<usize>::empty() =~= inst_finds);
    }
    (leaves, instancers)
}

} // verus!
