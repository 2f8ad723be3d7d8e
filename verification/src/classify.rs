//! The two rules by which a prim is classified: whether its path lies in a
//! `Prototypes` subtree, and whether it is a point instancer.

use crate::scene::Scene;
use crate::text::{chars_of, contains, ends_with, has_infix, has_suffix, occurs_at};
use vstd::prelude::*;

verus! {

/// The path holds `/Prototypes/`, or ends with `/Prototypes`.
pub open spec fn is_pruned(path: Seq<char>) -> bool {
    has_infix(path, "/Prototypes/"@) || has_suffix(path, "/Prototypes"@)
}

/// The path names a prim called `Prototypes` that stands below another prim,
/// or a prim anywhere below such a one: the segment `/Prototypes` is followed
/// by nothing or by a further segment.
pub open spec fn under_prototypes(path: Seq<char>) -> bool {
    exists|head: Seq<char>, tail: Seq<char>|
        #![trigger head + "/Prototypes"@ + tail]
        path == head + "/Prototypes"@ + tail && (tail.len() == 0 || tail[0] == '/')
}

/// The type name is `PointInstancer`, letter for letter.
pub open spec fn is_instancer_type(prim_type: Seq<char>) -> bool {
    prim_type == "PointInstancer"@
}

/// The search for the two texts finds exactly the paths in or below a prim
/// named `Prototypes`.
pub proof fn lemma_pruned_iff_under_prototypes(path: Seq<char>)
    ensures
        is_pruned(path) <==> under_prototypes(path),
{
    reveal_strlit("/Prototypes/");
    reveal_strlit("/Prototypes");
    let inside = "/Prototypes/"@;
    let last = "/Prototypes"@;
    assert(inside =~= last.push('/'));
    if has_infix(path, inside) {
        let at = choose|at: int| occurs_at(path, inside, at);
        let head = path.subrange(0, at);
        let tail = path.subrange(at + last.len(), path.len() as int);
        assert(tail[0] == path.subrange(at, at + inside.len())[last.len() as int]);
        assert forall|i: int| 0 <= i < last.len() implies path[at + i] == last[i] by {
            assert(path.subrange(at, at + inside.len())[i] == path[at + i]);
        }
        assert(path =~= head + last + tail);
    }
    if has_suffix(path, last) {
        let at = path.len() - last.len();
        let head = path.subrange(0, at);
        let tail = Seq::<char>::empty();
        assert(path =~= head + last + tail);
    }
    if under_prototypes(path) {
        let (head, tail) = choose|head: Seq<char>, tail: Seq<char>|
            #![trigger head + "/Prototypes"@ + tail]
            path == head + "/Prototypes"@ + tail && (tail.len() == 0 || tail[0] == '/');
        let at = head.len() as int;
        if tail.len() == 0 {
            assert(path.subrange(at, at + last.len()) =~= last);
        } else {
            assert(path.subrange(at, at + inside.len()) =~= inside);
            assert(occurs_at(path, inside, at));
        }
    }
}

/// Whether the path lies in a `Prototypes` subtree.
pub fn is_in_prototypes_subtree(path: &str) -> (r: bool)
    ensures
        r == is_pruned(path@),
{
    let text = chars_of(path);
    let inside = chars_of("/Prototypes/");
    let last = chars_of("/Prototypes");
    contains(&text, &inside) || ends_with(&text, &last)
}

/// Whether the prim is a point instancer.
pub fn is_point_instancer(scene: &Scene, prim: usize) -> (r: bool)
    requires
        scene@.has(prim as int),
    ensures
        r == is_instancer_type(scene@.prims[prim as int].prim_type),
{
    scene.prim_type(prim).to_owned() == "PointInstancer".to_owned()
}

} // verus!
