//! Transforms: the local transform that a prim's attributes give it, and the
//! transform accumulated from a prim up to the root.
//!
//! A transform is kept as a product of matrices that is not multiplied out:
//! the handles of its factors, from left to right. The empty product is the
//! identity, and composing two transforms joins their factors.

use crate::scene::{AttrModel, AttrValue, PrimModel, Scene, SceneModel};
use vstd::prelude::*;

verus! {

/// An attribute holds a value of another type than the one asked for.
#[derive(Debug, Clone, Copy, PartialEq, Eq)]
pub enum AttrError {
    TypeMismatch,
}

/// A product of matrices, by the handles of its factors from left to right.
#[derive(Debug, Clone, PartialEq, Eq)]
pub struct Transform {
    pub factors: Vec<usize>,
}

impl View for Transform {
    type V = Seq<usize>;

    open spec fn view(&self) -> Seq<usize> {
        self.factors@
    }
}

impl Transform {
    /// The identity: the product of no matrices.
    pub fn identity() -> (t: Transform)
        ensures
            t@ == Seq::<usize>::empty(),
    {
        Transform { factors: Vec::new() }
    }

    /// The transform that is the one matrix `matrix`.
    pub fn single(matrix: usize) -> (t: Transform)
        ensures
            t@ == seq![matrix],
    {
        let mut factors: Vec<usize> = Vec::new();
        factors.push(matrix);
        Transform { factors }
    }

    /// Multiplies by `matrix` on the right.
    pub fn times_matrix(&mut self, matrix: usize)
        ensures
            final(self)@ == old(self)@.push(matrix),
    {
        self.factors.push(matrix);
    }

    /// Multiplies by `other` on the right.
    pub fn times(&mut self, other: &Transform)
        ensures
            final(self)@ == old(self)@ + other@,
    {
        let mut i: usize = 0;
        while i < other.factors.len()
            invariant
                i <= other.factors.len(),
                self@ == old(self)@ + other@.take(i as int),
            decreases other.factors.len() - i,
        {
            self.factors.push(other.factors[i]);
            proof {
                assert(other@.take(i + 1) =~= other@.take(i as int).push(other@[i as int]));
                assert(self@ =~= old(self)@ + other@.take(i + 1));
            }
            i += 1;
        }
        proof {
            assert(other@.take(other.factors.len() as int) =~= other@);
        }
    }
}

/// The product of the matrices that the names in `order` refer to, in that
/// order. A name that is no attribute is passed over; a name whose attribute
/// is no matrix is a type mismatch.
pub open spec fn ordered_product(attrs: Map<Seq<char>, AttrModel>, order: Seq<Seq<char>>) -> Result<
    Seq<usize>,
    AttrError,
>
    decreases order.len(),
{
    if order.len() == 0 {
        Ok(Seq::empty())
    } else {
        match ordered_product(attrs, order.drop_last()) {
            Err(e) => Err(e),
            Ok(product) => {
                if !attrs.dom().contains(order.last()) {
                    Ok(product)
                } else {
                    match attrs[order.last()] {
                        AttrModel::Matrix(matrix) => Ok(product.push(matrix)),
                        _ => Err(AttrError::TypeMismatch),
                    }
                }
            },
        }
    }
}

/// The local transform of a prim. With an attribute `xformOpOrder`, it is the
/// product along that list of names. Without it, but with an attribute
/// `xformOp:transform`, it is that one matrix. With neither, there is none.
pub open spec fn local_transform(prim: PrimModel) -> Result<Option<Seq<usize>>, AttrError> {
    if prim.attrs.dom().contains("xformOpOrder"@) {
        match prim.attrs["xformOpOrder"@] {
            AttrModel::Tokens(order) => match ordered_product(prim.attrs, order) {
                Ok(product) => Ok(Some(product)),
                Err(e) => Err(e),
            },
            _ => Err(AttrError::TypeMismatch),
        }
    } else if prim.attrs.dom().contains("xformOp:transform"@) {
        match prim.attrs["xformOp:transform"@] {
            AttrModel::Matrix(matrix) => Ok(Some(seq![matrix])),
            _ => Err(AttrError::TypeMismatch),
        }
    } else {
        Ok(None)
    }
}

/// The factors that a local transform adds to a product: none where the prim
/// has no local transform.
pub open spec fn factors(local: Option<Seq<usize>>) -> Seq<usize> {
    match local {
        Some(product) => product,
        None => Seq::empty(),
    }
}

/// Prim `a` is prim `n` or stands above it.
pub open spec fn on_chain(m: SceneModel, n: int, a: int) -> bool
    decreases n,
{
    m.has(n) && (a == n || match m.prims[n].parent {
        Some(p) if p < n => on_chain(m, p as int, a),
        _ => false,
    })
}

/// The transform accumulated from prim `n` up to the root: the local
/// transform of `n` first, then that of each prim above it in turn, each
/// multiplied on the right. A prim without a local transform adds nothing.
pub open spec fn accumulated(m: SceneModel, n: int) -> Result<Seq<usize>, AttrError>
    decreases n,
{
    if !m.has(n) {
        Ok(Seq::empty())
    } else {
        match local_transform(m.prims[n]) {
            Err(e) => Err(e),
            Ok(local) => match m.prims[n].parent {
                Some(p) if p < n => match accumulated(m, p as int) {
                    Ok(above) => Ok(factors(local) + above),
                    Err(e) => Err(e),
                },
                _ => Ok(factors(local)),
            },
        }
    }
}

/// The mathematical value of what [`get_local_transform`] returns.
pub open spec fn local_view(r: Result<Option<Transform>, AttrError>) -> Result<
    Option<Seq<usize>>,
    AttrError,
> {
    match r {
        Ok(Some(t)) => Ok(Some(t@)),
        Ok(None) => Ok(None),
        Err(e) => Err(e),
    }
}

/// The mathematical value of what [`accumulate_transforms`] returns.
pub open spec fn accumulated_view(r: Result<Transform, AttrError>) -> Result<
    Seq<usize>,
    AttrError,
> {
    match r {
        Ok(t) => Ok(t@),
        Err(e) => Err(e),
    }
}

/// Composition is associative, and the identity is neutral on both sides.
pub proof fn lemma_composition_laws(a: Seq<usize>, b: Seq<usize>, c: Seq<usize>)
    ensures
        (a + b) + c == a + (b + c),
        Seq::<usize>::empty() + a == a,
        a + Seq::<usize>::empty() == a,
{
    assert((a + b) + c =~= a + (b + c));
    assert(Seq::<usize>::empty() + a =~= a);
    assert(a + Seq::<usize>::empty() =~= a);
}

/// An empty `xformOpOrder` gives the identity: a local transform that is
/// there, not one that is absent.
pub proof fn lemma_empty_order_is_identity(prim: PrimModel)
    requires
        prim.attrs.dom().contains("xformOpOrder"@),
        prim.attrs["xformOpOrder"@] == AttrModel::Tokens(Seq::empty()),
    ensures
        local_transform(prim) == Ok::<Option<Seq<usize>>, AttrError>(Some(Seq::empty())),
{
}

/// A prim with neither `xformOpOrder` nor `xformOp:transform` has no local
/// transform.
pub proof fn lemma_no_attribute_no_transform(prim: PrimModel)
    requires
        !prim.attrs.dom().contains("xformOpOrder"@),
        !prim.attrs.dom().contains("xformOp:transform"@),
    ensures
        local_transform(prim) == Ok::<Option<Seq<usize>>, AttrError>(None),
{
}

/// A prim with both attributes takes its local transform from `xformOpOrder`:
/// it is the product along that list, whatever `xformOp:transform` holds.
pub proof fn lemma_order_takes_precedence(prim: PrimModel, order: Seq<Seq<char>>)
    requires
        prim.attrs.dom().contains("xformOpOrder"@),
        prim.attrs.dom().contains("xformOp:transform"@),
        prim.attrs["xformOpOrder"@] == AttrModel::Tokens(order),
    ensures
        local_transform(prim) == match ordered_product(prim.attrs, order) {
            Ok(product) => Ok::<Option<Seq<usize>>, AttrError>(Some(product)),
            Err(e) => Err(e),
        },
{
}

/// Where `xformOpOrder` is there and does not list `xformOp:transform`, the
/// local transform is the same with any value of `xformOp:transform` as
/// without that attribute.
pub proof fn lemma_single_matrix_unused(prim: PrimModel, order: Seq<Seq<char>>, single: AttrModel)
    requires
        prim.attrs.dom().contains("xformOpOrder"@),
        prim.attrs["xformOpOrder"@] == AttrModel::Tokens(order),
        !order.contains("xformOp:transform"@),
    ensures
        local_transform(PrimModel { attrs: prim.attrs.insert("xformOp:transform"@, single), ..prim })
            == local_transform(PrimModel { attrs: prim.attrs.remove("xformOp:transform"@), ..prim }),
{
    reveal_strlit("xformOpOrder");
    reveal_strlit("xformOp:transform");
    assert("xformOpOrder"@.len() != "xformOp:transform"@.len());
    lemma_product_reads_listed_names(
        prim.attrs.insert("xformOp:transform"@, single),
        prim.attrs.remove("xformOp:transform"@),
        order,
    );
}

/// The product along a list of names depends on the attributes of those
/// names alone.
proof fn lemma_product_reads_listed_names(
    attrs: Map<Seq<char>, AttrModel>,
    other: Map<Seq<char>, AttrModel>,
    order: Seq<Seq<char>>,
)
    requires
        forall|k: int|
            0 <= k < order.len() ==> {
                &&& attrs.dom().contains(#[trigger] order[k]) == other.dom().contains(order[k])
                &&& attrs.dom().contains(order[k]) ==> attrs[order[k]] == other[order[k]]
            },
    ensures
        ordered_product(attrs, order) == ordered_product(other, order),
    decreases order.len(),
{
    if order.len() > 0 {
        lemma_product_reads_listed_names(attrs, other, order.drop_last());
        assert(order.last() == order[order.len() - 1]);
    }
}

/// On a chain of three prims, the root, `a` below it and `b` below `a`, the
/// transform accumulated from `b` is the local transform of `b`, times that
/// of `a`, times that of the root, in this order; a prim without a local
/// transform adds no factor, so with none at all it is the identity.
pub proof fn lemma_chain_of_three(
    m: SceneModel,
    root: usize,
    a: usize,
    b: usize,
    local_root: Option<Seq<usize>>,
    local_a: Option<Seq<usize>>,
    local_b: Option<Seq<usize>>,
)
    requires
        m.wf(),
        m.has(b as int),
        m.prims[b as int].parent == Some(a),
        m.prims[a as int].parent == Some(root),
        m.prims[root as int].parent is None,
        local_transform(m.prims[root as int]) == Ok::<Option<Seq<usize>>, AttrError>(local_root),
        local_transform(m.prims[a as int]) == Ok::<Option<Seq<usize>>, AttrError>(local_a),
        local_transform(m.prims[b as int]) == Ok::<Option<Seq<usize>>, AttrError>(local_b),
    ensures
        accumulated(m, b as int) == Ok::<Seq<usize>, AttrError>(
            factors(local_b) + factors(local_a) + factors(local_root),
        ),
        local_root is None && local_a is None && local_b is None ==> accumulated(m, b as int)
            == Ok::<Seq<usize>, AttrError>(Seq::empty()),
{
    assert(b != 0);
    assert(a < b);
    assert(a != 0);
    assert(root < a);
    assert(accumulated(m, root as int) == Ok::<Seq<usize>, AttrError>(factors(local_root)));
    assert(accumulated(m, a as int) == Ok::<Seq<usize>, AttrError>(
        factors(local_a) + factors(local_root),
    ));
    assert(factors(local_b) + (factors(local_a) + factors(local_root)) =~= factors(local_b)
        + factors(local_a) + factors(local_root));
    if local_root is None && local_a is None && local_b is None {
        assert(factors(local_b) + factors(local_a) + factors(local_root) =~= Seq::<usize>::empty());
    }
}

/// Where neither a prim nor any prim above it has a local transform, the
/// accumulated transform is the identity.
pub proof fn lemma_no_transforms_is_identity(m: SceneModel, n: int)
    requires
        m.has(n),
        forall|a: int| on_chain(m, n, a) ==> local_transform(#[trigger] m.prims[a]) == Ok::<
            Option<Seq<usize>>,
            AttrError,
        >(None),
    ensures
        accumulated(m, n) == Ok::<Seq<usize>, AttrError>(Seq::empty()),
    decreases n,
{
    assert(on_chain(m, n, n));
    match m.prims[n].parent {
        Some(p) => {
            if p < n {
                assert forall|a: int| on_chain(m, p as int, a) implies local_transform(
                    #[trigger] m.prims[a],
                ) == Ok::<Option<Seq<usize>>, AttrError>(None) by {
                    assert(on_chain(m, n, a));
                }
                lemma_no_transforms_is_identity(m, p as int);
                assert(Seq::<usize>::empty() + Seq::<usize>::empty() =~= Seq::<usize>::empty());
            }
        },
        None => {},
    }
}

/// A mismatch among the first names of a list is a mismatch of the whole list.
proof fn lemma_mismatch_stays(attrs: Map<Seq<char>, AttrModel>, order: Seq<Seq<char>>, upto: int)
    requires
        0 <= upto <= order.len(),
        ordered_product(attrs, order.take(upto)) is Err,
    ensures
        ordered_product(attrs, order) == Err::<Seq<usize>, AttrError>(AttrError::TypeMismatch),
    decreases order.len() - upto,
{
    if upto == order.len() {
        assert(order.take(upto) =~= order);
    } else {
        assert(order.take(upto + 1).drop_last() =~= order.take(upto));
        lemma_mismatch_stays(attrs, order, upto + 1);
    }
}

/// The local transform of a prim, where it has one.
pub fn get_local_transform(scene: &Scene, prim: usize) -> (r: Result<Option<Transform>, AttrError>)
    requires
        scene@.has(prim as int),
    ensures
        local_view(r) == local_transform(scene@.prims[prim as int]),
{
    let ghost attrs = scene@.prims[prim as int].attrs;
    match scene.attribute(prim, "xformOpOrder") {
        Some(listed) => match listed {
            AttrValue::Tokens(order) => {
                let ghost names = order.deep_view();
                let mut local = Transform::identity();
                let mut i: usize = 0;
                while i < order.len()
                    invariant
                        scene@.has(prim as int),
                        attrs == scene@.prims[prim as int].attrs,
                        names == order.deep_view(),
                        attrs.dom().contains("xformOpOrder"@),
                        attrs["xformOpOrder"@] == AttrModel::Tokens(names),
                        i <= order.len(),
                        ordered_product(attrs, names.take(i as int)) == Ok::<
                            Seq<usize>,
                            AttrError,
                        >(local@),
                    decreases order.len() - i,
                {
                    proof {
                        assert(names[i as int] == order@[i as int]@);
                        assert(names.take(i + 1).drop_last() =~= names.take(i as int));
                    }
                    match scene.attribute(prim, order[i].as_str()) {
                        None => {},
                        Some(AttrValue::Matrix(matrix)) => {
                            local.times_matrix(*matrix);
                        },
                        Some(_) => {
                            proof {
                                lemma_mismatch_stays(attrs, names, i + 1);
                            }
                            return Err(AttrError::TypeMismatch);
                        },
                    }
                    i += 1;
                }
                proof {
                    assert(names.take(order.len() as int) =~= names);
                }
                Ok(Some(local))
            },
            _ => Err(AttrError::TypeMismatch),
        },
        None => match scene.attribute(prim, "xformOp:transform") {
            Some(AttrValue::Matrix(matrix)) => Ok(Some(Transform::single(*matrix))),
            Some(_) => Err(AttrError::TypeMismatch),
            None => Ok(None),
        },
    }
}

/// The transform accumulated from `start` up to the root.
pub fn accumulate_transforms(scene: &Scene, start: usize) -> (r: Result<Transform, AttrError>)
    requires
        scene@.wf(),
        scene@.has(start as int),
    ensures
        accumulated_view(r) == accumulated(scene@, start as int),
{
    let ghost m = scene@;
    let mut total = Transform::identity();
    let mut current = start;
    loop
        invariant
            m == scene@,
            m.wf(),
            m.has(current as int),
            accumulated(m, start as int) == match accumulated(m, current as int) {
                Ok(above) => Ok::<Seq<usize>, AttrError>(total@ + above),
                Err(e) => Err(e),
            },
        decreases current,
    {
        let ghost so_far = total@;
        let ghost mut own: Seq<usize> = Seq::empty();
        let parent = scene.parent(current);
        match get_local_transform(scene, current) {
            Err(e) => {
                return Err(e);
            },
            Ok(Some(local)) => {
                proof {
                    own = local@;
                }
                total.times(&local);
            },
            Ok(None) => {},
        }
        match parent {
            None => {
                return Ok(total);
            },
            Some(p) => {
                proof {
                    assert(total@ =~= so_far + own);
                    assert(p < current);
                    match accumulated(m, p as int) {
                        Ok(above) => {
                            assert(so_far + (own + above) =~= total@ + above);
                        },
                        Err(_) => {},
                    }
                }
                current = p;
            },
        }
    }
}

} // verus!
