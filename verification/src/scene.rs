//! The scene: an arena of prims, each with a path, a type name, attributes
//! and edges to the prims below it.
//!
//! A prim is named by its handle, the position at which it was added. Handle
//! 0 is the root of the scene. Every edge leads from a prim to one that was
//! added later, so no walk along edges can return to where it started.

use vstd::prelude::*;

verus! {

/// What an attribute holds.
#[derive(Debug, Clone, PartialEq, Eq)]
pub enum AttrValue {
    /// A 4x4 transform, named by its handle in the caller's table of matrices.
    Matrix(usize),
    /// An ordered list of name tokens.
    Tokens(Vec<String>),
    /// A value of any other type.
    Other,
}

/// The mathematical value of an [`AttrValue`].
pub enum AttrModel {
    Matrix(usize),
    Tokens(Seq<Seq<char>>),
    Other,
}

impl View for AttrValue {
    type V = AttrModel;

    open spec fn view(&self) -> AttrModel {
        match self {
            AttrValue::Matrix(m) => AttrModel::Matrix(*m),
            AttrValue::Tokens(t) => AttrModel::Tokens(t.deep_view()),
            AttrValue::Other => AttrModel::Other,
        }
    }
}

/// Why a change to a scene was refused.
#[derive(Debug, Clone, Copy, PartialEq, Eq)]
pub enum SceneError {
    /// A handle names no prim of the scene.
    UnknownPrim,
    /// The scene already holds a prim with that path.
    DuplicatePath,
    /// The edge would not lead from an earlier prim to a later one.
    BackwardEdge,
}

struct Attribute {
    name: String,
    value: AttrValue,
}

struct Prim {
    path: String,
    prim_type: String,
    parent: Option<usize>,
    children: Vec<usize>,
    attributes: Vec<Attribute>,
}

/// A scene graph held in memory.
pub struct Scene {
    prims: Vec<Prim>,
}

/// The mathematical value of one prim.
pub struct PrimModel {
    /// The text of the prim's path.
    pub path: Seq<char>,
    /// The prim's type name; empty where none was given.
    pub prim_type: Seq<char>,
    /// The prim one level up; `None` for the root alone.
    pub parent: Option<usize>,
    /// The prims that edges lead to, in the order in which the edges were added.
    pub children: Seq<usize>,
    /// The attributes, by name.
    pub attrs: Map<Seq<char>, AttrModel>,
}

/// The mathematical value of a [`Scene`].
pub struct SceneModel {
    pub prims: Seq<PrimModel>,
}

impl SceneModel {
    /// `i` is the handle of a prim.
    pub open spec fn has(self, i: int) -> bool {
        0 <= i < self.prims.len()
    }

    /// Some prim has the path `path`.
    pub open spec fn has_path(self, path: Seq<char>) -> bool {
        exists|i: int| self.has(i) && (#[trigger] self.prims[i]).path == path
    }

    /// The root has no parent and every other prim has an earlier one; every
    /// edge leads to a later prim; no two prims share a path.
    pub open spec fn wf(self) -> bool {
        &&& self.prims.len() >= 1
        &&& self.prims[0].parent is None
        &&& forall|i: int|
            1 <= i < self.prims.len() ==> match (#[trigger] self.prims[i]).parent {
                Some(p) => p < i,
                None => false,
            }
        &&& forall|i: int, k: int|
            self.has(i) && 0 <= k < self.prims[i].children.len() ==> i
                < #[trigger] self.prims[i].children[k] < self.prims.len()
        &&& forall|i: int, j: int|
            0 <= i < j < self.prims.len() ==> (#[trigger] self.prims[i]).path
                != (#[trigger] self.prims[j]).path
    }

    /// The scene with a new prim below `parent`, reached by a new edge.
    pub open spec fn with_prim(self, parent: int, path: Seq<char>, prim_type: Seq<char>) -> Self {
        let above = self.prims[parent];
        let added = PrimModel {
            path,
            prim_type,
            parent: Some(parent as usize),
            children: Seq::empty(),
            attrs: Map::empty(),
        };
        SceneModel {
            prims: self.prims.update(
                parent,
                PrimModel { children: above.children.push(self.prims.len() as usize), ..above },
            ).push(added),
        }
    }

    /// The scene with one more edge from `parent` to `child`.
    pub open spec fn with_edge(self, parent: int, child: usize) -> Self {
        let above = self.prims[parent];
        SceneModel {
            prims: self.prims.update(
                parent,
                PrimModel { children: above.children.push(child), ..above },
            ),
        }
    }

    /// The scene with the attribute `name` of `prim` set to `value`.
    pub open spec fn with_attribute(self, prim: int, name: Seq<char>, value: AttrModel) -> Self {
        let p = self.prims[prim];
        SceneModel {
            prims: self.prims.update(prim, PrimModel { attrs: p.attrs.insert(name, value), ..p }),
        }
    }
}

/// The attributes that a list of settings amounts to: a later setting of a
/// name replaces an earlier one.
spec fn attr_map(attrs: Seq<Attribute>) -> Map<Seq<char>, AttrModel>
    decreases attrs.len(),
{
    if attrs.len() == 0 {
        Map::empty()
    } else {
        attr_map(attrs.drop_last()).insert(attrs.last().name@, attrs.last().value@)
    }
}

/// A name that none of the settings from `from` on carries is looked up in
/// the settings before `from`.
proof fn lemma_attr_map_skip(attrs: Seq<Attribute>, name: Seq<char>, from: int)
    requires
        0 <= from <= attrs.len(),
        forall|j: int| from <= j < attrs.len() ==> attrs[j].name@ != name,
    ensures
        attr_map(attrs).dom().contains(name) == attr_map(attrs.take(from)).dom().contains(name),
        attr_map(attrs).dom().contains(name) ==> attr_map(attrs)[name] == attr_map(
            attrs.take(from),
        )[name],
    decreases attrs.len() - from,
{
    if from == attrs.len() {
        assert(attrs.take(from) =~= attrs);
    } else {
        lemma_attr_map_skip(attrs.drop_last(), name, from);
        assert(attrs.drop_last().take(from) =~= attrs.take(from));
    }
}

impl Prim {
    closed spec fn model(self) -> PrimModel {
        PrimModel {
            path: self.path@,
            prim_type: self.prim_type@,
            parent: self.parent,
            children: self.children@,
            attrs: attr_map(self.attributes@),
        }
    }
}

impl View for Scene {
    type V = SceneModel;

    closed spec fn view(&self) -> SceneModel {
        SceneModel { prims: Seq::new(self.prims@.len(), |i: int| self.prims@[i].model()) }
    }
}

impl Scene {
    /// A scene that holds the root alone: path `/`, no type name, no attributes.
    pub fn new() -> (scene: Scene)
        ensures
            scene@.wf(),
            scene@.prims.len() == 1,
            scene@.prims[0].path == "/"@,
            scene@.prims[0].prim_type == Seq::<char>::empty(),
            scene@.prims[0].parent is None,
            scene@.prims[0].children == Seq::<usize>::empty(),
            scene@.prims[0].attrs == Map::<Seq<char>, AttrModel>::empty(),
    {
        let root = Prim {
            path: "/".to_owned(),
            prim_type: String::new(),
            parent: None,
            children: Vec::new(),
            attributes: Vec::new(),
        };
        let mut prims: Vec<Prim> = Vec::new();
        prims.push(root);
        Scene { prims }
    }

    /// The number of prims, the root included.
    pub fn len(&self) -> (n: usize)
        ensures
            n == self@.prims.len(),
    {
        self.prims.len()
    }

    /// The handle of the prim with the given path, if the scene holds one.
    pub fn prim_at_path(&self, path: &str) -> (r: Option<usize>)
        ensures
            match r {
                Some(i) => self@.has(i as int) && self@.prims[i as int].path == path@,
                None => !self@.has_path(path@),
            },
    {
        let wanted = path.to_owned();
        let mut i: usize = 0;
        while i < self.prims.len()
            invariant
                i <= self.prims.len(),
                wanted@ == path@,
                forall|j: int| 0 <= j < i ==> self@.prims[j].path != path@,
            decreases self.prims.len() - i,
        {
            if self.prims[i].path == wanted {
                return Some(i);
            }
            i += 1;
        }
        None
    }

    /// Adds a prim below `parent`, with an edge from `parent` to it, and
    /// returns its handle. Refuses a parent that the scene does not hold, and
    /// then a path that it already holds.
    pub fn add_prim(&mut self, parent: usize, path: &str, prim_type: &str) -> (r: Result<
        usize,
        SceneError,
    >)
        requires
            old(self)@.wf(),
        ensures
            final(self)@.wf(),
            match r {
                Ok(id) => {
                    &&& old(self)@.has(parent as int)
                    &&& !old(self)@.has_path(path@)
                    &&& id == old(self)@.prims.len()
                    &&& final(self)@ == old(self)@.with_prim(parent as int, path@, prim_type@)
                },
                Err(SceneError::UnknownPrim) => !old(self)@.has(parent as int) && final(self)@
                    == old(self)@,
                Err(SceneError::DuplicatePath) => old(self)@.has(parent as int) && old(
                    self,
                )@.has_path(path@) && final(self)@ == old(self)@,
                Err(SceneError::BackwardEdge) => false,
            },
    {
        if parent >= self.prims.len() {
            return Err(SceneError::UnknownPrim);
        }
        if self.prim_at_path(path).is_some() {
            return Err(SceneError::DuplicatePath);
        }
        let id = self.prims.len();
        let added = Prim {
            path: path.to_owned(),
            prim_type: prim_type.to_owned(),
            parent: Some(parent),
            children: Vec::new(),
            attributes: Vec::new(),
        };
        self.prims[parent].children.push(id);
        self.prims.push(added);
        proof {
            assert(final(self)@.prims =~= old(self)@.with_prim(
                parent as int,
                path@,
                prim_type@,
            ).prims);
        }
        Ok(id)
    }

    /// Adds one more edge, from `parent` to `child`. Refuses a handle that
    /// the scene does not hold, and then an edge that does not lead to a later
    /// prim.
    pub fn add_edge(&mut self, parent: usize, child: usize) -> (r: Result<(), SceneError>)
        requires
            old(self)@.wf(),
        ensures
            final(self)@.wf(),
            match r {
                Ok(()) => {
                    &&& parent < child < old(self)@.prims.len()
                    &&& final(self)@ == old(self)@.with_edge(parent as int, child)
                },
                Err(SceneError::UnknownPrim) => (!old(self)@.has(parent as int) || !old(
                    self,
                )@.has(child as int)) && final(self)@ == old(self)@,
                Err(SceneError::BackwardEdge) => old(self)@.has(parent as int) && old(self)@.has(
                    child as int,
                ) && child <= parent && final(self)@ == old(self)@,
                Err(SceneError::DuplicatePath) => false,
            },
    {
        if parent >= self.prims.len() || child >= self.prims.len() {
            return Err(SceneError::UnknownPrim);
        }
        if child <= parent {
            return Err(SceneError::BackwardEdge);
        }
        self.prims[parent].children.push(child);
        proof {
            assert(final(self)@.prims =~= old(self)@.with_edge(parent as int, child).prims);
        }
        Ok(())
    }

    /// Sets the attribute `name` of `prim` to `value`, in place of any value
    /// that it had. Refuses a handle that the scene does not hold.
    pub fn set_attribute(&mut self, prim: usize, name: &str, value: AttrValue) -> (r: Result<
        (),
        SceneError,
    >)
        requires
            old(self)@.wf(),
        ensures
            final(self)@.wf(),
            match r {
                Ok(()) => old(self)@.has(prim as int) && final(self)@ == old(
                    self,
                )@.with_attribute(prim as int, name@, value@),
                Err(SceneError::UnknownPrim) => !old(self)@.has(prim as int) && final(self)@
                    == old(self)@,
                Err(_) => false,
            },
    {
        if prim >= self.prims.len() {
            return Err(SceneError::UnknownPrim);
        }
        let ghost before = self.prims[prim as int].attributes@;
        let setting = Attribute { name: name.to_owned(), value };
        self.prims[prim].attributes.push(setting);
        proof {
            assert(self.prims[prim as int].attributes@.drop_last() =~= before);
            assert(final(self)@.prims =~= old(self)@.with_attribute(
                prim as int,
                name@,
                value@,
            ).prims);
        }
        Ok(())
    }

    /// The path of a prim.
    pub fn path(&self, prim: usize) -> (r: &str)
        requires
            self@.has(prim as int),
        ensures
            r@ == self@.prims[prim as int].path,
    {
        self.prims[prim].path.as_str()
    }

    /// The type name of a prim.
    pub fn prim_type(&self, prim: usize) -> (r: &str)
        requires
            self@.has(prim as int),
        ensures
            r@ == self@.prims[prim as int].prim_type,
    {
        self.prims[prim].prim_type.as_str()
    }

    /// The prim one level above `prim`; `None` for the root.
    pub fn parent(&self, prim: usize) -> (r: Option<usize>)
        requires
            self@.has(prim as int),
        ensures
            r == self@.prims[prim as int].parent,
    {
        self.prims[prim].parent
    }

    /// The prims that the edges from `prim` lead to.
    pub fn children(&self, prim: usize) -> (r: &Vec<usize>)
        requires
            self@.has(prim as int),
        ensures
            r@ == self@.prims[prim as int].children,
    {
        &self.prims[prim].children
    }

    /// The value of the attribute `name` of `prim`, if it has that attribute.
    pub fn attribute(&self, prim: usize, name: &str) -> (r: Option<&AttrValue>)
        requires
            self@.has(prim as int),
        ensures
            match r {
                Some(v) => self@.prims[prim as int].attrs.dom().contains(name@) && v@
                    == self@.prims[prim as int].attrs[name@],
                None => !self@.prims[prim as int].attrs.dom().contains(name@),
            },
    {
        let wanted = name.to_owned();
        let attributes = &self.prims[prim].attributes;
        let mut i: usize = attributes.len();
        while i > 0
            invariant
                i <= attributes.len(),
                wanted@ == name@,
                prim < self.prims.len(),
                attributes@ == self.prims[prim as int].attributes@,
                forall|j: int| i <= j < attributes.len() ==> attributes@[j].name@ != name@,
            decreases i,
        {
            i -= 1;
            if attributes[i].name == wanted {
                proof {
                    let upto = attributes@.take(i + 1);
                    lemma_attr_map_skip(attributes@, name@, i + 1);
                    assert(upto.last() == attributes@[i as int]);
                    assert(attr_map(upto) == attr_map(upto.drop_last()).insert(
                        upto.last().name@,
                        upto.last().value@,
                    ));
                }
                return Some(&attributes[i].value);
            }
        }
        proof {
            lemma_attr_map_skip(attributes@, name@, 0);
        }
        None
    }

    /// Whether `prim` has an attribute `name`.
    pub fn has_attribute(&self, prim: usize, name: &str) -> (r: bool)
        requires
            self@.has(prim as int),
        ensures
            r == self@.prims[prim as int].attrs.dom().contains(name@),
    {
        self.attribute(prim, name).is_some()
    }
}

} // verus!
