//! Classification of the prims of a hierarchical scene, and composition of
//! their transforms.
//!
//! A [`scene::Scene`] holds prims, each with a path, a type name, attributes
//! and edges to the prims below it. [`traverse::collect_leaves_and_instancers`]
//! walks it and sorts prims into leaves and point instancers, leaving out
//! every subtree named `Prototypes` and all that lies below a point
//! instancer. [`transform::get_local_transform`] reads the transform that a
//! prim's attributes give it, and [`transform::accumulate_transforms`]
//! composes these from a prim up to the root.

pub mod classify;
pub mod scene;
pub mod text;
pub mod transform;
pub mod traverse;
