//! A data-oriented scene-graph hierarchy engine.
//!
//! The scene is a flat, structure-of-arrays representation of a transform
//! tree: parallel fixed-stride buffers hold each node's local transform,
//! local position, world transform and world bounding volumes, and a node
//! index table records the hierarchy (parent, left sibling, right sibling,
//! first child). An iterative depth-first walk propagates local transforms
//! into world transforms in parent-before-child order.
//!
//! Transform and volume buffers store 32-bit two's-complement scalars,
//! 16, 3, 12 or 4 per node; matrix composition is the integer 4x4 product
//! with wrapping arithmetic, and any fixed-point reading of the scalars is
//! the host's choice. The node index table stores `i16` entries with `-1`
//! as the "no such relation" sentinel.

pub mod array_scene;
pub mod hierarchy;
pub mod math;
