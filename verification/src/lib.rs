//! A spatial index for a two-dimensional life simulation.
//!
//! Tracked objects carry an identity and an axis-aligned bounding region.
//! The [`quadtree::Quadtree`] keeps them in a tree of nested regions so that
//! the neighbours of an object are found by descending the tree instead of
//! comparing every pair of objects.
//!
//! - [`region`]: rectangles on the integer grid, and their quadrants.
//! - [`quadtree_value`]: what the tree asks of the objects it tracks.
//! - [`node_model`]: what a node is and what the operations do, as
//!   mathematics.
//! - [`quadtree_node`] and [`quadtree`]: the tree itself.
//! - [`node_lemmas`] and [`contents`]: why the operations keep the tree
//!   well-formed, and what they do to the objects it holds.
//! - [`laws`]: what holds of every tree.
//! - [`entity_wrapper`]: the object that the simulation tracks.
//! - [`my_utils`]: what the keyboard does to the camera.

pub mod contents;
pub mod entity_wrapper;
pub mod laws;
pub mod my_utils;
pub mod node_lemmas;
pub mod node_model;
pub mod quadtree;
pub mod quadtree_node;
pub mod quadtree_value;
pub mod region;
