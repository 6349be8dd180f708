//! Green-aware simulated annealing of tensor-network contraction trees.
//!
//! A contraction in which complex tensors are held as pairs of real ones pays,
//! at every inner node of its tree, the volume of the step times a factor that
//! depends on which children are *green*. A leaf is green when its tensor is
//! structurally complex, an inner node when either child is.
//!
//! | children          | step  | factor           |
//! |-------------------|-------|------------------|
//! | both real         | pass  | 1                |
//! | one green         | ride  | the ride factor  |
//! | both green        | merge | the merge factor |
//!
//! The volume of a step is the product of the dimensions of its open labels.
//! The annealer rotates the tree at random nodes, keeps what does not raise the
//! cost and puts the rest to an acceptance rule; it ends at the best tree on its
//! way. Costs are exact natural numbers.
//!
//! The flat arrays of a [`tree::GreenTree`] stand for a [`shape::Shape`], over
//! which everything is specified. What is true of the library as a whole stands
//! in [`laws`], [`price_laws`], [`run_laws`], [`order_laws`], [`export_laws`] and
//! [`config_laws`].

pub mod anneal;
pub mod annealer;
pub mod clock;
pub mod config_laws;
pub mod export;
pub mod export_laws;
pub mod guard;
pub mod import;
pub mod labels;
pub mod laws;
pub mod natural;
pub mod nested;
pub mod network;
pub mod order_laws;
pub mod pipeline;
pub mod price_laws;
pub mod problem;
pub mod random;
pub mod ratio;
pub mod recompute;
pub mod rotation;
pub mod run_laws;
pub mod shape;
pub mod state;
pub mod tree;
