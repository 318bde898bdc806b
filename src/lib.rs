pub mod disjoint;
pub mod font;
pub mod pairs;
pub mod renderer;

pub use disjoint::two_mut;
pub use pairs::{collision_pairs, pair_test, PairTest, ShapeKind};
pub use renderer::Renderer;
