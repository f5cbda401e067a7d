//! One-dimensional k-means clustering over integer samples, with cluster
//! centers kept as exact fractions.

pub mod number;
pub mod center;
pub mod cluster;
pub mod model;
pub mod seeding;
pub mod solver;

pub use crate::center::Center;
pub use crate::cluster::Cluster;
pub use crate::number::NumberLike;
pub use crate::solver::{solve, solve_seeded};
