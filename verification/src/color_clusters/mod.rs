//! Hierarchical clustering of a colour image.
//!
//! To support interactivity, the computation is a state machine: `start`
//! allocates it, `tick` performs one bounded unit of work and returns
//! `true` once nothing is left to do, and `result` collects the clusters.

pub mod builder;
pub mod cluster;
pub mod container;
pub mod histogram;
pub mod runner;

pub use builder::Builder;
pub use builder::BuilderConfig;
pub use builder::BuilderImpl;
pub use builder::IncrementalBuilder;
pub use builder::KeyingAction;
pub use builder::NeighbourInfo;
pub use builder::Predicates;
pub use builder::HIERARCHICAL_MAX;
pub use cluster::Cluster;
pub use container::ClusterIndex;
pub use container::ClusterIndexElem;
pub use container::Clusters;
pub use container::ClustersOutputIterator;
pub use container::ClustersView;
pub use runner::color_diff;
pub use runner::color_same;
pub use runner::Runner;
pub use runner::RunnerConfig;
pub use runner::RunnerPredicates;
