//! Dependency resolution for Python packages: an algebra of version sets, a
//! conflict-driven version solver, a distribution selector, the builder of
//! the annotated resolution graph and runs of the resolver over what a
//! provider holds in memory, each with a machine-checked contract. A step
//! of the solver, a turn of a run and a run are proved to be determined by
//! what they start from.

pub mod version;

pub mod version_set;

pub mod term;

pub mod incompatibility;

pub mod knowledge;

pub mod solver;

pub mod names;

pub mod dist;

pub mod hash;

pub mod packages;

pub mod metadata;

pub mod annotated;

pub mod selector;

pub mod reach;

pub mod graph;

pub mod determined;

pub mod resolver;

pub mod run;

