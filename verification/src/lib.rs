//! Hierarchical macro placement: the clustering, shaping, annealing and commit rules,
//! each stated as a contract over plain values and proved.

pub mod anneal;
pub mod apply;
pub mod arith;
pub mod cluster;
pub mod coverage;
pub mod design;
pub mod dump;
pub mod engine;
pub mod feasibility;
pub mod halo;
pub mod ioclusters;
pub mod macroclass;
pub mod merge;
pub mod netlist;
pub mod options;
pub mod placement;
pub mod placer_args;
pub mod pipeline;
pub mod regions;
pub mod report;
pub mod read;
pub mod rng;
pub mod shaping;
pub mod single;
pub mod sort;
pub mod status;
pub mod text;
pub mod trace;
