//! Verified core of a particle-simulation (MD/DEM) framework: schedule phases,
//! system ordering, run-stage control and the integer bookkeeping around them.

pub mod schedule;
pub mod ordering;
pub mod organize;
pub mod scheduler;
pub mod run;
pub mod comm;
pub mod pair_coeff;
pub mod angle;
pub mod domain;
pub mod measure;
pub mod thermostat;
pub mod fire;
pub mod fixes;
pub mod group;
pub mod polymer;
pub mod atom_order;
pub mod thermo;
pub mod neighbor;
pub mod plugins;
pub mod type_rdf;
pub mod schedule_graph;
pub mod restart;
