//! Oriented framed posets: finite-table data structures, their embeddings,
//! boundaries, closures and pushouts.

pub mod intset;
pub mod poset;
pub mod embedding;
pub mod ofp;
pub mod symmetry;
pub mod pushout;
pub mod orthogonal;
pub mod isomorphism;
pub mod connect;
pub mod rigid;
pub mod cubularity;
pub mod volumetric;
pub mod colimit;
pub mod box_construction;
pub mod polyvoxel;
pub mod traversal;
pub mod compass_spring_nd;
pub mod canonicity;
pub mod tables;
pub mod completeness;
