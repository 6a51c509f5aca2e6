//! Exact combinatorial core of a quantum many-body exact-diagonalization toolkit.

use vstd::prelude::*;

pub mod action;
pub mod algebra;
pub mod archive;
pub mod archive_laws;
pub mod assembly;
pub mod assembly_laws;
pub mod bands;
pub mod basis;
pub mod bigint;
pub mod binding;
pub mod block;
pub mod block_ops;
pub mod boson;
pub mod boson_laws;
pub mod choice_laws;
pub mod columns;
pub mod combination;
pub mod compat;
pub mod component_laws;
pub mod composition;
pub mod compressed;
pub mod conservation;
pub mod container;
pub mod corrected;
pub mod drive_laws;
pub mod dynamics;
pub mod error;
pub mod exactness;
pub mod fermion;
pub mod fermion_laws;
pub mod folds;
pub mod general;
pub mod general_laws;
pub mod grids;
pub mod hamiltonian;
pub mod inspection;
pub mod interop;
pub mod kernels;
pub mod lattice;
pub mod lattice_map;
pub mod leakage;
pub mod lindblad;
pub mod lindblad_laws;
pub mod linear;
pub mod local;
pub mod map_laws;
pub mod matrix;
pub mod measure;
pub mod measurement;
pub mod model;
pub mod momentum_laws;
pub mod notation;
pub mod npz;
pub mod observables;
pub mod occupation_laws;
pub mod operator;
pub mod operator_laws;
pub mod order;
pub mod packed;
pub mod phase_laws;
pub mod photon;
pub mod photon_laws;
pub mod product;
pub mod product_laws;
pub mod projector;
pub mod quantum;
pub mod radix;
pub mod ranking;
pub mod reading;
pub mod rearrangement_laws;
pub mod reduction_laws;
pub mod runtime;
pub mod scalar;
pub mod sector_shift;
pub mod shift_laws;
pub mod shifted;
pub mod solve;
pub mod spin;
pub mod spin_laws;
pub mod spinful;
pub mod state_laws;
pub mod states;
pub mod streaming;
pub mod subsystem;
pub mod subsystem_laws;
pub mod symmetry;
pub mod tensor;
pub mod tensor_laws;
pub mod terms;
pub mod timed;
pub mod timed_laws;
pub mod tracking;
pub mod translation_laws;
pub mod triplets;
pub mod user;
pub mod user_laws;
pub mod weights;
pub mod wide;
pub mod wide_laws;
pub mod wide_spin;
pub mod workflow;

pub use error::{QmbedError, QuSpinError, Result};

verus! {

/// The version of the library.
pub const VERSION: &'static str = "0.1.0";

} // verus!
