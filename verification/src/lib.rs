//! Verified optimisation passes over an SSA intermediate representation.
//!
//! A program is an arena of instructions, blocks and functions (`program`), seen in contracts as a plain
//! mathematical value (`ir`). Each pass rewrites a program in place and says exactly which program comes
//! out; what that program keeps is stated beside the passes as proved laws.

// The representation, and what is read off it.
pub mod arith;
pub mod cfg;
pub mod edges;
pub mod effects;
pub mod entering;
pub mod graph;
pub mod induction;
pub mod ir;
pub mod loops;
pub mod memory;
pub mod names;
pub mod program;
pub mod program_order;
pub mod table;

// Tools that several passes share.
pub mod choosing;
pub mod cloning;
pub mod lattice;
pub mod mem_state;
pub mod numbering;
pub mod preheader;
pub mod ways;

// The passes.
pub mod blocked_reduction;
pub mod boolean_simplify;
pub mod chain_to_switch;
pub mod column_major;
pub mod const_prop;
pub mod counting;
pub mod dce;
pub mod dropping;
pub mod dse;
pub mod guard_elimination;
pub mod gvn;
pub mod gvn_pre;
pub mod hoisting;
pub mod if_conversion;
pub mod inline;
pub mod invariant_reduction_hoisting;
pub mod ipsccp;

// What the passes keep.
pub mod accumulating;
pub mod bounding;
pub mod copying;
pub mod deciding;
pub mod fixpoint;
pub mod floats;
pub mod inlining;
pub mod joining;
pub mod keying;
pub mod landing;
pub mod laning;
pub mod leading;
pub mod memory_reads;
pub mod merging;
pub mod noting;
pub mod placing;
pub mod propagation;
pub mod quieting;
pub mod repeating;
pub mod replaying;
pub mod reports;
pub mod running;
pub mod scoping;
pub mod splicing;
pub mod straightening;
pub mod storing;
pub mod supplying;
pub mod sweeping;
pub mod traces;
pub mod transposing;
pub mod unrolling;
pub mod values;
pub mod visibility;
pub mod visiting;
pub mod weighing;
pub mod walking;
