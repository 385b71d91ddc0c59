//! A verified core of a compiler for a lazy, implicitly parallel functional
//! language: the intermediate representation and its rewrites, the machine
//! representation, and the emission of C++ code.

pub mod args;
pub mod atoms;
pub mod ir_model;
pub mod intermediate;
pub mod ir_clone;
pub mod ir_ops;
pub mod ir_walk;
pub mod ir_subst;
pub mod copy_propagation;
pub mod equality;
pub mod expression_equality_checker;
pub mod machine;
pub mod machine_clone;
pub mod text;
pub mod emission;
pub mod code_size;
pub mod weak_referrer;
pub mod allocations;
pub mod compiler;
pub mod size_estimator;
pub mod code_vector;
pub mod declarations;
pub mod fn_inst;
pub mod recursive_fn_finder;
