//! A front end for a small Lisp-like language describing how a tensegrity
//! fabric is grown from a seed: a scanner, an s-expression parser, and an
//! interpreter producing a validated `Fabric` build plan.
pub mod error;
pub mod interpreter;
pub mod scanner;
pub mod sexp;
