//! A verified circuit-assembly and measurement-aggregation core for
//! quantum programs.
//!
//! The library models ordered quantum circuits with structural
//! composition and symbolic-parameter binding, the Pauli-Z product
//! measurements that turn repeated classical-bit samples into exact
//! expectation values, the program driver that binds parameters and
//! aggregates backend results, and a text codec with a proven
//! encode/decode round trip.  Execution backends and optimizers are
//! outside collaborators: the library consumes a backend through a small
//! interface and exposes pure evaluation to any optimizer.

pub mod binding;
pub mod builders;
pub mod bytes;
pub mod circuit;
pub mod codec;
pub mod error;
pub mod expression;
pub mod fixed;
pub mod measurement;
pub mod program;
pub mod registers;
