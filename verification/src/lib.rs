//! Generation and shrinking of test cases.
//!
//! A test draws its data from a [`DataSource`]. An [`Engine`] hands out sources,
//! first random ones and, once a test has turned out interesting, recorded ones
//! that try to make the data of that test smaller.
//!
//! [`DataSource`]: crate::data::DataSource
//! [`Engine`]: crate::engine::Engine

pub mod data;
pub mod deletion;
pub mod drawing;
pub mod duplicates;
pub mod engine;
pub mod generation;
pub mod history;
pub mod laws;
pub mod lowering;
pub mod minimality;
pub mod passes;
pub mod random;
pub mod replay;
pub mod shrinker;
pub mod steps;
pub mod streams;
