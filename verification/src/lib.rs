//! Declarative fixtures for black-box tests of command-line programs.
//!
//! A test says which files and directories its workspace is to hold
//! ([`store`]), gets the steps that bring them about ([`plan`]), and, once
//! the program under test has run, makes sense of what a walk of the
//! workspace found ([`listing`]). [`env`] ties the three to one workspace.
//! Paths are relative to the root of the workspace and are handled as text
//! ([`path`]).
//!
//! The library performs no input or output: allocating the workspace,
//! carrying out the steps, walking the tree and launching the program are
//! left to the caller. What the steps do is proved against a mathematical
//! model of the workspace ([`workspace`]).

pub mod env;
pub mod listing;
pub mod path;
pub mod plan;
pub mod store;
pub mod workspace;

pub use env::IntegrationTestEnvironment;
