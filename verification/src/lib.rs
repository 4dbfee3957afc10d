//! The coordination core of a local continuous-integration engine: a
//! validated DAG of tests, pools of shared resources, the resolution of a
//! configuration into runnable tests, the bookkeeping of jobs under way,
//! and the layout of the result store.
pub mod config;
pub mod dag;
pub mod digest;
pub mod git;
pub mod graph;
pub mod job;
pub mod resource;
pub mod result;
pub mod test;
pub mod text;
