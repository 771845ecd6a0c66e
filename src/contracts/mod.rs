//! Contracts: the virtual machine that runs them, the compiler that builds
//! them, the requests that invoke them, and the built-in native contracts.

pub mod compiler;
pub mod executor;
pub mod language;
pub mod native;
pub mod request;
pub mod schema;
pub mod worker;
