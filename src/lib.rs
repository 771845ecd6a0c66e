//! A small contract-executing blockchain node: a stack virtual machine, the
//! compiler for its source language, native contracts, the per-contract
//! request queue, and the hash-linked block store.

pub mod chain;
pub mod config;
pub mod contracts;
pub mod digest;
pub mod errors;
pub mod gossip;
pub mod storage;
pub mod validator;
pub mod word;
