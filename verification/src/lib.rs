//! In-process memory introspection and modification engine.
//!
//! The engine locates byte-level signatures inside a loaded module's image,
//! performs permission-checked reads and writes of raw memory, resolves
//! multi-level pointer chains, and applies revertible byte patches with
//! duplicate-overlap protection.
//!
//! Raw addresses are modelled by an explicit address space ([`space::MemorySpace`]):
//! a set of disjoint regions, each carrying its page state (read, write,
//! execute, commit) and its bytes. Every dereference-like operation is an
//! explicit "read N bytes at address" call against that space, so the whole
//! engine is verified; an embedder supplies the bridge between the model and
//! live process memory.

pub mod error;
pub mod guard;
pub mod luaptr;
pub mod memory_module;
pub mod memory_util;
pub mod page;
pub mod pattern;
pub mod space;
