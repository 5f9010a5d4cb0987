//! A small e-graph language layer with slots: slot names, slot maps, applied e-class ids,
//! e-nodes of a lambda calculus, and the rewrite rules of the RISE language.

pub mod slot;
pub mod slotset;
pub mod slotmap;
pub mod lang;
pub mod laws;
pub mod rise;
