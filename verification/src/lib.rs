//! The transformation core of a binding generator: it reduces a library of
//! declarations to the ordered, generics-free form that a C-family header needs.

pub mod names;
pub mod rename;
pub mod resolver;
pub mod ty;
pub mod mangle;
pub mod item;
pub mod item_map;
pub mod config;
pub mod error;
pub mod bindings;
pub mod library;
pub mod dependencies;
pub mod monomorph;
pub mod laws;
