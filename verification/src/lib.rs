//! Rendering of parameterised configuration documents: reference tokens in a
//! template are replaced by values from a set of definitions, and declared
//! structural edits are applied to the parsed tree.

pub mod depth;
pub mod environment;
pub mod expand;
pub mod failure;
pub mod json;
pub mod mutation;
pub mod normal;
pub mod number;
pub mod order;
pub mod path;
pub mod render;
pub mod text;
pub mod token;
pub mod tree;
