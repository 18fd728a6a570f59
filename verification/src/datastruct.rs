//! The containers.

pub mod list_laws;
pub mod list_struct;
pub mod relation;
pub mod stack_struct;
pub mod text;
pub mod vec_struct;
