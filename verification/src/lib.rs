//! An object allocator that gives every stored object a stable identifier
//! and keeps it indexed by a scalar field inside a bucketed range index.

pub mod allocator;
pub mod id_map;
pub mod index;
pub mod laws;
pub mod obj;

pub use allocator::ObjAllocator;
pub use id_map::{DefaultId, Id, IdMap};
pub use obj::{Item, Obj};
