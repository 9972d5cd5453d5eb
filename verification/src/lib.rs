//! Descriptor layout for shader-driven pipelines: what a stage's bytecode
//! declares, where each field of a structured resource lives in memory, how
//! the bindings of several stages merge into descriptor sets, and which byte
//! range a write to a field may touch.

pub mod buffer;
pub mod descriptor;
pub mod layout;
pub mod merge;
pub mod namemap;
pub mod pool;
pub mod present;
pub mod push;
pub mod raw;
pub mod reflect;
pub mod sets;
pub mod shader;
pub mod stage;
