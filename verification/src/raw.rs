//! What the reflection of one stage's bytecode reports, as plain values:
//! the entry points, the resources of each class with their slots and
//! types, and the members of every block as they are declared.

use crate::stage::ExecModel;
use vstd::prelude::*;

verus! {

/// The shape of a type: which kind of type it is and its array dimensions,
/// the outermost last; for a struct also the ids of the types of its members.
#[derive(Debug, Clone, PartialEq, Eq)]
pub enum TypeShape {
    Unknown,
    Void,
    Boolean { array: Vec<u32> },
    Char { array: Vec<u32> },
    Int { array: Vec<u32> },
    UInt { array: Vec<u32> },
    Int64 { array: Vec<u32> },
    UInt64 { array: Vec<u32> },
    AtomicCounter { array: Vec<u32> },
    Half { array: Vec<u32> },
    Float { array: Vec<u32> },
    Double { array: Vec<u32> },
    Struct { member_types: Vec<u32>, array: Vec<u32> },
    Image { array: Vec<u32> },
    SampledImage { array: Vec<u32> },
    Sampler { array: Vec<u32> },
    SByte { array: Vec<u32> },
    UByte { array: Vec<u32> },
    Short { array: Vec<u32> },
    UShort { array: Vec<u32> },
    ControlPointArray,
    AccelerationStructureNv,
}

/// One member of a block as it is declared: its name, the shape of its
/// type, its byte offset in the tightly packed block and its size in bytes.
#[derive(Debug, Clone, PartialEq, Eq)]
pub struct RawMember {
    pub name: String,
    pub ty: TypeShape,
    pub offset: u32,
    pub size: u32,
}

/// One resource as it is declared: its name, the slot that it is bound to
/// (zero for a push-constant block, which has none), the shape of its type
/// and, if that is a struct, its members in the order of their declaration.
#[derive(Debug, Clone, PartialEq, Eq)]
pub struct RawResource {
    pub name: String,
    pub set: u32,
    pub binding: u32,
    pub ty: TypeShape,
    pub members: Vec<RawMember>,
}

/// What the bytecode of one stage declares: the execution model of each of
/// its entry points, and its resources class by class.
#[derive(Debug, Clone, PartialEq, Eq)]
pub struct RawModule {
    pub entry_points: Vec<ExecModel>,
    pub uniform_buffers: Vec<RawResource>,
    pub sampled_images: Vec<RawResource>,
    pub separate_images: Vec<RawResource>,
    pub separate_samplers: Vec<RawResource>,
    pub storage_buffers: Vec<RawResource>,
    pub storage_images: Vec<RawResource>,
    pub push_constant_buffers: Vec<RawResource>,
}

/// The classes of resources that are bound through descriptors.
#[derive(Debug, Copy, Clone, PartialEq, Eq, Structural)]
pub enum ResourceClass {
    UniformBuffer,
    SampledImage,
    SeparateImage,
    SeparateSampler,
    StorageBuffer,
    StorageImage,
}

/// The resources of one class of a module, in the order in which the
/// module lists them.
pub open spec fn class_list(module: RawModule, class: ResourceClass) -> Seq<RawResource> {
    match class {
        ResourceClass::UniformBuffer => module.uniform_buffers@,
        ResourceClass::SampledImage => module.sampled_images@,
        ResourceClass::SeparateImage => module.separate_images@,
        ResourceClass::SeparateSampler => module.separate_samplers@,
        ResourceClass::StorageBuffer => module.storage_buffers@,
        ResourceClass::StorageImage => module.storage_images@,
    }
}

impl RawModule {
    /// The resources of one class, in the order in which the module lists them.
    pub fn resources(&self, class: ResourceClass) -> (r: &Vec<RawResource>)
        ensures
            r@ == class_list(*self, class),
    {
        match class {
            ResourceClass::UniformBuffer => &self.uniform_buffers,
            ResourceClass::SampledImage => &self.sampled_images,
            ResourceClass::SeparateImage => &self.separate_images,
            ResourceClass::SeparateSampler => &self.separate_samplers,
            ResourceClass::StorageBuffer => &self.storage_buffers,
            ResourceClass::StorageImage => &self.storage_images,
        }
    }
}

} // verus!
