//! Reflection: from what the bytecode of one stage declares to the
//! resources that it binds and the push-constant blocks that it reads.

use crate::descriptor::{descs_view, descs_wf, Descriptor, DescriptorView};
use crate::layout::{align_up, all_aligned, field_spans, lemma_align_up, total_size, DescField, DescKind};
use crate::namemap::{distinct_names, has_name, lemma_put, position, put, Entries, NameMap};
use crate::pool::{pushes_view, pushes_wf};
use crate::push::{PushConstant, PushView};
use crate::raw::{class_list, RawMember, RawModule, RawResource, ResourceClass, TypeShape};
use crate::stage::{stage_of_model, ShaderStage, StageSet};
use vstd::prelude::*;

verus! {

/// Why what a stage declares could not be reflected.
#[derive(Debug, Copy, Clone, PartialEq, Eq, Structural)]
pub enum ReflectionError {
    /// A struct has another number of members than of member types.
    Malformed,
    /// The module does not declare exactly one entry point.
    EntryPoints,
    /// The entry point runs in an execution model that has no stage here.
    UnsupportedStage,
    /// A resource or a field has a type outside scalars, vectors, matrices,
    /// structs, images and samplers.
    UnsupportedType,
    /// An array has more elements than can be counted.
    ArrayTooLarge,
    /// A field is to be laid out with an alignment of zero.
    ZeroAlignment,
    /// A push-constant block is larger than 32 bits can say.
    LayoutOverflow,
}

/// What one stage declares, as a mathematical value.
pub struct StageView {
    pub stage: ShaderStage,
    pub resources: Seq<DescriptorView>,
    pub push_constants: Entries<PushView>,
}

/// What one stage declares: the resources that it binds, in the order of
/// their classes, and its push-constant blocks by name.
#[derive(Debug, Clone)]
pub struct StageReflection {
    pub stage: ShaderStage,
    pub resources: Vec<Descriptor>,
    pub push_constants: Vec<(String, PushConstant)>,
}

impl StageReflection {
    /// The declarations as a mathematical value.
    pub open spec fn view(&self) -> StageView {
        StageView {
            stage: self.stage,
            resources: descs_view(self.resources@),
            push_constants: pushes_view(self.push_constants@),
        }
    }

    /// Well-formedness: every resource and every block is well-formed.
    pub open spec fn wf(&self) -> bool {
        descs_wf(self.resources@) && pushes_wf(self.push_constants@)
    }
}

/// Whether a result fails exactly as its model does.
pub open spec fn fails_as<T, V>(r: Result<T, ReflectionError>, model: Result<V, ReflectionError>) -> bool {
    match model {
        Ok(_) => r is Ok,
        Err(e) => r matches Err(x) && x == e,
    }
}

/// The number of elements of an array with the given dimensions: their
/// sizes multiplied, one where there is no dimension.
pub open spec fn count_of(array: Seq<u32>) -> nat
    decreases array.len(),
{
    if array.len() == 0 {
        1
    } else {
        count_of(array.drop_last()) * array.last() as nat
    }
}

/// A dimension of size zero makes the count zero.
pub proof fn lemma_count_zero(array: Seq<u32>, k: int)
    requires
        0 <= k < array.len(),
        array[k] == 0,
    ensures
        count_of(array) == 0,
    decreases array.len(),
{
    if k < array.len() - 1 {
        assert(array.drop_last()[k] == array[k]);
        lemma_count_zero(array.drop_last(), k);
        assert(0 * array.last() as nat == 0) by (nonlinear_arith);
    } else {
        assert(count_of(array.drop_last()) * 0 == 0) by (nonlinear_arith);
    }
}

/// Without a dimension of size zero, the count of the first dimensions is
/// positive and not above the count of all.
pub proof fn lemma_count_grows(array: Seq<u32>, n: int)
    requires
        0 <= n <= array.len(),
        forall|k: int| 0 <= k < array.len() ==> array[k] != 0,
    ensures
        1 <= count_of(array.take(n)) <= count_of(array),
    decreases array.len() - n,
{
    if n < array.len() {
        lemma_count_grows(array, n + 1);
        assert(array.take(n + 1).drop_last() =~= array.take(n));
        let c = count_of(array.take(n));
        let d = array[n] as nat;
        assert(count_of(array.take(n + 1)) == c * d);
        assert(c <= c * d) by (nonlinear_arith)
            requires
                d >= 1,
        ;
        if c == 0 {
            assert(0 * d == 0) by (nonlinear_arith);
        }
    } else {
        assert(array.take(n) =~= array);
        lemma_count_positive(array);
    }
}

/// Without a dimension of size zero the count is positive.
pub proof fn lemma_count_positive(array: Seq<u32>)
    requires
        forall|k: int| 0 <= k < array.len() ==> array[k] != 0,
    ensures
        count_of(array) >= 1,
    decreases array.len(),
{
    if array.len() > 0 {
        let rest = array.drop_last();
        assert forall|k: int| 0 <= k < rest.len() implies rest[k] != 0 by {
            assert(rest[k] == array[k]);
        }
        lemma_count_positive(rest);
        let c = count_of(rest);
        let d = array.last() as nat;
        assert(array[array.len() - 1] != 0);
        assert(c * d >= 1) by (nonlinear_arith)
            requires
                c >= 1,
                d >= 1,
        ;
    }
}

/// The dimensions of the array that a type is; none if it is no array.
pub open spec fn dims_of(t: TypeShape) -> Seq<u32> {
    match t {
        TypeShape::Boolean { array } => array@,
        TypeShape::Char { array } => array@,
        TypeShape::Int { array } => array@,
        TypeShape::UInt { array } => array@,
        TypeShape::Int64 { array } => array@,
        TypeShape::UInt64 { array } => array@,
        TypeShape::AtomicCounter { array } => array@,
        TypeShape::Half { array } => array@,
        TypeShape::Float { array } => array@,
        TypeShape::Double { array } => array@,
        TypeShape::Struct { array, .. } => array@,
        TypeShape::Image { array } => array@,
        TypeShape::SampledImage { array } => array@,
        TypeShape::Sampler { array } => array@,
        TypeShape::SByte { array } => array@,
        TypeShape::UByte { array } => array@,
        TypeShape::Short { array } => array@,
        TypeShape::UShort { array } => array@,
        TypeShape::Unknown => Seq::empty(),
        TypeShape::Void => Seq::empty(),
        TypeShape::ControlPointArray => Seq::empty(),
        TypeShape::AccelerationStructureNv => Seq::empty(),
    }
}

/// The kind of descriptor that a type occupies: an image, a combined
/// image and sampler, a sampler, or, for a struct and for a scalar, vector
/// or matrix, a uniform buffer. `None` for every other type.
pub open spec fn kind_of(t: TypeShape) -> Option<DescKind> {
    match t {
        TypeShape::Image { .. } => Some(DescKind::SampledImage),
        TypeShape::SampledImage { .. } => Some(DescKind::CombinedImageSampler),
        TypeShape::Sampler { .. } => Some(DescKind::Sampler),
        TypeShape::Struct { .. } => Some(DescKind::UniformBuffer),
        TypeShape::Boolean { .. } => Some(DescKind::UniformBuffer),
        TypeShape::Char { .. } => Some(DescKind::UniformBuffer),
        TypeShape::Int { .. } => Some(DescKind::UniformBuffer),
        TypeShape::UInt { .. } => Some(DescKind::UniformBuffer),
        TypeShape::Int64 { .. } => Some(DescKind::UniformBuffer),
        TypeShape::UInt64 { .. } => Some(DescKind::UniformBuffer),
        TypeShape::AtomicCounter { .. } => Some(DescKind::UniformBuffer),
        TypeShape::Half { .. } => Some(DescKind::UniformBuffer),
        TypeShape::Float { .. } => Some(DescKind::UniformBuffer),
        TypeShape::Double { .. } => Some(DescKind::UniformBuffer),
        TypeShape::SByte { .. } => Some(DescKind::UniformBuffer),
        TypeShape::UByte { .. } => Some(DescKind::UniformBuffer),
        TypeShape::Short { .. } => Some(DescKind::UniformBuffer),
        TypeShape::UShort { .. } => Some(DescKind::UniformBuffer),
        TypeShape::Unknown => None,
        TypeShape::Void => None,
        TypeShape::ControlPointArray => None,
        TypeShape::AccelerationStructureNv => None,
    }
}

/// The number of descriptors that an array with the given dimensions
/// occupies: as many as it has elements, but at least one.
pub open spec fn descriptors_of(array: Seq<u32>) -> nat {
    if count_of(array) == 0 {
        1
    } else {
        count_of(array)
    }
}

/// The kind of descriptor that a type occupies and how many of them: as
/// many as the array has elements, but at least one. A type that is not
/// supported, and an array with more elements than can be counted, have none.
pub open spec fn kind_and_count(t: TypeShape) -> Result<(DescKind, usize), ReflectionError> {
    match kind_of(t) {
        None => Err(ReflectionError::UnsupportedType),
        Some(kind) => if descriptors_of(dims_of(t)) > usize::MAX {
            Err(ReflectionError::ArrayTooLarge)
        } else {
            Ok((kind, descriptors_of(dims_of(t)) as usize))
        },
    }
}

/// A supported type occupies at least one descriptor, and exactly one if
/// it is no array.
pub proof fn lemma_count_at_least_one(t: TypeShape)
    requires
        kind_and_count(t) is Ok,
    ensures
        kind_and_count(t).unwrap().1 >= 1,
        dims_of(t).len() == 0 ==> kind_and_count(t).unwrap().1 == 1,
        kind_of(t) == Some(kind_and_count(t).unwrap().0),
{
}

/// The number of elements of an array with the given dimensions; `None` if
/// there are more than can be counted.
pub fn array_count(array: &Vec<u32>) -> (r: Option<usize>)
    ensures
        r is Some <==> count_of(array@) <= usize::MAX,
        r matches Some(n) ==> n == count_of(array@),
{
    let mut i: usize = 0;
    while i < array.len()
        invariant
            i <= array.len(),
            forall|k: int| 0 <= k < i ==> array@[k] != 0,
        decreases array.len() - i,
    {
        if array[i] == 0 {
            proof {
                lemma_count_zero(array@, i as int);
            }
            return Some(0);
        }
        i += 1;
    }
    let mut count: usize = 1;
    let mut i: usize = 0;
    assert(array@.take(0) =~= Seq::<u32>::empty());
    while i < array.len()
        invariant
            i <= array.len(),
            forall|k: int| 0 <= k < array.len() ==> array@[k] != 0,
            count == count_of(array@.take(i as int)),
        decreases array.len() - i,
    {
        let size = array[i] as usize;
        proof {
            assert(array@.take(i as int + 1).drop_last() =~= array@.take(i as int));
            assert(count_of(array@.take(i as int + 1)) == count * size);
            lemma_count_grows(array@, i as int + 1);
        }
        if count > usize::MAX / size {
            assert(count * size > usize::MAX) by (nonlinear_arith)
                requires
                    size > 0,
                    count > usize::MAX / size,
            ;
            return None;
        }
        assert(count * size <= usize::MAX) by (nonlinear_arith)
            requires
                size > 0,
                count <= usize::MAX / size,
        ;
        count = count * size;
        i += 1;
    }
    assert(array@.take(i as int) =~= array@);
    Some(count)
}

/// The dimensions of the array that a type is; none if it is no array.
fn dims(c: &TypeShape) -> (r: Option<&Vec<u32>>)
    ensures
        match r {
            Some(array) => array@ == dims_of(*c),
            None => dims_of(*c) == Seq::<u32>::empty(),
        },
{
    match c {
        TypeShape::Boolean { array } => Some(array),
        TypeShape::Char { array } => Some(array),
        TypeShape::Int { array } => Some(array),
        TypeShape::UInt { array } => Some(array),
        TypeShape::Int64 { array } => Some(array),
        TypeShape::UInt64 { array } => Some(array),
        TypeShape::AtomicCounter { array } => Some(array),
        TypeShape::Half { array } => Some(array),
        TypeShape::Float { array } => Some(array),
        TypeShape::Double { array } => Some(array),
        TypeShape::Struct { array, .. } => Some(array),
        TypeShape::Image { array } => Some(array),
        TypeShape::SampledImage { array } => Some(array),
        TypeShape::Sampler { array } => Some(array),
        TypeShape::SByte { array } => Some(array),
        TypeShape::UByte { array } => Some(array),
        TypeShape::Short { array } => Some(array),
        TypeShape::UShort { array } => Some(array),
        TypeShape::Unknown => None,
        TypeShape::Void => None,
        TypeShape::ControlPointArray => None,
        TypeShape::AccelerationStructureNv => None,
    }
}

/// The kind of descriptor that a type occupies.
fn kind(c: &TypeShape) -> (r: Option<DescKind>)
    ensures
        r == kind_of(*c),
{
    match c {
        TypeShape::Image { .. } => Some(DescKind::SampledImage),
        TypeShape::SampledImage { .. } => Some(DescKind::CombinedImageSampler),
        TypeShape::Sampler { .. } => Some(DescKind::Sampler),
        TypeShape::Struct { .. } => Some(DescKind::UniformBuffer),
        TypeShape::Boolean { .. } => Some(DescKind::UniformBuffer),
        TypeShape::Char { .. } => Some(DescKind::UniformBuffer),
        TypeShape::Int { .. } => Some(DescKind::UniformBuffer),
        TypeShape::UInt { .. } => Some(DescKind::UniformBuffer),
        TypeShape::Int64 { .. } => Some(DescKind::UniformBuffer),
        TypeShape::UInt64 { .. } => Some(DescKind::UniformBuffer),
        TypeShape::AtomicCounter { .. } => Some(DescKind::UniformBuffer),
        TypeShape::Half { .. } => Some(DescKind::UniformBuffer),
        TypeShape::Float { .. } => Some(DescKind::UniformBuffer),
        TypeShape::Double { .. } => Some(DescKind::UniformBuffer),
        TypeShape::SByte { .. } => Some(DescKind::UniformBuffer),
        TypeShape::UByte { .. } => Some(DescKind::UniformBuffer),
        TypeShape::Short { .. } => Some(DescKind::UniformBuffer),
        TypeShape::UShort { .. } => Some(DescKind::UniformBuffer),
        TypeShape::Unknown => None,
        TypeShape::Void => None,
        TypeShape::ControlPointArray => None,
        TypeShape::AccelerationStructureNv => None,
    }
}

/// The kind of descriptor that a type occupies, and how many of them: as
/// many as the array has elements, but at least one, and one if the type
/// is no array. A type outside scalars, vectors, matrices, structs, images
/// and samplers is refused, and so is an array with more elements than can
/// be counted.
pub fn cross_to_ash(c: &TypeShape) -> (r: Result<(DescKind, usize), ReflectionError>)
    ensures
        r == kind_and_count(*c),
        r matches Ok(p) ==> p.1 >= 1,
{
    match kind(c) {
        None => Err(ReflectionError::UnsupportedType),
        Some(kind) => {
            let elements = match dims(c) {
                Some(array) => array_count(array),
                None => Some(1),
            };
            match elements {
                Some(0) => Ok((kind, 1)),
                Some(count) => Ok((kind, count)),
                None => Err(ReflectionError::ArrayTooLarge),
            }
        },
    }
}

/// The layout of one field: its declared offset rounded up to the next
/// multiple of `min_offset`, its declared size unchanged.
pub open spec fn field_layout(
    index: usize,
    declared_offset: u32,
    declared_size: u32,
    shape: TypeShape,
    min_offset: u64,
) -> Result<DescField, ReflectionError> {
    match kind_and_count(shape) {
        Err(e) => Err(e),
        Ok((ty, count)) => Ok(
            DescField {
                index,
                offset: align_up(declared_offset as nat, min_offset as nat) as u64,
                size: declared_size as u64,
                ty,
                count,
            },
        ),
    }
}

/// A 32-bit offset rounded up to a multiple of a 64-bit alignment fits in
/// 64 bits.
pub proof fn lemma_align_up_fits(declared_offset: u32, min_offset: u64)
    requires
        min_offset > 0,
    ensures
        align_up(declared_offset as nat, min_offset as nat) <= u64::MAX,
{
    lemma_align_up(declared_offset as nat, min_offset as nat);
    if declared_offset < min_offset {
        vstd::arithmetic::div_mod::lemma_small_mod(declared_offset as nat, min_offset as nat);
    }
}

impl DescField {
    /// Lays one field out. Its offset is the declared offset rounded up to
    /// the next multiple of `min_offset`: not below the declared offset,
    /// and equal to it where that is a multiple already. Its size is the
    /// declared size.
    pub fn new(index: usize, declared_offset: u32, declared_size: u32, shape: &TypeShape, min_offset: u64) -> (r:
        Result<DescField, ReflectionError>)
        requires
            min_offset > 0,
        ensures
            r == field_layout(index, declared_offset, declared_size, *shape, min_offset),
            r matches Ok(f) ==> f.offset % min_offset == 0 && declared_offset <= f.offset < declared_offset
                + min_offset,
            r matches Ok(f) ==> (min_offset == 1 ==> f.offset == declared_offset),
    {
        proof {
            lemma_align_up(declared_offset as nat, min_offset as nat);
            lemma_align_up_fits(declared_offset, min_offset);
        }
        match cross_to_ash(shape) {
            Err(e) => Err(e),
            Ok((ty, count)) => {
                let declared = declared_offset as u64;
                let modulo = declared % min_offset;
                let offset = if modulo == 0 {
                    declared
                } else {
                    declared + (min_offset - modulo)
                };
                Ok(DescField { index, offset, size: declared_size as u64, ty, count })
            },
        }
    }
}

/// The table of the first `n` members of a block. A member that cannot be
/// laid out makes the table fail as the first such member does; a member
/// whose name is taken replaces the field of that name.
pub open spec fn fields_upto(members: Seq<RawMember>, n: nat, min_offset: u64) -> Result<
    Entries<DescField>,
    ReflectionError,
>
    decreases n,
{
    if n == 0 {
        Ok(Seq::empty())
    } else {
        match fields_upto(members, (n - 1) as nat, min_offset) {
            Err(e) => Err(e),
            Ok(table) => match field_layout(
                (n - 1) as usize,
                members[n - 1].offset,
                members[n - 1].size,
                members[n - 1].ty,
                min_offset,
            ) {
                Err(e) => Err(e),
                Ok(f) => Ok(put(table, members[n - 1].name@, f)),
            },
        }
    }
}

/// The member types of a type; none unless it is a struct.
pub open spec fn member_types_of(t: TypeShape) -> Option<Seq<u32>> {
    match t {
        TypeShape::Struct { member_types, .. } => Some(member_types@),
        _ => None,
    }
}

/// The fields of a resource: one for each member if its type is a struct,
/// none otherwise. A struct needs as many members as it has member types,
/// and no member can be laid out with an alignment of zero.
pub open spec fn fields_of(res: RawResource, min_offset: u64) -> Result<Entries<DescField>, ReflectionError> {
    match member_types_of(res.ty) {
        None => Ok(Seq::empty()),
        Some(types) => if types.len() != res.members@.len() {
            Err(ReflectionError::Malformed)
        } else if res.members@.len() > 0 && min_offset == 0 {
            Err(ReflectionError::ZeroAlignment)
        } else {
            fields_upto(res.members@, res.members@.len(), min_offset)
        },
    }
}

/// The binding that a resource declares, seen from `stage`.
pub open spec fn descriptor_of(res: RawResource, stage: ShaderStage, min_offset: u64) -> Result<
    DescriptorView,
    ReflectionError,
> {
    match kind_and_count(res.ty) {
        Err(e) => Err(e),
        Ok((ty, count)) => match fields_of(res, min_offset) {
            Err(e) => Err(e),
            Ok(fields) => Ok(
                DescriptorView {
                    set: res.set,
                    binding: res.binding,
                    name: res.name@,
                    ty,
                    count,
                    stage: StageSet::only_spec(stage),
                    fields,
                },
            ),
        },
    }
}

/// The push-constant block that a resource declares, seen from `stage`,
/// under its name.
pub open spec fn push_of(res: RawResource, stage: ShaderStage, min_offset: u64) -> Result<
    (Seq<char>, PushView),
    ReflectionError,
> {
    match fields_of(res, min_offset) {
        Err(e) => Err(e),
        Ok(fields) => if total_size(field_spans(fields)) > u32::MAX {
            Err(ReflectionError::LayoutOverflow)
        } else {
            Ok(
                (
                    res.name@,
                    PushView {
                        stage: StageSet::only_spec(stage),
                        offset: 0,
                        size: total_size(field_spans(fields)) as u32,
                        fields,
                    },
                ),
            )
        },
    }
}

/// The bindings of the first `n` resources of a list.
pub open spec fn descs_upto(list: Seq<RawResource>, n: nat, stage: ShaderStage, min_offset: u64) -> Result<
    Seq<DescriptorView>,
    ReflectionError,
>
    decreases n,
{
    if n == 0 {
        Ok(Seq::empty())
    } else {
        match descs_upto(list, (n - 1) as nat, stage, min_offset) {
            Err(e) => Err(e),
            Ok(ds) => match descriptor_of(list[n - 1], stage, min_offset) {
                Err(e) => Err(e),
                Ok(d) => Ok(ds.push(d)),
            },
        }
    }
}

/// The push-constant blocks of the first `n` resources of a list.
pub open spec fn pushes_upto(list: Seq<RawResource>, n: nat, stage: ShaderStage, min_offset: u64) -> Result<
    Entries<PushView>,
    ReflectionError,
>
    decreases n,
{
    if n == 0 {
        Ok(Seq::empty())
    } else {
        match pushes_upto(list, (n - 1) as nat, stage, min_offset) {
            Err(e) => Err(e),
            Ok(ps) => match push_of(list[n - 1], stage, min_offset) {
                Err(e) => Err(e),
                Ok(p) => Ok(ps.push(p)),
            },
        }
    }
}

/// The classes of resources in the order in which their bindings are listed.
pub open spec fn bound_classes() -> Seq<ResourceClass> {
    seq![
        ResourceClass::UniformBuffer,
        ResourceClass::SampledImage,
        ResourceClass::SeparateImage,
        ResourceClass::SeparateSampler,
        ResourceClass::StorageBuffer,
        ResourceClass::StorageImage,
    ]
}

/// The bindings of one class of resources of a module.
pub open spec fn class_descs(module: RawModule, class: ResourceClass, stage: ShaderStage, min_offset: u64) -> Result<
    Seq<DescriptorView>,
    ReflectionError,
> {
    descs_upto(class_list(module, class), class_list(module, class).len(), stage, min_offset)
}

/// The bindings of the first `n` classes of resources of a module.
pub open spec fn all_descs(module: RawModule, n: nat, stage: ShaderStage, min_offset: u64) -> Result<
    Seq<DescriptorView>,
    ReflectionError,
>
    decreases n,
{
    if n == 0 {
        Ok(Seq::empty())
    } else {
        match all_descs(module, (n - 1) as nat, stage, min_offset) {
            Err(e) => Err(e),
            Ok(ds) => match class_descs(module, bound_classes()[n - 1], stage, min_offset) {
                Err(e) => Err(e),
                Ok(more) => Ok(ds + more),
            },
        }
    }
}

/// The push-constant blocks of a module.
pub open spec fn all_pushes(module: RawModule, stage: ShaderStage, min_offset: u64) -> Result<
    Entries<PushView>,
    ReflectionError,
> {
    pushes_upto(module.push_constant_buffers@, module.push_constant_buffers@.len(), stage, min_offset)
}

/// The stage of a module: that of its entry point, if it declares exactly
/// one and the execution model of that one has a stage.
pub open spec fn stage_of(module: RawModule) -> Result<ShaderStage, ReflectionError> {
    if module.entry_points@.len() != 1 {
        Err(ReflectionError::EntryPoints)
    } else {
        match stage_of_model(module.entry_points@[0]) {
            None => Err(ReflectionError::UnsupportedStage),
            Some(stage) => Ok(stage),
        }
    }
}

/// What a module declares, with every field aligned to `min_offset`.
/// Nothing is declared unless everything can be reflected.
pub open spec fn reflect_spec(module: RawModule, min_offset: u64) -> Result<StageView, ReflectionError> {
    match stage_of(module) {
        Err(e) => Err(e),
        Ok(stage) => match all_descs(module, bound_classes().len(), stage, min_offset) {
            Err(e) => Err(e),
            Ok(resources) => match all_pushes(module, stage, min_offset) {
                Err(e) => Err(e),
                Ok(push_constants) => Ok(StageView { stage, resources, push_constants }),
            },
        },
    }
}

/// Once the first `n` members fail, the whole table fails in the same way.
pub proof fn lemma_fields_fail(members: Seq<RawMember>, n: nat, min_offset: u64)
    requires
        n <= members.len(),
        fields_upto(members, n, min_offset) is Err,
    ensures
        fields_upto(members, members.len(), min_offset) == fields_upto(members, n, min_offset),
    decreases members.len() - n,
{
    if n < members.len() {
        assert(fields_upto(members, n + 1, min_offset) == fields_upto(members, n, min_offset));
        lemma_fields_fail(members, n + 1, min_offset);
    }
}

/// Once the first `n` resources fail, the whole list fails in the same way.
pub proof fn lemma_descs_fail(list: Seq<RawResource>, n: nat, stage: ShaderStage, min_offset: u64)
    requires
        n <= list.len(),
        descs_upto(list, n, stage, min_offset) is Err,
    ensures
        descs_upto(list, list.len(), stage, min_offset) == descs_upto(list, n, stage, min_offset),
    decreases list.len() - n,
{
    if n < list.len() {
        assert(descs_upto(list, n + 1, stage, min_offset) == descs_upto(list, n, stage, min_offset));
        lemma_descs_fail(list, n + 1, stage, min_offset);
    }
}

/// Once the first `n` blocks fail, the whole list fails in the same way.
pub proof fn lemma_pushes_fail(list: Seq<RawResource>, n: nat, stage: ShaderStage, min_offset: u64)
    requires
        n <= list.len(),
        pushes_upto(list, n, stage, min_offset) is Err,
    ensures
        pushes_upto(list, list.len(), stage, min_offset) == pushes_upto(list, n, stage, min_offset),
    decreases list.len() - n,
{
    if n < list.len() {
        assert(pushes_upto(list, n + 1, stage, min_offset) == pushes_upto(list, n, stage, min_offset));
        lemma_pushes_fail(list, n + 1, stage, min_offset);
    }
}

/// Once the first `n` classes fail, all classes fail in the same way.
pub proof fn lemma_classes_fail(module: RawModule, n: nat, stage: ShaderStage, min_offset: u64)
    requires
        n <= bound_classes().len(),
        all_descs(module, n, stage, min_offset) is Err,
    ensures
        all_descs(module, bound_classes().len(), stage, min_offset) == all_descs(module, n, stage, min_offset),
    decreases bound_classes().len() - n,
{
    if n < bound_classes().len() {
        assert(all_descs(module, n + 1, stage, min_offset) == all_descs(module, n, stage, min_offset));
        lemma_classes_fail(module, n + 1, stage, min_offset);
    }
}

/// A field that is laid out starts on a multiple of the alignment, not
/// below its declared offset and less than one alignment step above it.
/// With an alignment of one byte it starts at its declared offset.
pub proof fn lemma_field_layout_aligned(
    index: usize,
    declared_offset: u32,
    declared_size: u32,
    shape: TypeShape,
    min_offset: u64,
)
    requires
        min_offset > 0,
        field_layout(index, declared_offset, declared_size, shape, min_offset) is Ok,
    ensures
        ({
            let f = field_layout(index, declared_offset, declared_size, shape, min_offset).unwrap();
            &&& f.offset % min_offset == 0
            &&& declared_offset <= f.offset < declared_offset + min_offset
            &&& min_offset == 1 ==> f.offset == declared_offset
            &&& f.size == declared_size
            &&& f.index == index
        }),
{
    lemma_align_up(declared_offset as nat, min_offset as nat);
    lemma_align_up_fits(declared_offset, min_offset);
}

/// Storing an aligned field in a table of aligned fields leaves a table of
/// aligned fields.
pub proof fn lemma_put_aligned(table: Entries<DescField>, name: Seq<char>, f: DescField, align: nat)
    requires
        all_aligned(table, align),
        f.offset as nat % align == 0,
    ensures
        all_aligned(put(table, name, f), align),
{
    let t = put(table, name, f);
    assert forall|i: int| 0 <= i < t.len() implies (#[trigger] t[i]).1.offset as nat % align == 0 by {
        if has_name(table, name) {
            let p = position(table, name);
            assert(0 <= p < table.len() && table[p].0 == name);
            if i != p {
                assert(t[i] == table[i]);
            }
        } else {
            if i < table.len() {
                assert(t[i] == table[i]);
            }
        }
    }
}

/// Every field of a table of members starts on a multiple of the
/// alignment, and no name occurs twice in the table.
pub proof fn lemma_fields_upto_aligned(members: Seq<RawMember>, n: nat, min_offset: u64)
    requires
        min_offset > 0,
        fields_upto(members, n, min_offset) is Ok,
    ensures
        all_aligned(fields_upto(members, n, min_offset).unwrap(), min_offset as nat),
        distinct_names(fields_upto(members, n, min_offset).unwrap()),
    decreases n,
{
    if n > 0 {
        lemma_fields_upto_aligned(members, (n - 1) as nat, min_offset);
        let table = fields_upto(members, (n - 1) as nat, min_offset).unwrap();
        let m = members[n - 1];
        let f = field_layout((n - 1) as usize, m.offset, m.size, m.ty, min_offset).unwrap();
        lemma_field_layout_aligned((n - 1) as usize, m.offset, m.size, m.ty, min_offset);
        lemma_put_aligned(table, m.name@, f, min_offset as nat);
        lemma_put(table, m.name@, f);
    }
}

/// Every field of every resource starts on a multiple of the alignment
/// that the resource was reflected with.
pub proof fn lemma_fields_aligned(res: RawResource, min_offset: u64)
    requires
        min_offset > 0,
        fields_of(res, min_offset) is Ok,
    ensures
        all_aligned(fields_of(res, min_offset).unwrap(), min_offset as nat),
        distinct_names(fields_of(res, min_offset).unwrap()),
{
    if member_types_of(res.ty) is Some {
        lemma_fields_upto_aligned(res.members@, res.members@.len(), min_offset);
    }
}

impl DescField {
    /// The fields of a resource: one for each member if its type is a
    /// struct, none otherwise. A member whose name is taken replaces the
    /// field of that name.
    pub fn from_desc_res(res: &RawResource, min_offset: u64) -> (r: Result<NameMap<DescField>, ReflectionError>)
        ensures
            fails_as(r, fields_of(*res, min_offset)),
            r matches Ok(m) ==> m.wf() && Ok::<Entries<DescField>, ReflectionError>(m@) == fields_of(
                *res,
                min_offset,
            ) && all_aligned(m@, min_offset as nat),
    {
        let mut fields: NameMap<DescField> = NameMap::new();
        match &res.ty {
            TypeShape::Struct { member_types, .. } => {
                if member_types.len() != res.members.len() {
                    return Err(ReflectionError::Malformed);
                }
                if res.members.len() > 0 && min_offset == 0 {
                    return Err(ReflectionError::ZeroAlignment);
                }
                if min_offset == 0 {
                    return Ok(fields);
                }
                let ghost members = res.members@;
                let mut i: usize = 0;
                while i < res.members.len()
                    invariant
                        i <= res.members.len(),
                        min_offset > 0,
                        members == res.members@,
                        member_types_of(res.ty) is Some,
                        member_types_of(res.ty).unwrap().len() == members.len(),
                        fields.wf(),
                        fields_upto(members, i as nat, min_offset) == Ok::<
                            Entries<DescField>,
                            ReflectionError,
                        >(fields@),
                    decreases res.members.len() - i,
                {
                    let member = &res.members[i];
                    proof {
                        if fields_upto(members, i as nat + 1, min_offset) is Err {
                            lemma_fields_fail(members, i as nat + 1, min_offset);
                        }
                    }
                    match DescField::new(i, member.offset, member.size, &member.ty, min_offset) {
                        Ok(field) => {
                            fields.insert(member.name.clone(), field);
                        },
                        Err(e) => {
                            return Err(e);
                        },
                    }
                    i += 1;
                }
            },
            _ => {},
        }
        proof {
            if min_offset > 0 && fields_of(*res, min_offset) is Ok {
                lemma_fields_aligned(*res, min_offset);
            }
        }
        Ok(fields)
    }
}

impl Descriptor {
    /// The binding that a resource declares, seen from `stage`: its slot,
    /// its name, the kind and count of its type, and its fields aligned to
    /// `min_offset`.
    pub fn new(stage: ShaderStage, res: &RawResource, min_offset: u64) -> (r: Result<Descriptor, ReflectionError>)
        ensures
            fails_as(r, descriptor_of(*res, stage, min_offset)),
            r matches Ok(d) ==> d.wf() && Ok::<DescriptorView, ReflectionError>(d@) == descriptor_of(
                *res,
                stage,
                min_offset,
            ) && all_aligned(d@.fields, min_offset as nat),
    {
        let (ty, count) = match cross_to_ash(&res.ty) {
            Ok(pair) => pair,
            Err(e) => {
                return Err(e);
            },
        };
        match DescField::from_desc_res(res, min_offset) {
            Err(e) => Err(e),
            Ok(fields) => Ok(
                Descriptor {
                    set: res.set,
                    binding: res.binding,
                    name: res.name.clone(),
                    ty,
                    count,
                    stage: StageSet::only(stage),
                    fields,
                },
            ),
        }
    }
}

impl PushConstant {
    /// The push-constant block that a resource declares, seen from
    /// `stage`: it starts at offset zero and is as large as its fields
    /// together.
    pub fn reflect(stage: ShaderStage, res: &RawResource, min_offset: u64) -> (r: Result<
        (String, PushConstant),
        ReflectionError,
    >)
        ensures
            fails_as(r, push_of(*res, stage, min_offset)),
            r matches Ok(p) ==> p.1.wf() && Ok::<(Seq<char>, PushView), ReflectionError>((p.0@, p.1@))
                == push_of(*res, stage, min_offset),
    {
        match DescField::from_desc_res(res, min_offset) {
            Err(e) => Err(e),
            Ok(fields) => match PushConstant::new(StageSet::only(stage), fields) {
                Err(_) => Err(ReflectionError::LayoutOverflow),
                Ok(block) => Ok((res.name.clone(), block)),
            },
        }
    }
}

/// The stage of a module: that of its entry point, if it declares exactly
/// one and the execution model of that one has a stage.
pub fn stage_of_module(module: &RawModule) -> (r: Result<ShaderStage, ReflectionError>)
    ensures
        r == stage_of(*module),
{
    if module.entry_points.len() != 1 {
        return Err(ReflectionError::EntryPoints);
    }
    match ShaderStage::from_model(module.entry_points[0]) {
        None => Err(ReflectionError::UnsupportedStage),
        Some(stage) => Ok(stage),
    }
}

/// The bindings of a list of resources, in the order of the list.
pub fn bindings_of(list: &Vec<RawResource>, stage: ShaderStage, min_offset: u64) -> (r: Result<
    Vec<Descriptor>,
    ReflectionError,
>)
    ensures
        fails_as(r, descs_upto(list@, list@.len(), stage, min_offset)),
        r matches Ok(v) ==> descs_wf(v@) && Ok::<Seq<DescriptorView>, ReflectionError>(descs_view(v@))
            == descs_upto(list@, list@.len(), stage, min_offset),
{
    let mut out: Vec<Descriptor> = Vec::new();
    let mut i: usize = 0;
    proof {
        assert(descs_view(out@) =~= Seq::<DescriptorView>::empty());
    }
    while i < list.len()
        invariant
            i <= list.len(),
            descs_wf(out@),
            descs_upto(list@, i as nat, stage, min_offset) == Ok::<Seq<DescriptorView>, ReflectionError>(
                descs_view(out@),
            ),
        decreases list.len() - i,
    {
        match Descriptor::new(stage, &list[i], min_offset) {
            Err(e) => {
                proof {
                    lemma_descs_fail(list@, i as nat + 1, stage, min_offset);
                }
                return Err(e);
            },
            Ok(d) => {
                let ghost before = out@;
                out.push(d);
                proof {
                    assert(descs_view(out@) =~= descs_view(before).push(d@));
                    assert forall|k: int| 0 <= k < out@.len() implies (#[trigger] out@[k]).wf() by {
                        if k < before.len() {
                            assert(out@[k] == before[k]);
                        }
                    }
                }
            },
        }
        i += 1;
    }
    Ok(out)
}

/// The push-constant blocks of a module, in the order in which the module
/// lists them, each under its name.
pub fn push_blocks(module: &RawModule, stage: ShaderStage, min_offset: u64) -> (r: Result<
    Vec<(String, PushConstant)>,
    ReflectionError,
>)
    ensures
        fails_as(r, all_pushes(*module, stage, min_offset)),
        r matches Ok(v) ==> pushes_wf(v@) && Ok::<Entries<PushView>, ReflectionError>(pushes_view(v@))
            == all_pushes(*module, stage, min_offset),
{
    let list = &module.push_constant_buffers;
    let mut out: Vec<(String, PushConstant)> = Vec::new();
    let mut i: usize = 0;
    proof {
        assert(pushes_view(out@) =~= Seq::<(Seq<char>, PushView)>::empty());
    }
    while i < list.len()
        invariant
            i <= list.len(),
            list@ == module.push_constant_buffers@,
            pushes_wf(out@),
            pushes_upto(list@, i as nat, stage, min_offset) == Ok::<Entries<PushView>, ReflectionError>(
                pushes_view(out@),
            ),
        decreases list.len() - i,
    {
        match PushConstant::reflect(stage, &list[i], min_offset) {
            Err(e) => {
                proof {
                    lemma_pushes_fail(list@, i as nat + 1, stage, min_offset);
                }
                return Err(e);
            },
            Ok(p) => {
                let ghost before = out@;
                let ghost entry = (p.0@, p.1@);
                out.push(p);
                proof {
                    assert(pushes_view(out@) =~= pushes_view(before).push(entry));
                    assert forall|k: int| 0 <= k < out@.len() implies (#[trigger] out@[k]).1.wf() by {
                        if k < before.len() {
                            assert(out@[k] == before[k]);
                        }
                    }
                }
            },
        }
        i += 1;
    }
    Ok(out)
}

/// Reflects what one stage declares: its stage, the resources that it
/// binds and its push-constant blocks, with every field aligned to
/// `min_offset`. Nothing is returned unless everything can be reflected.
pub fn reflect_stage(module: &RawModule, min_offset: u64) -> (r: Result<StageReflection, ReflectionError>)
    ensures
        fails_as(r, reflect_spec(*module, min_offset)),
        r matches Ok(s) ==> s.wf() && Ok::<StageView, ReflectionError>(s@) == reflect_spec(*module, min_offset),
{
    let stage = match stage_of_module(module) {
        Ok(stage) => stage,
        Err(e) => {
            return Err(e);
        },
    };
    let classes = vec![
        ResourceClass::UniformBuffer,
        ResourceClass::SampledImage,
        ResourceClass::SeparateImage,
        ResourceClass::SeparateSampler,
        ResourceClass::StorageBuffer,
        ResourceClass::StorageImage,
    ];
    assert(classes@ =~= bound_classes());
    let mut resources: Vec<Descriptor> = Vec::new();
    let mut i: usize = 0;
    proof {
        assert(descs_view(resources@) =~= Seq::<DescriptorView>::empty());
    }
    while i < classes.len()
        invariant
            i <= classes.len(),
            classes@ == bound_classes(),
            stage_of(*module) == Ok::<ShaderStage, ReflectionError>(stage),
            descs_wf(resources@),
            all_descs(*module, i as nat, stage, min_offset) == Ok::<Seq<DescriptorView>, ReflectionError>(
                descs_view(resources@),
            ),
        decreases classes.len() - i,
    {
        match bindings_of(module.resources(classes[i]), stage, min_offset) {
            Err(e) => {
                proof {
                    lemma_classes_fail(*module, i as nat + 1, stage, min_offset);
                }
                return Err(e);
            },
            Ok(mut more) => {
                let ghost before = resources@;
                let ghost added = more@;
                resources.append(&mut more);
                proof {
                    assert(descs_view(resources@) =~= descs_view(before) + descs_view(added));
                    assert forall|k: int| 0 <= k < resources@.len() implies (#[trigger] resources@[k]).wf() by {
                        if k < before.len() {
                            assert(resources@[k] == before[k]);
                        } else {
                            assert(resources@[k] == added[k - before.len()]);
                        }
                    }
                }
            },
        }
        i += 1;
    }
    match push_blocks(module, stage, min_offset) {
        Err(e) => Err(e),
        Ok(push_constants) => Ok(StageReflection { stage, resources, push_constants }),
    }
}

} // verus!
