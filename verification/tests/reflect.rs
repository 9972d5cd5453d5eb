use shader_binding::layout::{DescField, DescKind};
use shader_binding::pool::DescPoolToken;
use shader_binding::push::PushConstant;
use shader_binding::raw::{RawMember, RawModule, RawResource, ResourceClass, TypeShape};
use shader_binding::reflect::{bindings_of, push_blocks, reflect_stage, stage_of_module, ReflectionError};
use shader_binding::descriptor::Descriptor;
use shader_binding::shader::{ChainError, MetaShader};
use shader_binding::stage::{ExecModel, ShaderStage, StageSet};

fn float() -> TypeShape {
    TypeShape::Float { array: vec![] }
}

fn member(name: &str, offset: u32, size: u32) -> RawMember {
    RawMember { name: name.to_string(), ty: float(), offset, size }
}

fn block(name: &str, set: u32, binding: u32, members: Vec<RawMember>) -> RawResource {
    RawResource {
        name: name.to_string(),
        set,
        binding,
        ty: TypeShape::Struct { member_types: (0..members.len() as u32).collect(), array: vec![] },
        members,
    }
}

fn opaque(name: &str, set: u32, binding: u32, ty: TypeShape) -> RawResource {
    RawResource { name: name.to_string(), set, binding, ty, members: vec![] }
}

fn module(model: ExecModel) -> RawModule {
    RawModule {
        entry_points: vec![model],
        uniform_buffers: vec![],
        sampled_images: vec![],
        separate_images: vec![],
        separate_samplers: vec![],
        storage_buffers: vec![],
        storage_images: vec![],
        push_constant_buffers: vec![],
    }
}

fn scene(model: ExecModel) -> RawModule {
    let mut scene = module(model);
    scene.separate_samplers.push(opaque("samp", 1, 0, TypeShape::Sampler { array: vec![] }));
    scene.uniform_buffers.push(block("Globals", 0, 0, vec![member("color", 0, 16), member("intensity", 16, 4)]));
    scene.separate_images.push(opaque("tex", 1, 1, TypeShape::Image { array: vec![] }));
    scene.sampled_images.push(opaque("lit", 1, 2, TypeShape::SampledImage { array: vec![4] }));
    scene.storage_images.push(opaque("target", 2, 5, TypeShape::Image { array: vec![] }));
    scene.storage_buffers.push(block("Particles", 2, 0, vec![member("count", 0, 4)]));
    scene.push_constant_buffers.push(block("pc", 0, 0, vec![member("mvp", 0, 64), member("tint", 64, 16)]));
    scene
}

fn field(index: usize, offset: u64, size: u64) -> DescField {
    DescField { index, offset, size, ty: DescKind::UniformBuffer, count: 1 }
}

#[test]
fn resources_are_listed_class_by_class() {
    let stage = reflect_stage(&scene(ExecModel::Vertex), 256).unwrap();
    assert_eq!(stage.stage, ShaderStage::Vert);
    let seen: Vec<(&str, u32, u32, DescKind, usize, usize)> = stage
        .resources
        .iter()
        .map(|d| (d.name.as_str(), d.set, d.binding, d.ty, d.count, d.fields.len()))
        .collect();
    assert_eq!(
        seen,
        vec![
            ("Globals", 0, 0, DescKind::UniformBuffer, 1, 2),
            ("lit", 1, 2, DescKind::CombinedImageSampler, 4, 0),
            ("tex", 1, 1, DescKind::SampledImage, 1, 0),
            ("samp", 1, 0, DescKind::Sampler, 1, 0),
            ("Particles", 2, 0, DescKind::UniformBuffer, 1, 1),
            ("target", 2, 5, DescKind::SampledImage, 1, 0),
        ]
    );
    assert!(stage.resources.iter().all(|d| d.stage == StageSet::only(ShaderStage::Vert)));
    let scene = scene(ExecModel::Vertex);
    assert_eq!(scene.resources(ResourceClass::SeparateSampler)[0].name, "samp");
    assert_eq!(scene.resources(ResourceClass::StorageBuffer)[0].name, "Particles");
    assert!(scene.resources(ResourceClass::UniformBuffer).len() == 1);
}

#[test]
fn members_become_fields_with_aligned_offsets() {
    let stage = reflect_stage(&scene(ExecModel::Fragment), 256).unwrap();
    let globals = &stage.resources[0];
    assert_eq!(globals.fields.name_at(0), "color");
    assert_eq!(globals.fields.name_at(1), "intensity");
    assert_eq!(globals.fields.get("color"), Some(&field(0, 0, 16)));
    assert_eq!(globals.fields.get("intensity"), Some(&field(1, 256, 4)));
    assert_eq!(globals.make_buffer().unwrap().size, 260);
    let tight = reflect_stage(&scene(ExecModel::Fragment), 1).unwrap();
    assert_eq!(tight.resources[0].fields.get("intensity"), Some(&field(1, 16, 4)));
    assert_eq!(tight.resources[0].make_buffer().unwrap().size, 20);
}

#[test]
fn a_member_takes_kind_and_count_from_its_own_type() {
    let mut lights = block("Lights", 0, 0, vec![member("power", 0, 48), member("dir", 48, 160)]);
    lights.members[0].ty = TypeShape::Float { array: vec![3] };
    lights.members[1].ty = TypeShape::Float { array: vec![5, 2] };
    let d = Descriptor::new(ShaderStage::Frag, &lights, 64).unwrap();
    assert_eq!(
        d.fields.get("power"),
        Some(&DescField { index: 0, offset: 0, size: 48, ty: DescKind::UniformBuffer, count: 3 })
    );
    assert_eq!(
        d.fields.get("dir"),
        Some(&DescField { index: 1, offset: 64, size: 160, ty: DescKind::UniformBuffer, count: 10 })
    );
}

#[test]
fn a_member_name_that_comes_twice_keeps_its_place_and_its_last_layout() {
    let twice = block("B", 0, 0, vec![member("a", 0, 4), member("b", 4, 4), member("a", 8, 8)]);
    let fields = DescField::from_desc_res(&twice, 4).unwrap();
    assert_eq!(fields.len(), 2);
    assert_eq!(fields.name_at(0), "a");
    assert_eq!(fields.get("a"), Some(&field(2, 8, 8)));
    assert_eq!(fields.get("b"), Some(&field(1, 4, 4)));
}

#[test]
fn members_of_a_type_that_is_no_struct_are_passed_over() {
    let mut odd = opaque("samp", 0, 0, TypeShape::Sampler { array: vec![] });
    odd.members.push(member("x", 0, 4));
    assert!(DescField::from_desc_res(&odd, 4).unwrap().is_empty());
}

#[test]
fn push_constant_blocks_start_at_zero_and_add_their_fields_up() {
    let stage = reflect_stage(&scene(ExecModel::Vertex), 64).unwrap();
    assert_eq!(stage.push_constants.len(), 1);
    let (name, block) = &stage.push_constants[0];
    assert_eq!(name, "pc");
    assert_eq!(block.stage, StageSet::only(ShaderStage::Vert));
    assert_eq!(block.offset, 0);
    assert_eq!(block.size, 80);
    assert_eq!(block.fields.get("tint"), Some(&field(1, 64, 16)));
    assert_eq!(block.write("tint", &[0u8; 16]).unwrap().offset, 64);
    let blocks = push_blocks(&scene(ExecModel::Geometry), ShaderStage::Geom, 256).unwrap();
    assert_eq!(blocks[0].1.fields.get("tint"), Some(&field(1, 256, 16)));
    assert_eq!(blocks[0].1.size, 80);
}

#[test]
fn a_push_constant_block_larger_than_32_bits_is_refused() {
    let half = 1u32 << 31;
    let fits = block("pc", 0, 0, vec![member("a", 0, half), member("b", 0, half - 1)]);
    let (_, pc): (String, PushConstant) = PushConstant::reflect(ShaderStage::Vert, &fits, 1).unwrap();
    assert_eq!(pc.size, u32::MAX);
    let large = block("pc", 0, 0, vec![member("a", 0, half), member("b", 0, half)]);
    assert_eq!(PushConstant::reflect(ShaderStage::Vert, &large, 1).err(), Some(ReflectionError::LayoutOverflow));
    let mut with_block = module(ExecModel::Vertex);
    with_block.push_constant_buffers.push(large);
    assert_eq!(reflect_stage(&with_block, 1).err(), Some(ReflectionError::LayoutOverflow));
}

#[test]
fn the_stage_is_that_of_the_single_entry_point() {
    assert_eq!(stage_of_module(&module(ExecModel::Vertex)), Ok(ShaderStage::Vert));
    assert_eq!(stage_of_module(&module(ExecModel::Fragment)), Ok(ShaderStage::Frag));
    assert_eq!(stage_of_module(&module(ExecModel::Geometry)), Ok(ShaderStage::Geom));
    for model in [
        ExecModel::GlCompute,
        ExecModel::Kernel,
        ExecModel::TessellationControl,
        ExecModel::TessellationEvaluation,
    ] {
        assert_eq!(reflect_stage(&module(model), 4).err(), Some(ReflectionError::UnsupportedStage));
    }
}

#[test]
fn a_module_needs_exactly_one_entry_point() {
    let mut none = module(ExecModel::Vertex);
    none.entry_points.clear();
    assert_eq!(reflect_stage(&none, 4).err(), Some(ReflectionError::EntryPoints));
    let mut two = module(ExecModel::Vertex);
    two.entry_points.push(ExecModel::Fragment);
    assert_eq!(reflect_stage(&two, 4).err(), Some(ReflectionError::EntryPoints));
    let mut compute_twice = module(ExecModel::GlCompute);
    compute_twice.entry_points.push(ExecModel::GlCompute);
    assert_eq!(reflect_stage(&compute_twice, 4).err(), Some(ReflectionError::EntryPoints));
}

#[test]
fn a_resource_of_an_unsupported_type_fails_the_stage() {
    for ty in [
        TypeShape::Void,
        TypeShape::Unknown,
        TypeShape::ControlPointArray,
        TypeShape::AccelerationStructureNv,
    ] {
        let mut bad = scene(ExecModel::Vertex);
        bad.storage_images.push(opaque("odd", 3, 0, ty.clone()));
        assert_eq!(reflect_stage(&bad, 4).err(), Some(ReflectionError::UnsupportedType));
        let mut bad = scene(ExecModel::Vertex);
        bad.uniform_buffers[0].members[1].ty = ty;
        assert_eq!(reflect_stage(&bad, 4).err(), Some(ReflectionError::UnsupportedType));
    }
}

#[test]
fn an_uncountable_array_fails_the_stage() {
    let mut bad = scene(ExecModel::Vertex);
    bad.sampled_images[0].ty = TypeShape::SampledImage { array: vec![u32::MAX, u32::MAX, 2] };
    assert_eq!(reflect_stage(&bad, 4).err(), Some(ReflectionError::ArrayTooLarge));
}

#[test]
fn a_struct_needs_a_member_for_each_member_type() {
    let mut short = block("B", 0, 0, vec![member("a", 0, 4)]);
    short.ty = TypeShape::Struct { member_types: vec![6, 6], array: vec![] };
    assert_eq!(DescField::from_desc_res(&short, 4).err(), Some(ReflectionError::Malformed));
    assert_eq!(Descriptor::new(ShaderStage::Vert, &short, 4).err(), Some(ReflectionError::Malformed));
    let mut with_block = module(ExecModel::Vertex);
    with_block.uniform_buffers.push(short);
    assert_eq!(reflect_stage(&with_block, 4).err(), Some(ReflectionError::Malformed));
}

#[test]
fn the_first_failure_in_the_order_of_the_classes_is_reported() {
    let mut bad = scene(ExecModel::Vertex);
    bad.storage_images[0].ty = TypeShape::Void;
    bad.sampled_images[0].ty = TypeShape::SampledImage { array: vec![u32::MAX, u32::MAX, 2] };
    bad.push_constant_buffers[0].members[0].size = u32::MAX;
    bad.push_constant_buffers[0].members[1].size = u32::MAX;
    assert_eq!(reflect_stage(&bad, 4).err(), Some(ReflectionError::ArrayTooLarge));
    bad.sampled_images.clear();
    assert_eq!(reflect_stage(&bad, 4).err(), Some(ReflectionError::UnsupportedType));
    bad.storage_images.clear();
    assert_eq!(reflect_stage(&bad, 4).err(), Some(ReflectionError::LayoutOverflow));
    bad.entry_points.clear();
    assert_eq!(reflect_stage(&bad, 4).err(), Some(ReflectionError::EntryPoints));
}

#[test]
fn a_list_of_resources_keeps_its_order() {
    let list = vec![
        opaque("b", 0, 1, TypeShape::Sampler { array: vec![] }),
        opaque("a", 0, 0, TypeShape::Image { array: vec![2] }),
    ];
    let bindings = bindings_of(&list, ShaderStage::Frag, 16).unwrap();
    let seen: Vec<(&str, u32, DescKind, usize)> =
        bindings.iter().map(|d| (d.name.as_str(), d.binding, d.ty, d.count)).collect();
    assert_eq!(seen, vec![("b", 1, DescKind::Sampler, 1), ("a", 0, DescKind::SampledImage, 2)]);
    assert!(bindings_of(&vec![], ShaderStage::Frag, 16).unwrap().is_empty());
}

#[test]
fn a_stage_that_cannot_be_reflected_adds_nothing() {
    let mut builder = DescPoolToken::builder(16);
    assert_eq!(builder.add(&scene(ExecModel::Vertex)), Ok(()));
    let before = format!("{:?}", builder);
    assert_eq!(builder.add(&module(ExecModel::GlCompute)), Err(ReflectionError::UnsupportedStage));
    let mut bad = scene(ExecModel::Fragment);
    bad.separate_images[0].ty = TypeShape::Void;
    assert_eq!(builder.add(&bad), Err(ReflectionError::UnsupportedType));
    assert_eq!(format!("{:?}", builder), before);
    assert_eq!(builder.data.len(), 6);
    assert_eq!(builder.push_consts.len(), 1);
}

#[test]
fn two_stages_that_declare_one_block_leave_one_block() {
    let mut builder = DescPoolToken::builder(64);
    assert_eq!(builder.add(&scene(ExecModel::Vertex)), Ok(()));
    assert_eq!(builder.add(&scene(ExecModel::Fragment)), Ok(()));
    assert_eq!(builder.data.len(), 12);
    assert_eq!(builder.push_consts.len(), 1);
    assert!(!builder.push_conflict);
    let (name, block) = &builder.push_consts[0];
    assert_eq!(name, "pc");
    assert_eq!(block.stage, StageSet { vert: true, frag: true, geom: false });
    assert_eq!((block.offset, block.size), (0, 80));
    assert_eq!(block.fields.get("mvp"), Some(&field(0, 0, 64)));
    assert_eq!(block.fields.get("tint"), Some(&field(1, 64, 16)));
    let mut other = scene(ExecModel::Geometry);
    other.push_constant_buffers[0].members[1].size = 32;
    assert_eq!(builder.add(&other), Ok(()));
    assert!(builder.push_conflict);
    assert_eq!(builder.push_consts.len(), 1);
    assert_eq!(builder.push_consts[0].1.size, 80);
    assert_eq!(builder.build().err(), Some(shader_binding::pool::BuildError::PushConstantConflict));
}

#[test]
fn an_alignment_of_zero_is_refused_where_a_field_is_laid_out() {
    assert_eq!(reflect_stage(&scene(ExecModel::Vertex), 0).err(), Some(ReflectionError::ZeroAlignment));
    let mut plain = module(ExecModel::Fragment);
    plain.separate_samplers.push(opaque("samp", 0, 0, TypeShape::Sampler { array: vec![] }));
    plain.uniform_buffers.push(block("Empty", 0, 1, vec![]));
    let stage = reflect_stage(&plain, 0).unwrap();
    assert_eq!(stage.resources.len(), 2);
    assert!(stage.resources.iter().all(|d| d.fields.is_empty()));
    let mut builder = DescPoolToken::builder(0);
    assert_eq!(builder.add(&plain), Ok(()));
    assert_eq!(builder.add(&scene(ExecModel::Vertex)), Err(ReflectionError::ZeroAlignment));
    assert_eq!(builder.data.len(), 2);
    let globals = block("Globals", 0, 0, vec![member("color", 0, 16)]);
    assert_eq!(DescField::from_desc_res(&globals, 0).err(), Some(ReflectionError::ZeroAlignment));
    assert_eq!(
        MetaShader::build_chain(&vec![scene(ExecModel::Vertex)], 0).err(),
        Some(ChainError::Reflection(ReflectionError::ZeroAlignment))
    );
    let mut short = block("B", 0, 0, vec![member("a", 0, 4)]);
    short.ty = TypeShape::Struct { member_types: vec![], array: vec![] };
    assert_eq!(DescField::from_desc_res(&short, 0).err(), Some(ReflectionError::Malformed));
}

#[test]
fn a_builder_takes_any_alignment() {
    for alignment in [0u64, 1, 256, u64::MAX] {
        let builder = DescPoolToken::builder(alignment);
        assert_eq!(builder.min_offset, alignment);
        assert!(builder.data.is_empty());
        assert!(builder.push_consts.is_empty());
        let (pool, pushes) = builder.build().unwrap();
        assert_eq!(pool.max_sets(), 0);
        assert!(pushes.is_empty());
    }
}

#[test]
fn a_chain_of_stages_unites_what_they_declare() {
    let chain = vec![scene(ExecModel::Vertex), scene(ExecModel::Fragment)];
    let (pool, pushes) = MetaShader::build_chain(&chain, 256).unwrap();
    assert_eq!(pool.max_sets(), 3);
    let both = StageSet { vert: true, frag: true, geom: false };
    assert!(pool.sets.iter().all(|s| s.descriptors.iter().all(|d| d.stage == both)));
    assert_eq!(pool.pool_sizes().len(), 6);
    assert_eq!(pool.pool_sizes()[1].descriptor_count, 4);
    assert_eq!(pushes.len(), 1);
    assert_eq!(pushes[0].1.stage, both);
    let failing = vec![scene(ExecModel::Vertex), module(ExecModel::Kernel), scene(ExecModel::Fragment)];
    assert_eq!(
        MetaShader::build_chain(&failing, 256).err(),
        Some(ChainError::Reflection(ReflectionError::UnsupportedStage))
    );
    let (empty, _) = MetaShader::build_chain(&vec![], 256).unwrap();
    assert_eq!(empty.max_sets(), 0);
}
