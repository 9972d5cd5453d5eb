use shader_binding::buffer::BufStruct;
use shader_binding::descriptor::{DescWriteInfo, Descriptor, LayoutBinding, PoolSize, WriteRecord};
use shader_binding::layout::{BufField, DescField, DescKind, LayoutError};
use shader_binding::merge::{find_slot, merge_binding, merge_bindings};
use shader_binding::namemap::NameMap;
use shader_binding::pool::{
    find_push, group_sets, merge_push, BuildError, DescPoolBuilder, DescPoolToken,
};
use shader_binding::push::PushConstant;
use shader_binding::reflect::StageReflection;
use shader_binding::stage::{ShaderStage, StageSet};

fn field(index: usize, offset: u64, size: u64) -> DescField {
    DescField { index, offset, size, ty: DescKind::UniformBuffer, count: 1 }
}

fn table(fields: &[(&str, u64, u64)]) -> NameMap<DescField> {
    let mut map = NameMap::new();
    for (index, (name, offset, size)) in fields.iter().enumerate() {
        map.insert(name.to_string(), field(index, *offset, *size));
    }
    map
}

fn block(set: u32, binding: u32, name: &str, stage: ShaderStage, fields: &[(&str, u64, u64)]) -> Descriptor {
    Descriptor {
        set,
        binding,
        name: name.to_string(),
        ty: DescKind::UniformBuffer,
        count: 1,
        stage: StageSet::only(stage),
        fields: table(fields),
    }
}

fn opaque(set: u32, binding: u32, name: &str, ty: DescKind, stage: ShaderStage) -> Descriptor {
    Descriptor {
        set,
        binding,
        name: name.to_string(),
        ty,
        count: 1,
        stage: StageSet::only(stage),
        fields: NameMap::new(),
    }
}

fn camera(stage: ShaderStage) -> Descriptor {
    block(0, 0, "Camera", stage, &[("view", 0, 64), ("proj", 64, 64)])
}

fn stage_of(stage: ShaderStage, resources: Vec<Descriptor>, push_constants: Vec<(String, PushConstant)>) -> StageReflection {
    StageReflection { stage, resources, push_constants }
}

fn push(stage: ShaderStage, fields: &[(&str, u64, u64)]) -> PushConstant {
    PushConstant::new(StageSet::only(stage), table(fields)).unwrap()
}

#[test]
fn camera_in_vertex_and_fragment_stage_is_one_binding() {
    let mut builder = DescPoolToken::builder(256);
    builder.add_stage(stage_of(ShaderStage::Vert, vec![camera(ShaderStage::Vert)], vec![]));
    builder.add_stage(stage_of(ShaderStage::Frag, vec![camera(ShaderStage::Frag)], vec![]));
    assert_eq!(builder.data.len(), 2);
    let (pool, pushes) = builder.build().unwrap();
    assert!(pushes.is_empty());
    assert_eq!(pool.sets.len(), 1);
    assert_eq!(pool.sets[0].index, 0);
    assert_eq!(pool.sets[0].descriptors.len(), 1);
    let merged = &pool.sets[0].descriptors[0];
    assert_eq!((merged.set, merged.binding), (0, 0));
    assert_eq!(merged.name, "Camera");
    assert_eq!(merged.stage, StageSet { vert: true, frag: true, geom: false });
    assert_eq!(merged.fields.len(), 2);
    assert_eq!(merged.fields.get("proj"), Some(&field(1, 64, 64)));
}

#[test]
fn merging_unites_the_stages_of_a_slot() {
    let merged = merge_bindings(vec![
        camera(ShaderStage::Vert),
        opaque(0, 1, "samp", DescKind::Sampler, ShaderStage::Frag),
        camera(ShaderStage::Geom),
        camera(ShaderStage::Vert),
        opaque(0, 1, "samp", DescKind::Sampler, ShaderStage::Frag),
    ])
    .unwrap();
    assert_eq!(merged.len(), 2);
    assert_eq!(merged[0].name, "Camera");
    assert_eq!(merged[0].stage, StageSet { vert: true, frag: false, geom: true });
    assert_eq!(merged[1].name, "samp");
    assert_eq!(merged[1].stage, StageSet { vert: false, frag: true, geom: false });
    assert_eq!(find_slot(&merged, 0, 1), Some(1));
    assert_eq!(find_slot(&merged, 1, 0), None);
}

#[test]
fn merging_keeps_the_first_name_of_a_slot() {
    let merged = merge_bindings(vec![
        block(0, 0, "Camera", ShaderStage::Vert, &[("vp", 0, 64)]),
        block(0, 0, "Cam", ShaderStage::Frag, &[("vp", 0, 64)]),
    ])
    .unwrap();
    assert_eq!(merged.len(), 1);
    assert_eq!(merged[0].name, "Camera");
    assert_eq!(merged[0].stage, StageSet { vert: true, frag: true, geom: false });
}

#[test]
fn stages_that_disagree_on_a_slot_do_not_merge() {
    let different_size = vec![
        block(0, 0, "Camera", ShaderStage::Vert, &[("vp", 0, 64)]),
        block(0, 0, "Camera", ShaderStage::Frag, &[("vp", 0, 48)]),
    ];
    assert!(merge_bindings(different_size).is_none());
    let different_offset = vec![
        block(0, 0, "Camera", ShaderStage::Vert, &[("a", 0, 16), ("b", 16, 16)]),
        block(0, 0, "Camera", ShaderStage::Frag, &[("a", 0, 16), ("b", 256, 16)]),
    ];
    assert!(merge_bindings(different_offset).is_none());
    let different_field_name = vec![
        block(0, 0, "Camera", ShaderStage::Vert, &[("vp", 0, 64)]),
        block(0, 0, "Camera", ShaderStage::Frag, &[("pv", 0, 64)]),
    ];
    assert!(merge_bindings(different_field_name).is_none());
    let fewer_fields = vec![
        block(0, 0, "Camera", ShaderStage::Vert, &[("a", 0, 16), ("b", 16, 16)]),
        block(0, 0, "Camera", ShaderStage::Frag, &[("a", 0, 16)]),
    ];
    assert!(merge_bindings(fewer_fields).is_none());
    let different_kind = vec![
        opaque(2, 3, "tex", DescKind::SampledImage, ShaderStage::Vert),
        opaque(2, 3, "tex", DescKind::Sampler, ShaderStage::Frag),
    ];
    assert!(merge_bindings(different_kind).is_none());
    let mut twice = opaque(2, 3, "tex", DescKind::SampledImage, ShaderStage::Frag);
    twice.count = 2;
    let different_count = vec![opaque(2, 3, "tex", DescKind::SampledImage, ShaderStage::Vert), twice];
    assert!(merge_bindings(different_count).is_none());
}

#[test]
fn a_declaration_that_does_not_fit_leaves_the_list_alone() {
    let mut acc = vec![block(0, 0, "Camera", ShaderStage::Vert, &[("vp", 0, 64)])];
    let ok = merge_binding(&mut acc, block(0, 0, "Camera", ShaderStage::Frag, &[("vp", 0, 32)]));
    assert!(!ok);
    assert_eq!(acc.len(), 1);
    assert_eq!(acc[0].stage, StageSet::only(ShaderStage::Vert));
    let ok = merge_binding(&mut acc, block(0, 1, "Light", ShaderStage::Frag, &[("dir", 0, 16)]));
    assert!(ok);
    assert_eq!(acc.len(), 2);
}

#[test]
fn build_reports_a_binding_conflict() {
    let mut builder = DescPoolToken::builder(16);
    builder.add_stage(stage_of(ShaderStage::Vert, vec![block(0, 0, "Camera", ShaderStage::Vert, &[("vp", 0, 64)])], vec![]));
    builder.add_stage(stage_of(ShaderStage::Frag, vec![block(0, 0, "Camera", ShaderStage::Frag, &[("vp", 0, 16)])], vec![]));
    assert_eq!(builder.build().err(), Some(BuildError::BindingConflict));
}

#[test]
fn build_reports_a_push_constant_conflict() {
    let mut builder = DescPoolToken::builder(16);
    builder.add_stage(stage_of(
        ShaderStage::Vert,
        vec![],
        vec![("pc".to_string(), push(ShaderStage::Vert, &[("mvp", 0, 64)]))],
    ));
    builder.add_stage(stage_of(
        ShaderStage::Frag,
        vec![],
        vec![("pc".to_string(), push(ShaderStage::Frag, &[("mvp", 0, 64), ("tint", 64, 16)]))],
    ));
    assert_eq!(builder.build().err(), Some(BuildError::PushConstantConflict));
}

#[test]
fn a_binding_conflict_is_reported_before_a_push_constant_conflict() {
    let mut builder = DescPoolToken::builder(16);
    builder.add_stage(stage_of(
        ShaderStage::Vert,
        vec![block(0, 0, "Camera", ShaderStage::Vert, &[("vp", 0, 64)])],
        vec![("pc".to_string(), push(ShaderStage::Vert, &[("mvp", 0, 64)]))],
    ));
    builder.add_stage(stage_of(
        ShaderStage::Frag,
        vec![block(0, 0, "Camera", ShaderStage::Frag, &[("vp", 0, 16)])],
        vec![("pc".to_string(), push(ShaderStage::Frag, &[("mvp", 0, 32)]))],
    ));
    assert_eq!(builder.build().err(), Some(BuildError::BindingConflict));
}

#[test]
fn push_constant_blocks_of_one_name_unite_their_stages() {
    let mut builder = DescPoolToken::builder(16);
    builder.add_stage(stage_of(
        ShaderStage::Vert,
        vec![],
        vec![("pc".to_string(), push(ShaderStage::Vert, &[("mvp", 0, 64), ("tint", 64, 16)]))],
    ));
    assert_eq!(builder.push_consts.len(), 1);
    assert_eq!(builder.push_consts[0].1.stage, StageSet::only(ShaderStage::Vert));
    builder.add_stage(stage_of(
        ShaderStage::Geom,
        vec![],
        vec![("other".to_string(), push(ShaderStage::Geom, &[("k", 0, 4)]))],
    ));
    builder.add_stage(stage_of(
        ShaderStage::Frag,
        vec![],
        vec![("pc".to_string(), push(ShaderStage::Frag, &[("mvp", 0, 64), ("tint", 64, 16)]))],
    ));
    assert!(!builder.push_conflict);
    assert_eq!(builder.push_consts.len(), 2);
    assert_eq!(builder.push_consts[0].0, "pc");
    assert_eq!(builder.push_consts[0].1.stage, StageSet { vert: true, frag: true, geom: false });
    assert_eq!(builder.push_consts[0].1.size, 80);
    assert_eq!(builder.push_consts[0].1.offset, 0);
    assert_eq!(builder.push_consts[0].1.fields.len(), 2);
    assert_eq!(builder.push_consts[0].1.fields.get("tint"), Some(&field(1, 64, 16)));
    assert_eq!(builder.push_consts[1].0, "other");
    assert_eq!(builder.push_consts[1].1.stage, StageSet::only(ShaderStage::Geom));
    let (_, pushes) = builder.build().unwrap();
    assert_eq!(pushes.len(), 2);
    assert_eq!(pushes[0].1.stage, StageSet { vert: true, frag: true, geom: false });
}

#[test]
fn a_block_that_disagrees_is_left_out_and_marked() {
    let mut builder = DescPoolToken::builder(16);
    builder.add_stage(stage_of(
        ShaderStage::Vert,
        vec![],
        vec![("pc".to_string(), push(ShaderStage::Vert, &[("mvp", 0, 64)]))],
    ));
    builder.add_stage(stage_of(
        ShaderStage::Frag,
        vec![],
        vec![
            ("pc".to_string(), push(ShaderStage::Frag, &[("mvp", 0, 32)])),
            ("more".to_string(), push(ShaderStage::Frag, &[("k", 0, 4)])),
        ],
    ));
    assert!(builder.push_conflict);
    assert_eq!(builder.push_consts.len(), 2);
    assert_eq!(builder.push_consts[0].1.stage, StageSet::only(ShaderStage::Vert));
    assert_eq!(builder.push_consts[0].1.size, 64);
    assert_eq!(builder.push_consts[1].0, "more");
    builder.add_stage(stage_of(
        ShaderStage::Geom,
        vec![],
        vec![("pc".to_string(), push(ShaderStage::Geom, &[("mvp", 0, 64)]))],
    ));
    assert!(builder.push_conflict);
    assert_eq!(builder.push_consts[0].1.stage, StageSet { vert: true, frag: false, geom: true });
    assert_eq!(builder.build().err(), Some(BuildError::PushConstantConflict));
}

#[test]
fn one_push_constant_block_is_merged_into_a_list() {
    let mut blocks = vec![("pc".to_string(), push(ShaderStage::Vert, &[("mvp", 0, 64)]))];
    assert!(merge_push(&mut blocks, "pc".to_string(), push(ShaderStage::Frag, &[("mvp", 0, 64)])));
    assert!(!merge_push(&mut blocks, "pc".to_string(), push(ShaderStage::Geom, &[("mvp", 0, 16)])));
    assert!(merge_push(&mut blocks, "pd".to_string(), push(ShaderStage::Geom, &[("mvp", 0, 16)])));
    assert_eq!(blocks.len(), 2);
    assert_eq!(blocks[0].1.stage, StageSet { vert: true, frag: true, geom: false });
    assert_eq!(find_push(&blocks, &"pd".to_string()), Some(1));
    assert_eq!(find_push(&blocks, &"pe".to_string()), None);
}

#[test]
fn one_sampler_and_one_uniform_buffer_make_two_sets() {
    let mut builder = DescPoolToken::builder(256);
    builder.add_stage(stage_of(
        ShaderStage::Frag,
        vec![
            opaque(1, 0, "samp", DescKind::Sampler, ShaderStage::Frag),
            block(0, 0, "Globals", ShaderStage::Frag, &[("color", 0, 16)]),
        ],
        vec![],
    ));
    let (pool, _) = builder.build().unwrap();
    assert_eq!(pool.max_sets(), 2);
    assert_eq!(
        pool.pool_sizes(),
        vec![
            PoolSize { ty: DescKind::Sampler, descriptor_count: 1 },
            PoolSize { ty: DescKind::UniformBuffer, descriptor_count: 1 },
        ]
    );
    assert_eq!(pool.sets[0].index, 1);
    assert_eq!(pool.sets[1].index, 0);
    assert_eq!(pool.pool, 0);
}

#[test]
fn an_empty_builder_builds_an_empty_pool() {
    let builder: DescPoolBuilder = DescPoolToken::builder(4);
    assert_eq!(builder.min_offset, 4);
    let (pool, pushes) = builder.build().unwrap();
    assert_eq!(pool.max_sets(), 0);
    assert!(pool.pool_sizes().is_empty());
    assert!(pushes.is_empty());
    assert!(pool.make_buffers().unwrap().is_empty());
}

#[test]
fn bindings_are_grouped_by_set_in_order_of_first_occurrence() {
    let sets = group_sets(vec![
        opaque(2, 0, "a", DescKind::Sampler, ShaderStage::Frag),
        opaque(0, 0, "b", DescKind::SampledImage, ShaderStage::Frag),
        opaque(2, 1, "c", DescKind::CombinedImageSampler, ShaderStage::Vert),
        opaque(5, 7, "d", DescKind::UniformBuffer, ShaderStage::Vert),
        opaque(0, 3, "e", DescKind::Sampler, ShaderStage::Geom),
    ]);
    let shape: Vec<(u32, Vec<&str>)> =
        sets.iter().map(|s| (s.index, s.descriptors.iter().map(|d| d.name.as_str()).collect())).collect();
    assert_eq!(shape, vec![(2, vec!["a", "c"]), (0, vec!["b", "e"]), (5, vec!["d"])]);
    assert!(sets.iter().all(|s| s.set == 0 && s.layout == 0));
    assert_eq!(
        sets[0].layout_bindings(),
        vec![
            LayoutBinding {
                binding: 0,
                descriptor_type: DescKind::Sampler,
                descriptor_count: 1,
                stage_flags: StageSet::only(ShaderStage::Frag),
            },
            LayoutBinding {
                binding: 1,
                descriptor_type: DescKind::CombinedImageSampler,
                descriptor_count: 1,
                stage_flags: StageSet::only(ShaderStage::Vert),
            },
        ]
    );
}

fn two_sets() -> DescPoolToken {
    let mut builder = DescPoolToken::builder(256);
    builder.add_stage(stage_of(
        ShaderStage::Frag,
        vec![
            block(0, 0, "Globals", ShaderStage::Frag, &[("color", 0, 16), ("intensity", 256, 4)]),
            opaque(1, 0, "samp", DescKind::Sampler, ShaderStage::Frag),
            opaque(1, 1, "tex", DescKind::SampledImage, ShaderStage::Frag),
            block(1, 2, "Light", ShaderStage::Frag, &[("dir", 0, 12)]),
        ],
        vec![],
    ));
    builder.build().unwrap().0
}

#[test]
fn handles_are_attached_set_by_set() {
    let mut pool = two_sets();
    assert!(!pool.attach(9, &vec![10], &vec![20, 21]));
    assert!(!pool.attach(9, &vec![10, 11], &vec![20, 21, 22]));
    assert_eq!(pool.pool, 0);
    assert!(pool.sets.iter().all(|s| s.set == 0 && s.layout == 0));
    assert!(pool.attach(9, &vec![10, 11], &vec![20, 21]));
    assert_eq!(pool.pool, 9);
    assert_eq!((pool.sets[0].index, pool.sets[0].layout, pool.sets[0].set), (0, 10, 20));
    assert_eq!((pool.sets[1].index, pool.sets[1].layout, pool.sets[1].set), (1, 11, 21));
    assert_eq!(pool.sets[1].descriptors.len(), 3);
}

#[test]
fn writes_are_made_for_known_names_only() {
    let mut pool = two_sets();
    assert!(pool.attach(1, &vec![10, 11], &vec![20, 21]));
    let globals = DescWriteInfo::Buf { buffer: 77, offset: 0, range: 260 };
    let image = DescWriteInfo::Img { sampler: 0, image_view: 88, image_layout: 5 };
    let info = vec![
        ("tex".to_string(), image),
        ("missing".to_string(), DescWriteInfo::Tex { view: 1 }),
        ("Globals".to_string(), globals),
    ];
    assert_eq!(
        pool.sets[0].make_writes(&info),
        vec![WriteRecord {
            dst_set: 20,
            dst_binding: 0,
            descriptor_count: 1,
            descriptor_type: DescKind::UniformBuffer,
            info: globals,
        }]
    );
    assert_eq!(
        pool.update_desc_sets(&info),
        vec![
            WriteRecord {
                dst_set: 20,
                dst_binding: 0,
                descriptor_count: 1,
                descriptor_type: DescKind::UniformBuffer,
                info: globals,
            },
            WriteRecord {
                dst_set: 21,
                dst_binding: 1,
                descriptor_count: 1,
                descriptor_type: DescKind::SampledImage,
                info: image,
            },
        ]
    );
    assert!(pool.update_desc_sets(&vec![]).is_empty());
    assert!(pool.update_desc_sets(&vec![("nothing".to_string(), globals)]).is_empty());
}

#[test]
fn a_name_that_occurs_twice_in_a_set_means_the_later_binding() {
    let sets = group_sets(vec![
        opaque(0, 0, "tex", DescKind::SampledImage, ShaderStage::Frag),
        opaque(0, 1, "tex", DescKind::CombinedImageSampler, ShaderStage::Frag),
    ]);
    assert_eq!(sets[0].get("tex").map(|d| d.binding), Some(1));
    assert!(sets[0].get("other").is_none());
}

#[test]
fn buffers_are_laid_out_for_structured_bindings() {
    let pool = two_sets();
    let buffers: Vec<(String, BufStruct)> = pool.make_buffers().unwrap();
    assert_eq!(buffers.len(), 2);
    assert_eq!(buffers[0].0, "Globals");
    assert_eq!(buffers[0].1.size, 260);
    assert_eq!(buffers[0].1.fields.get("intensity"), Some(&BufField { offset: 256, size: 4 }));
    assert_eq!(buffers[1].0, "Light");
    assert_eq!(buffers[1].1.size, 12);
    assert_eq!(pool.sets[1].make_buffers().unwrap().len(), 1);
}

#[test]
fn a_buffer_beyond_the_largest_address_fails_the_whole_list() {
    let sets = group_sets(vec![
        block(0, 0, "Fine", ShaderStage::Vert, &[("a", 0, 16)]),
        block(0, 1, "Huge", ShaderStage::Vert, &[("a", u64::MAX, 16)]),
    ]);
    assert_eq!(sets[0].make_buffers().err(), Some(LayoutError::Overflow));
    let pool = DescPoolToken { pool: 0, sets };
    assert_eq!(pool.make_buffers().err(), Some(LayoutError::Overflow));
}

#[test]
fn building_twice_from_the_same_stages_gives_the_same_pool() {
    let build = || {
        let mut builder = DescPoolToken::builder(256);
        builder.add_stage(stage_of(
            ShaderStage::Vert,
            vec![camera(ShaderStage::Vert), opaque(1, 0, "samp", DescKind::Sampler, ShaderStage::Vert)],
            vec![("pc".to_string(), push(ShaderStage::Vert, &[("mvp", 0, 64)]))],
        ));
        builder.add_stage(stage_of(ShaderStage::Frag, vec![camera(ShaderStage::Frag)], vec![]));
        builder.build().unwrap()
    };
    let (first, first_pushes) = build();
    let (second, second_pushes) = build();
    assert_eq!(first.pool_sizes(), second.pool_sizes());
    assert_eq!(format!("{:?}", first), format!("{:?}", second));
    assert_eq!(format!("{:?}", first_pushes), format!("{:?}", second_pushes));
}
