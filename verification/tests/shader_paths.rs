use shader_binding::shader::{rfind_char, source_name, stage_of_path, MetaShader};
use shader_binding::stage::{ExecModel, ShaderStage, StageSet};

#[test]
fn stage_comes_from_the_extension() {
    assert_eq!(stage_of_path("shaders/basic.vert"), Some(ShaderStage::Vert));
    assert_eq!(stage_of_path("shaders/basic.frag"), Some(ShaderStage::Frag));
    assert_eq!(stage_of_path("shaders/basic.geom"), Some(ShaderStage::Geom));
    assert_eq!(stage_of_path("a.b/c.d.frag"), Some(ShaderStage::Frag));
    assert_eq!(stage_of_path(".vert"), Some(ShaderStage::Vert));
}

#[test]
fn extension_is_matched_in_lower_case() {
    assert_eq!(stage_of_path("basic.VERT"), Some(ShaderStage::Vert));
    assert_eq!(stage_of_path("basic.Frag"), Some(ShaderStage::Frag));
    assert_eq!(stage_of_path("basic.gEoM"), Some(ShaderStage::Geom));
}

#[test]
fn other_extensions_name_no_stage() {
    assert_eq!(stage_of_path("basic.comp"), None);
    assert_eq!(stage_of_path("basic.vert.bak"), None);
    assert_eq!(stage_of_path("basic.vert "), None);
    assert_eq!(stage_of_path("basic."), None);
    assert_eq!(stage_of_path("vert"), None);
    assert_eq!(stage_of_path(""), None);
    assert_eq!(stage_of_path("dir.vert/file"), None);
}

#[test]
fn stage_names_are_exact() {
    assert_eq!(ShaderStage::from_lowercase("vert"), Some(ShaderStage::Vert));
    assert_eq!(ShaderStage::from_lowercase("frag"), Some(ShaderStage::Frag));
    assert_eq!(ShaderStage::from_lowercase("geom"), Some(ShaderStage::Geom));
    assert_eq!(ShaderStage::from_lowercase("Vert"), None);
    assert_eq!(ShaderStage::from_lowercase("vertex"), None);
    assert_eq!(ShaderStage::from_lowercase(""), None);
}

#[test]
fn source_name_starts_at_the_last_slash() {
    assert_eq!(source_name("shaders/basic.vert"), "/basic.vert");
    assert_eq!(source_name("a/b/c.frag"), "/c.frag");
    assert_eq!(source_name("basic.vert"), "basic.vert");
    assert_eq!(source_name("dir/"), "/");
    assert_eq!(source_name(""), "");
}

#[test]
fn last_index_counts_characters() {
    assert_eq!(rfind_char("a.b.c", '.'), Some(3));
    assert_eq!(rfind_char("abc", '.'), None);
    assert_eq!(rfind_char("", '.'), None);
    assert_eq!(rfind_char("é.è.vert", '.'), Some(3));
    assert_eq!(stage_of_path("é.è.vert"), Some(ShaderStage::Vert));
    assert_eq!(source_name("é/è.vert"), "/è.vert");
}

#[test]
fn meta_shader_takes_its_stage_from_the_path() {
    let shader = MetaShader::new("shaders/basic.frag", "main", vec![1, 2, 3]).unwrap();
    assert_eq!(shader.stage, ShaderStage::Frag);
    assert_eq!(shader.entry, "main");
    assert_eq!(shader.bin, vec![1, 2, 3]);
    assert!(MetaShader::new("shaders/basic.txt", "main", vec![]).is_none());
}

#[test]
fn stages_and_execution_models_correspond() {
    assert_eq!(ShaderStage::from_model(ExecModel::Vertex), Some(ShaderStage::Vert));
    assert_eq!(ShaderStage::from_model(ExecModel::Geometry), Some(ShaderStage::Geom));
    assert_eq!(ShaderStage::from_model(ExecModel::Fragment), Some(ShaderStage::Frag));
    assert_eq!(ShaderStage::from_model(ExecModel::GlCompute), None);
    assert_eq!(ShaderStage::from_model(ExecModel::Kernel), None);
    assert_eq!(ShaderStage::from_model(ExecModel::TessellationControl), None);
    assert_eq!(ShaderStage::from_model(ExecModel::TessellationEvaluation), None);
    for stage in [ShaderStage::Vert, ShaderStage::Frag, ShaderStage::Geom] {
        assert_eq!(ShaderStage::from_model(stage.model()), Some(stage));
    }
}

#[test]
fn stage_order_is_vert_frag_geom() {
    let mut stages = vec![ShaderStage::Geom, ShaderStage::Vert, ShaderStage::Frag, ShaderStage::Vert];
    stages.sort();
    assert_eq!(stages, vec![ShaderStage::Vert, ShaderStage::Vert, ShaderStage::Frag, ShaderStage::Geom]);
    assert_eq!(ShaderStage::Vert.ordinal(), 0);
    assert_eq!(ShaderStage::Frag.ordinal(), 1);
    assert_eq!(ShaderStage::Geom.ordinal(), 2);
    assert_eq!(ShaderStage::Geom.partial_cmp(&ShaderStage::Frag), Some(std::cmp::Ordering::Greater));
    assert_eq!(ShaderStage::Frag.partial_cmp(&ShaderStage::Frag), Some(std::cmp::Ordering::Equal));
    assert_eq!(ShaderStage::Vert.partial_cmp(&ShaderStage::Geom), Some(std::cmp::Ordering::Less));
}

#[test]
fn stage_sets_unite() {
    let vert = StageSet::only(ShaderStage::Vert);
    let frag = StageSet::only(ShaderStage::Frag);
    let both = vert.union(frag);
    assert_eq!(both, StageSet { vert: true, frag: true, geom: false });
    assert_eq!(both, frag.union(vert));
    assert_eq!(both.union(both), both);
    assert_eq!(StageSet::empty().union(vert), vert);
    assert!(both.contains(ShaderStage::Vert));
    assert!(both.contains(ShaderStage::Frag));
    assert!(!both.contains(ShaderStage::Geom));
}
