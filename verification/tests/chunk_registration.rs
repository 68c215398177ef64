use terrain_gen::pass_dependencies::DataAccessType;
use terrain_gen::terrain_generation::{
    DataInfoBuilder, GenerationStateBuilder, PassDataAccessReg, PassInfoBuilder,
};

#[test]
fn pass_info_builder_collects_deps_and_prereqs() {
    let p = PassInfoBuilder::new("erosion".to_string())
        .add_data_dep(PassDataAccessReg::new("height".to_string(), DataAccessType::Write))
        .add_data_dep(PassDataAccessReg::new("rain".to_string(), DataAccessType::Read))
        .add_prereq_pass("base_height".to_string());
    assert_eq!(p.get_name(), "erosion");
    assert_eq!(p.num_data_deps(), 2);
    assert_eq!(p.num_prereq_passes(), 1);
}

#[test]
fn new_pass_info_builder_is_empty() {
    let p = PassInfoBuilder::new("noise".to_string());
    assert_eq!(p.get_name(), "noise");
    assert_eq!(p.num_data_deps(), 0);
    assert_eq!(p.num_prereq_passes(), 0);
}

#[test]
fn data_info_builder_keeps_name() {
    let d = DataInfoBuilder::new("height".to_string());
    assert_eq!(d.get_name(), "height");
}

#[test]
fn generation_state_builder_registers_and_sizes() {
    let b = GenerationStateBuilder::new();
    assert_eq!(b.get_chunk_size(), 1);
    assert_eq!(b.num_passes(), 0);
    assert_eq!(b.num_data(), 0);
    let b = b
        .add_data(DataInfoBuilder::new("height".to_string()))
        .add_pass(PassInfoBuilder::new("noise".to_string()))
        .set_chunk_size(32);
    assert_eq!(b.get_chunk_size(), 32);
    assert_eq!(b.num_passes(), 1);
    assert_eq!(b.num_data(), 1);
    let b = b.set_chunk_size(64);
    assert_eq!(b.get_chunk_size(), 64);
    assert_eq!(b.num_passes(), 1);
}
