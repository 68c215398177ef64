use terrain_gen::generator_state::{
    process_reg_info, validate_that_all_passes_have_key, PassInfoDataKeys, RawPassInfo, RawRegistrationInfo,
    RegisteredInfo,
};

type Reg = RawRegistrationInfo<u32, &'static str>;
type Info = RegisteredInfo<u32, &'static str, u32>;

fn s(x: &str) -> String {
    x.to_string()
}

fn names(v: &[String]) -> Vec<&str> {
    v.iter().map(|x| x.as_str()).collect()
}

#[test]
fn accepted_registration_builds_the_tables() {
    let reg: Reg = RawRegistrationInfo::new(4)
        .add_param("seed", 7)
        .add_pass_reg_info(
            RawPassInfo::new("heightmap", "run_heightmap")
                .set_pass_desc(s("makes heights"))
                .add_req_param("seed")
                .add_data_create_access("heights"),
        )
        .add_pass_reg_info(
            RawPassInfo::new("erosion", "run_erosion")
                .add_prereq_pass("heightmap")
                .add_data_write_access("heights"),
        );
    let info: Info = process_reg_info(reg).unwrap();
    assert_eq!(info.non_pass_data.max_threads, 4);
    let meta = &info.pass_data.pass_meta_data;
    assert_eq!(names(&meta.get_pass_ids()), vec!["heightmap", "erosion"]);
    assert_eq!(meta.pass_descs.get(&s("heightmap")), Some(&s("makes heights")));
    assert_eq!(meta.pass_descs.get(&s("erosion")), None);
    let m = &meta.pass_mappings;
    assert_eq!(m.pass_data_req_params.get(&s("heightmap")), Some(&vec![s("seed")]));
    assert_eq!(m.pass_data_create_reqs.get(&s("heightmap")), Some(&vec![s("heights")]));
    assert_eq!(m.pass_data_write_reqs.get(&s("erosion")), Some(&vec![s("heights")]));
    assert_eq!(m.prereq_passes_of_passes.get(&s("erosion")), Some(&vec![s("heightmap")]));
    // A pass has an entry only for the kinds it registered.
    assert_eq!(m.pass_data_read_reqs.len(), 0);
    assert_eq!(m.prereq_passes_of_passes.get(&s("heightmap")), None);
    let core = &info.pass_data.pass_core_data;
    assert_eq!(core.params_and_data.params.get(&s("seed")), Some(&7));
    assert_eq!(core.params_and_data.data.len(), 0);
    assert_eq!(core.run_funcs.get(&s("erosion")), Some(&"run_erosion"));
}

#[test]
fn a_parameter_set_twice_keeps_the_last_value() {
    let reg: Reg = RawRegistrationInfo::new(1).add_param("seed", 1).add_param("seed", 2);
    let info: Info = process_reg_info(reg).unwrap();
    let params = &info.pass_data.pass_core_data.params_and_data.params;
    assert_eq!(params.len(), 1);
    assert_eq!(params.get(&s("seed")), Some(&2));
}

#[test]
fn entries_keep_registration_order() {
    let reg: Reg = RawRegistrationInfo::new(1).add_pass_reg_info(
        RawPassInfo::new("p", "f")
            .add_data_create_access("b")
            .add_data_create_access("a")
            .add_data_create_access("b"),
    );
    let info: Info = process_reg_info(reg).unwrap();
    let m = &info.pass_data.pass_meta_data.pass_mappings;
    assert_eq!(m.pass_data_create_reqs.get(&s("p")), Some(&vec![s("b"), s("a"), s("b")]));
}

#[test]
fn duplicate_pass_names_are_refused() {
    let reg: Reg = RawRegistrationInfo::new(1)
        .add_pass_reg_info(RawPassInfo::new("a", "f"))
        .add_pass_reg_info(RawPassInfo::new("b", "f"))
        .add_pass_reg_info(RawPassInfo::new("a", "f"))
        .add_pass_reg_info(RawPassInfo::new("a", "f"));
    let err = process_reg_info::<u32, &'static str, u32>(reg).err().unwrap();
    assert_eq!(
        err,
        "The following names we're given to one or more passes:\n    - a\n    - a\n"
    );
}

#[test]
fn duplicate_names_are_reported_before_other_errors() {
    let reg: Reg = RawRegistrationInfo::new(1)
        .add_pass_reg_info(RawPassInfo::new("a", "f").add_data_read_access("nowhere"))
        .add_pass_reg_info(RawPassInfo::new("a", "f"));
    let err = process_reg_info::<u32, &'static str, u32>(reg).err().unwrap();
    assert_eq!(err, "The following names we're given to one or more passes:\n    - a\n");
}

#[test]
fn reading_and_writing_the_same_data_is_refused() {
    let reg: Reg = RawRegistrationInfo::new(1)
        .add_pass_reg_info(
            RawPassInfo::new("maker", "f").add_data_create_access("h").add_data_create_access("m"),
        )
        .add_pass_reg_info(
            RawPassInfo::new("p", "f")
                .add_data_read_access("h")
                .add_data_read_access("m")
                .add_data_write_access("m")
                .add_data_write_access("h"),
        );
    let err = process_reg_info::<u32, &'static str, u32>(reg).err().unwrap();
    assert_eq!(
        err,
        "The following passes have the same datatypes registered as both read and write:\np    - m\n    - h\n\n"
    );
}

#[test]
fn requesting_data_no_pass_creates_is_refused() {
    let reg: Reg = RawRegistrationInfo::new(1)
        .add_pass_reg_info(RawPassInfo::new("maker", "f").add_data_create_access("h"))
        .add_pass_reg_info(
            RawPassInfo::new("p", "f")
                .add_data_read_access("h")
                .add_data_read_access("x")
                .add_data_write_access("y"),
        )
        .add_pass_reg_info(RawPassInfo::new("q", "f").add_data_write_access("z"));
    let err = process_reg_info::<u32, &'static str, u32>(reg).err().unwrap();
    assert_eq!(
        err,
        "The following passes request data that is not created by any pass:\np    - x\n    - y\n\nq    - z\n\n"
    );
}

#[test]
fn unknown_prerequisites_are_accepted() {
    let reg: Reg = RawRegistrationInfo::new(1)
        .add_pass_reg_info(RawPassInfo::new("p", "f").add_prereq_pass("ghost"));
    assert!(process_reg_info::<u32, &'static str, u32>(reg).is_ok());
}

#[test]
fn empty_registration_is_accepted() {
    let reg: Reg = RawRegistrationInfo::new(0);
    let info: Info = process_reg_info(reg).unwrap();
    assert_eq!(info.pass_data.pass_meta_data.pass_names.len(), 0);
}

#[test]
fn a_pass_without_description_is_reported_with_its_data() {
    let reg: Reg = RawRegistrationInfo::new(1).add_pass_reg_info(RawPassInfo::new("p", "f"));
    assert_eq!(
        validate_that_all_passes_have_key(&reg, PassInfoDataKeys::PassDesc, "description"),
        Err(s("The following registered pass info do not have a corresponding registered description:\ndata: {}\ngrouped data: {}\n\n"))
    );
}

#[test]
fn reported_passes_show_their_grouped_data_quoted() {
    let reg: Reg = RawRegistrationInfo::new(1)
        .add_pass_reg_info(RawPassInfo::new("a", "f").set_pass_desc(s("has one")))
        .add_pass_reg_info(
            RawPassInfo::new("b", "f")
                .add_data_read_access("h")
                .add_data_read_access("w\"x")
                .add_prereq_pass("a"),
        );
    assert_eq!(
        validate_that_all_passes_have_key(&reg, PassInfoDataKeys::PassDesc, "description"),
        Err(s("The following registered pass info do not have a corresponding registered description:\ndata: {}\ngrouped data: {\n    ReadAcc: [\n        \"h\",\n        \"w\\\"x\",\n    ],\n    PrereqPass: [\n        \"a\",\n    ],\n}\n\n"))
    );
}

#[test]
fn passes_that_all_have_descriptions_pass_the_check() {
    let reg: Reg = RawRegistrationInfo::new(1)
        .add_pass_reg_info(RawPassInfo::new("a", "f").set_pass_desc(s("d")));
    assert_eq!(validate_that_all_passes_have_key(&reg, PassInfoDataKeys::PassDesc, "description"), Ok(()));
}
