use terrain_gen::data_usage::{DataReqType, DataUsageState, DataUseState, PassRequiredRes};
use terrain_gen::generation::{generate_map, handle_pass_result, next_action, GenerationState, SchedAction};
use terrain_gen::generator_state::{RawPassInfo, RawRegistrationInfo};
use terrain_gen::id_map::IdMap;
use terrain_gen::pass_dependencies::DataAccessType;
use terrain_gen::wait_counts::WaitCounts;

type Gen = GenerationState<u32, &'static str, u32>;

fn s(x: &str) -> String {
    x.to_string()
}

fn state(u: &DataUsageState, d: &str) -> (usize, bool) {
    let st: &DataUseState = u.state.get(&s(d)).unwrap();
    (st.num_readers, st.write_active)
}

#[test]
fn taking_and_giving_back_restores_the_data_state() {
    let ids = vec![s("h"), s("m")];
    let mut u = DataUsageState::new(&ids);
    let req = PassRequiredRes::new(
        s("p"),
        vec![(s("h"), DataReqType::READ), (s("h"), DataReqType::READ), (s("m"), DataReqType::WRITE)],
    );
    assert!(u.pass_req_res_are_avail(&req));
    assert!(u.reader_counts_fit(&req));
    u.acquire_req_res_for_pass(&req);
    assert_eq!(state(&u, "h"), (2, false));
    assert_eq!(state(&u, "m"), (0, true));
    u.release_resources_of_completed_pass(&req);
    assert_eq!(state(&u, "h"), (0, false));
    assert_eq!(state(&u, "m"), (0, false));
}

#[test]
fn read_and_write_requests_exclude_each_other() {
    let ids = vec![s("h")];
    let mut u = DataUsageState::new(&ids);
    let reader = PassRequiredRes::new(s("r"), vec![(s("h"), DataReqType::READ)]);
    let writer = PassRequiredRes::new(s("w"), vec![(s("h"), DataReqType::WRITE)]);
    u.acquire_req_res_for_pass(&reader);
    assert!(!u.pass_req_res_are_avail(&writer));
    assert!(u.pass_req_res_are_avail(&reader));
    u.release_resources_of_completed_pass(&reader);
    u.acquire_req_res_for_pass(&writer);
    assert!(!u.pass_req_res_are_avail(&reader));
}

#[test]
fn giving_back_more_reads_than_taken_stops_at_zero() {
    let ids = vec![s("h")];
    let mut u = DataUsageState::new(&ids);
    let reader = PassRequiredRes::new(s("r"), vec![(s("h"), DataReqType::READ)]);
    u.release_resources_of_completed_pass(&reader);
    assert_eq!(state(&u, "h"), (0, false));
}

#[test]
fn wait_counts_report_passes_once_everything_is_done() {
    let mut waits: IdMap<Vec<String>> = IdMap::new();
    waits.insert(s("p"), vec![s("a"), s("b"), s("a")]);
    waits.insert(s("q"), vec![s("b")]);
    waits.insert(s("r"), vec![]);
    let mut c = WaitCounts::new(waits);
    assert!(c.is_waiting(&s("p")));
    assert!(!c.is_waiting(&s("r")));
    assert_eq!(c.notify(&s("b")), vec![s("q")]);
    assert!(c.is_waiting(&s("p")));
    assert_eq!(c.notify(&s("a")), vec![s("p")]);
    assert!(!c.is_waiting(&s("p")));
    // Marking a key done again changes nothing.
    assert_eq!(c.notify(&s("a")), Vec::<String>::new());
    assert!(c.is_done(&s("a")));
    assert!(!c.is_done(&s("z")));
}

#[test]
fn id_map_insert_replaces_and_keeps_order() {
    let mut m: IdMap<u32> = IdMap::new();
    m.insert(s("x"), 1);
    m.insert(s("y"), 2);
    m.insert(s("x"), 3);
    assert_eq!(m.len(), 2);
    assert_eq!(m.key_at(0), &s("x"));
    assert_eq!(m.value_at(0), &3);
    assert_eq!(m.find(&s("y")), Some(1));
    assert!(!m.contains_key(&s("z")));
}

#[test]
fn data_access_types_differ() {
    assert_ne!(DataAccessType::Read, DataAccessType::Write);
}

fn run_to_dispatch(g: &mut Gen) -> Vec<String> {
    match next_action(g) {
        SchedAction::Dispatch(v) => v,
        _ => panic!("nothing dispatched"),
    }
}

#[test]
fn passes_get_their_parameters_and_the_data_created_before_them() {
    let reg: RawRegistrationInfo<u32, &'static str> = RawRegistrationInfo::new(1)
        .add_param("seed", 42)
        .add_pass_reg_info(
            RawPassInfo::new("make", "f").add_req_param("seed").add_data_create_access("h"),
        )
        .add_pass_reg_info(
            RawPassInfo::new("use", "f").add_prereq_pass("make").add_data_read_access("h"),
        );
    let mut g: Gen = generate_map(reg).unwrap();
    assert_eq!(run_to_dispatch(&mut g), vec![s("make")]);
    let mut inputs = g.pass_inputs(&s("make")).unwrap();
    assert_eq!(*inputs.get_param("seed"), 42);
    assert!(inputs.has_param("seed"));
    assert!(inputs.may_create("h"));
    assert!(!inputs.may_create("x"));
    inputs.write_data("h", 9);
    g.store_created_data(inputs);
    handle_pass_result(&mut g, Ok(s("make"))).unwrap();
    assert_eq!(run_to_dispatch(&mut g), vec![s("use")]);
    let used = g.pass_inputs(&s("use")).unwrap();
    assert_eq!(*used.get_data_ref("h"), 9);
    assert!(!used.has_param("seed"));
}

#[test]
fn inputs_that_are_missing_are_named() {
    let reg: RawRegistrationInfo<u32, &'static str> = RawRegistrationInfo::new(1)
        .add_pass_reg_info(RawPassInfo::new("make", "f").add_req_param("seed").add_data_create_access("h"))
        .add_pass_reg_info(RawPassInfo::new("use", "f").add_prereq_pass("make").add_data_read_access("h"));
    let mut g: Gen = generate_map(reg).unwrap();
    assert_eq!(
        g.pass_inputs(&s("make")).err().unwrap(),
        "Pass make requires a parameter that was not set: seed"
    );
    assert_eq!(
        g.pass_inputs(&s("use")).err().unwrap(),
        "Pass use requests data that does not exist: h"
    );
    assert_eq!(g.pass_inputs(&s("other")).err().unwrap(), "There is no pass named: other");
    // A pass that created nothing leaves the data as it was.
    assert_eq!(run_to_dispatch(&mut g), vec![s("make")]);
    handle_pass_result(&mut g, Ok(s("make"))).unwrap();
    assert_eq!(
        g.pass_inputs(&s("use")).err().unwrap(),
        "Pass use requests data that does not exist: h"
    );
}

#[test]
fn what_a_writer_leaves_in_a_datum_reaches_later_readers() {
    let reg: RawRegistrationInfo<u32, &'static str> = RawRegistrationInfo::new(1)
        .add_pass_reg_info(RawPassInfo::new("make", "f").add_data_create_access("h"))
        .add_pass_reg_info(RawPassInfo::new("edit", "f").add_prereq_pass("make").add_data_write_access("h"))
        .add_pass_reg_info(RawPassInfo::new("use", "f").add_prereq_pass("edit").add_data_read_access("h"));
    let mut g: Gen = generate_map(reg).unwrap();
    assert_eq!(run_to_dispatch(&mut g), vec![s("make")]);
    let mut made = g.pass_inputs(&s("make")).unwrap();
    made.write_data("h", 1);
    g.store_pass_output(made);
    handle_pass_result(&mut g, Ok(s("make"))).unwrap();
    assert_eq!(run_to_dispatch(&mut g), vec![s("edit")]);
    let mut edit = g.pass_inputs(&s("edit")).unwrap();
    assert!(edit.has_data_mut("h"));
    assert_eq!(*edit.get_data_mut("h"), 1);
    *edit.get_data_mut("h") += 41;
    g.store_pass_output(edit);
    handle_pass_result(&mut g, Ok(s("edit"))).unwrap();
    assert_eq!(run_to_dispatch(&mut g), vec![s("use")]);
    let used = g.pass_inputs(&s("use")).unwrap();
    assert_eq!(*used.get_data_ref("h"), 42);
}
