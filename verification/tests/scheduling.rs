use terrain_gen::generation::{generate_map, handle_pass_result, next_action, GenerationState, SchedAction};
use terrain_gen::generator_state::{RawPassInfo, RawRegistrationInfo};

type Reg = RawRegistrationInfo<u32, &'static str>;
type Gen = GenerationState<u32, &'static str, u32>;

fn s(x: &str) -> String {
    x.to_string()
}

fn dispatched(a: SchedAction) -> Vec<String> {
    match a {
        SchedAction::Dispatch(v) => v,
        SchedAction::WaitForCompletion => panic!("waits"),
        SchedAction::Finished => panic!("finished"),
        SchedAction::Stalled => panic!("stalled"),
    }
}

fn is_wait(a: &SchedAction) -> bool {
    matches!(a, SchedAction::WaitForCompletion)
}

fn chain(threads: usize) -> Gen {
    let reg: Reg = RawRegistrationInfo::new(threads)
        .add_pass_reg_info(RawPassInfo::new("heights", "f").add_data_create_access("h"))
        .add_pass_reg_info(
            RawPassInfo::new("rivers", "f").add_prereq_pass("heights").add_data_read_access("h"),
        )
        .add_pass_reg_info(RawPassInfo::new("trees", "f").add_prereq_pass("rivers"));
    generate_map(reg).unwrap()
}

#[test]
fn passes_run_after_their_prerequisites() {
    let mut g = chain(4);
    assert_eq!(g.num_passes_rem(), 3);
    assert_eq!(dispatched(next_action(&mut g)), vec![s("heights")]);
    assert!(g.is_running(&s("heights")));
    assert!(is_wait(&next_action(&mut g)));
    handle_pass_result(&mut g, Ok(s("heights"))).unwrap();
    assert_eq!(g.num_passes_rem(), 2);
    assert_eq!(dispatched(next_action(&mut g)), vec![s("rivers")]);
    handle_pass_result(&mut g, Ok(s("rivers"))).unwrap();
    assert_eq!(dispatched(next_action(&mut g)), vec![s("trees")]);
    handle_pass_result(&mut g, Ok(s("trees"))).unwrap();
    assert_eq!(g.num_passes_rem(), 0);
    assert!(matches!(next_action(&mut g), SchedAction::Finished));
}

#[test]
fn independent_passes_fill_the_threads_last_ready_first() {
    let reg: Reg = RawRegistrationInfo::new(2)
        .add_pass_reg_info(RawPassInfo::new("a", "f"))
        .add_pass_reg_info(RawPassInfo::new("b", "f"))
        .add_pass_reg_info(RawPassInfo::new("c", "f"));
    let mut g: Gen = generate_map(reg).unwrap();
    let first = dispatched(next_action(&mut g));
    assert_eq!(first.len(), 2);
    assert_eq!(g.num_running(), 2);
    assert!(is_wait(&next_action(&mut g)));
    handle_pass_result(&mut g, Ok(first[0].clone())).unwrap();
    let second = dispatched(next_action(&mut g));
    assert_eq!(second.len(), 1);
    let mut all = vec![first[0].clone(), first[1].clone(), second[0].clone()];
    all.sort();
    assert_eq!(all, vec![s("a"), s("b"), s("c")]);
}

#[test]
fn readers_share_data_and_writers_wait_for_them() {
    let reg: Reg = RawRegistrationInfo::new(4)
        .add_pass_reg_info(RawPassInfo::new("make", "f").add_data_create_access("h"))
        .add_pass_reg_info(RawPassInfo::new("r1", "f").add_prereq_pass("make").add_data_read_access("h"))
        .add_pass_reg_info(RawPassInfo::new("r2", "f").add_prereq_pass("make").add_data_read_access("h"))
        .add_pass_reg_info(RawPassInfo::new("w", "f").add_prereq_pass("make").add_data_write_access("h"));
    let mut g: Gen = generate_map(reg).unwrap();
    assert_eq!(dispatched(next_action(&mut g)), vec![s("make")]);
    handle_pass_result(&mut g, Ok(s("make"))).unwrap();
    // The writer is looked at first and takes the datum; the readers wait.
    let first = dispatched(next_action(&mut g));
    assert_eq!(first, vec![s("w")]);
    assert!(is_wait(&next_action(&mut g)));
    handle_pass_result(&mut g, Ok(s("w"))).unwrap();
    let mut readers = dispatched(next_action(&mut g));
    readers.sort();
    assert_eq!(readers, vec![s("r1"), s("r2")]);
}

#[test]
fn a_pass_whose_prerequisite_does_not_exist_stalls_the_run() {
    let reg: Reg = RawRegistrationInfo::new(1)
        .add_pass_reg_info(RawPassInfo::new("p", "f").add_prereq_pass("ghost"));
    let mut g: Gen = generate_map(reg).unwrap();
    assert!(matches!(next_action(&mut g), SchedAction::Stalled));
    assert_eq!(g.num_passes_rem(), 1);
}

#[test]
fn no_threads_means_no_pass_starts() {
    let reg: Reg = RawRegistrationInfo::new(0).add_pass_reg_info(RawPassInfo::new("p", "f"));
    let mut g: Gen = generate_map(reg).unwrap();
    assert!(matches!(next_action(&mut g), SchedAction::Stalled));
}

#[test]
fn an_empty_run_is_finished_at_once() {
    let reg: Reg = RawRegistrationInfo::new(1);
    let mut g: Gen = generate_map(reg).unwrap();
    assert!(matches!(next_action(&mut g), SchedAction::Finished));
}

#[test]
fn completion_of_a_pass_that_does_not_run_is_an_error() {
    let mut g = chain(1);
    let err = handle_pass_result(&mut g, Ok(s("rivers"))).err().unwrap();
    assert_eq!(err, "A pass that is not running reported its completion: rivers");
    assert_eq!(g.num_passes_rem(), 3);
}

#[test]
fn a_failed_pass_reports_its_error() {
    let mut g = chain(1);
    assert_eq!(dispatched(next_action(&mut g)), vec![s("heights")]);
    let err = handle_pass_result(&mut g, Err(s("out of memory"))).err().unwrap();
    assert_eq!(err, "out of memory");
    assert!(g.is_running(&s("heights")));
}

#[test]
fn a_refused_registration_gives_its_error() {
    let reg: Reg = RawRegistrationInfo::new(1)
        .add_pass_reg_info(RawPassInfo::new("a", "f"))
        .add_pass_reg_info(RawPassInfo::new("a", "f"));
    let err = generate_map::<u32, &'static str, u32>(reg).err().unwrap();
    assert_eq!(err, "The following names we're given to one or more passes:\n    - a\n");
}

#[test]
fn the_run_function_of_a_pass_is_kept() {
    let reg: Reg = RawRegistrationInfo::new(1).add_pass_reg_info(RawPassInfo::new("p", "run_p"));
    let g: Gen = generate_map(reg).unwrap();
    assert_eq!(g.run_func(&s("p")), Some(&"run_p"));
    assert_eq!(g.run_func(&s("q")), None);
}

#[test]
fn passes_that_wait_on_each_other_stall_the_run() {
    let reg: Reg = RawRegistrationInfo::new(2)
        .add_pass_reg_info(RawPassInfo::new("a", "f").add_prereq_pass("b"))
        .add_pass_reg_info(RawPassInfo::new("b", "f").add_prereq_pass("a"))
        .add_pass_reg_info(RawPassInfo::new("c", "f"));
    let mut g: Gen = generate_map(reg).unwrap();
    assert_eq!(dispatched(next_action(&mut g)), vec![s("c")]);
    assert!(is_wait(&next_action(&mut g)));
    handle_pass_result(&mut g, Ok(s("c"))).unwrap();
    assert!(matches!(next_action(&mut g), SchedAction::Stalled));
    assert_eq!(g.num_passes_rem(), 2);
    assert_eq!(g.num_running(), 0);
}

#[test]
fn two_writers_of_one_datum_may_run_together() {
    let reg: Reg = RawRegistrationInfo::new(4)
        .add_pass_reg_info(RawPassInfo::new("make", "f").add_data_create_access("h"))
        .add_pass_reg_info(RawPassInfo::new("w1", "f").add_prereq_pass("make").add_data_write_access("h"))
        .add_pass_reg_info(RawPassInfo::new("w2", "f").add_prereq_pass("make").add_data_write_access("h"));
    let mut g: Gen = generate_map(reg).unwrap();
    assert_eq!(dispatched(next_action(&mut g)), vec![s("make")]);
    handle_pass_result(&mut g, Ok(s("make"))).unwrap();
    let mut writers = dispatched(next_action(&mut g));
    writers.sort();
    assert_eq!(writers, vec![s("w1"), s("w2")]);
}
