//! The scheduler of a generation run.
//!
//! A pass moves through these stages: blocked, until every prerequisite pass
//! has completed and every datum it requests has been created; waiting for
//! resources, until nothing it reads is being written and nothing it writes
//! is being read; ready; running on a thread; completed. The loop that runs
//! passes on threads and waits for them lives outside this crate: it asks
//! `next_action` what to do, and reports each pass's result to
//! `handle_pass_result`.
use std::collections::VecDeque;
use vstd::prelude::*;

use crate::data_usage::{
    count_reads, exclusive, has_write, released, req_available, req_fits, req_in_domain, reqs_view,
    self_consistent, DataReqType, DataUsageState, PassRequiredRes, acquired, lemma_count_reads_member,
};
use crate::generator_state::{
    common_keys, entries_view, group_entries_of, group_map_of, group_view, pass_names_of,
    process_reg_info, rw_conflicts, table_or_empty, PassInfoGroupedDataKeys,
    NonPassData, PassData, PassMappings, PassMetaData, RawRegistrationInfo, RegisteredInfo,
    registration_error,
};
use crate::id_map::IdMap;
use crate::report::names_of;
use crate::scheduler_pass_data::{created_vec_view, written_vec_view, DataRequestedByPass};
use crate::generator_state::ParamsAndData;
use crate::wait_counts::{all_in, lemma_newly_complete, newly_complete, WaitCounts};

verus! {

/// The requests of pass `p`: each datum it reads, then each datum it writes.
pub open spec fn req_of(
    reads: Map<Seq<char>, Seq<Seq<char>>>,
    writes: Map<Seq<char>, Seq<Seq<char>>>,
    p: Seq<char>,
) -> Seq<(Seq<char>, DataReqType)> {
    table_or_empty(reads, p).map_values(|d: Seq<char>| (d, DataReqType::READ)) + table_or_empty(
        writes,
        p,
    ).map_values(|d: Seq<char>| (d, DataReqType::WRITE))
}

/// The data pass `p` requests: what it reads, then what it writes.
pub open spec fn needs_of(
    reads: Map<Seq<char>, Seq<Seq<char>>>,
    writes: Map<Seq<char>, Seq<Seq<char>>>,
    p: Seq<char>,
) -> Seq<Seq<char>> {
    table_or_empty(reads, p) + table_or_empty(writes, p)
}

/// Neither sequence holds an element of the other.
pub open spec fn disjoint(a: Seq<Seq<char>>, b: Seq<Seq<char>>) -> bool {
    forall|x: Seq<char>| !(#[trigger] a.contains(x) && b.contains(x))
}

/// Passes waiting on their prerequisite passes to complete.
pub struct PrereqsOfPasses {
    pub(crate) counts: WaitCounts,
}

/// Passes waiting on the data they request to be created.
pub struct PassesWaitingOnDataToBeCreated {
    pub(crate) counts: WaitCounts,
}

pub struct PassStages {
    pub(crate) prereqs_of_passes: PrereqsOfPasses,
    pub(crate) passes_waiting_on_data_to_be_created: PassesWaitingOnDataToBeCreated,
    pub(crate) passes_waiting_for_resources: Vec<String>,
    pub(crate) passes_ready_for_scheduling: VecDeque<String>,
}

pub struct PassResState {
    pub(crate) pass_req_res: IdMap<PassRequiredRes>,
    pub(crate) data_usage_state: DataUsageState,
}

pub struct SchedState {
    pub(crate) p_stages: PassStages,
    pub(crate) p_res_state: PassResState,
    pub(crate) passes_running: Vec<String>,
    pub(crate) num_passes_rem: usize,
}

/// Everything a generation run works from and keeps track of.
pub struct GenerationState<P, F, D> {
    sched_state: SchedState,
    pass_data: PassData<P, F, D>,
    non_pass_data: NonPassData,
    num_threads_avail: usize,
}

/// What the loop that runs passes should do next.
pub enum SchedAction {
    /// Run these passes, each on a thread of its own.
    Dispatch(Vec<String>),
    /// Wait for a running pass to report its result.
    WaitForCompletion,
    /// Every pass has completed.
    Finished,
    /// Passes remain, but none runs and none can be started.
    Stalled,
}

fn list_or_empty(m: &IdMap<Vec<String>>, k: &String) -> (r: Vec<String>)
    requires
        m.wf(),
    ensures
        names_of(r@) == table_or_empty(group_view(*m), k@),
{
    match m.get(k) {
        Some(v) => v.clone(),
        None => Vec::new(),
    }
}

fn extend_names(dst: &mut Vec<String>, src: &Vec<String>)
    ensures
        names_of(final(dst)@) == names_of(old(dst)@) + names_of(src@),
{
    let n = src.len();
    let mut i: usize = 0;
    while i < n
        invariant
            n == src@.len(),
            i <= n,
            names_of(dst@) == names_of(old(dst)@) + names_of(src@).take(i as int),
        decreases n - i,
    {
        let ghost before = dst@;
        dst.push(src[i].clone());
        assert(names_of(dst@) =~= names_of(before).push(src@[i as int]@));
        assert(names_of(src@).take(i + 1) =~= names_of(src@).take(i as int).push(src@[i as int]@));
        i = i + 1;
    }
    assert(names_of(src@).take(n as int) =~= names_of(src@));
}

fn push_reqs(dst: &mut Vec<(String, DataReqType)>, src: &Vec<String>, t: DataReqType)
    ensures
        reqs_view(final(dst)@) == reqs_view(old(dst)@) + names_of(src@).map_values(
            |d: Seq<char>| (d, t),
        ),
{
    let n = src.len();
    let mut i: usize = 0;
    while i < n
        invariant
            n == src@.len(),
            i <= n,
            reqs_view(dst@) == reqs_view(old(dst)@) + names_of(src@).take(i as int).map_values(
                |d: Seq<char>| (d, t),
            ),
        decreases n - i,
    {
        let ghost before = dst@;
        dst.push((src[i].clone(), t));
        assert(reqs_view(dst@) =~= reqs_view(before).push((src@[i as int]@, t)));
        assert(names_of(src@).take(i + 1).map_values(|d: Seq<char>| (d, t)) =~= names_of(
            src@,
        ).take(i as int).map_values(|d: Seq<char>| (d, t)).push((src@[i as int]@, t)));
        i = i + 1;
    }
    assert(names_of(src@).take(n as int) =~= names_of(src@));
}

/// The requests of every pass, by pass name: its reads, then its writes.
fn get_data_reqs_for_passes(p_meta: &PassMetaData) -> (r: IdMap<PassRequiredRes>)
    requires
        p_meta.wf(),
        names_of(p_meta.pass_names@).no_duplicates(),
    ensures
        r.wf(),
        r.keys() == names_of(p_meta.pass_names@),
        forall|p: Seq<char>|
            #[trigger] r@.dom().contains(p) ==> r@[p].reqs() == req_of(
                group_view(p_meta.pass_mappings.pass_data_read_reqs),
                group_view(p_meta.pass_mappings.pass_data_write_reqs),
                p,
            ) && r@[p].pid@ == p,
{
    let ghost names = names_of(p_meta.pass_names@);
    let ghost reads = group_view(p_meta.pass_mappings.pass_data_read_reqs);
    let ghost writes = group_view(p_meta.pass_mappings.pass_data_write_reqs);
    let mut req_data_for_passes: IdMap<PassRequiredRes> = IdMap::new();
    let n = p_meta.pass_names.len();
    let mut i: usize = 0;
    while i < n
        invariant
            n == names.len(),
            names == names_of(p_meta.pass_names@),
            names.no_duplicates(),
            p_meta.wf(),
            reads == group_view(p_meta.pass_mappings.pass_data_read_reqs),
            writes == group_view(p_meta.pass_mappings.pass_data_write_reqs),
            i <= n,
            req_data_for_passes.wf(),
            req_data_for_passes.keys() == names.take(i as int),
            forall|p: Seq<char>|
                #[trigger] req_data_for_passes@.dom().contains(p) ==> req_data_for_passes@[p].reqs()
                    == req_of(reads, writes, p) && req_data_for_passes@[p].pid@ == p,
        decreases n - i,
    {
        let pid = &p_meta.pass_names[i];
        let mut data_req: Vec<(String, DataReqType)> = Vec::new();
        let rd = list_or_empty(&p_meta.pass_mappings.pass_data_read_reqs, pid);
        let wr = list_or_empty(&p_meta.pass_mappings.pass_data_write_reqs, pid);
        push_reqs(&mut data_req, &rd, DataReqType::READ);
        push_reqs(&mut data_req, &wr, DataReqType::WRITE);
        assert(reqs_view(data_req@) =~= req_of(reads, writes, pid@));
        proof {
            if req_data_for_passes@.dom().contains(pid@) {
                let j = choose|j: int|
                    0 <= j < req_data_for_passes.keys().len() && req_data_for_passes.keys()[j] == pid@;
                assert(names[j] == names[i as int]);
            }
        }
        req_data_for_passes.insert(pid.clone(), PassRequiredRes::new(pid.clone(), data_req));
        assert(req_data_for_passes.keys() =~= names.take(i + 1));
        i = i + 1;
    }
    assert(names.take(n as int) =~= names);
    req_data_for_passes
}

/// What pass `p` waits on: the data it requests, or its prerequisite passes.
pub open spec fn wait_entry(p_meta: PassMetaData, with_writes: bool, p: Seq<char>) -> (
    Seq<char>,
    Seq<Seq<char>>,
) {
    (p, if with_writes {
        needs_of(
            group_view(p_meta.pass_mappings.pass_data_read_reqs),
            group_view(p_meta.pass_mappings.pass_data_write_reqs),
            p,
        )
    } else {
        table_or_empty(group_view(p_meta.pass_mappings.prereq_passes_of_passes), p)
    })
}

/// For each pass, in order, what it waits on.
fn build_waits(p_meta: &PassMetaData, with_writes: bool) -> (r: IdMap<Vec<String>>)
    requires
        p_meta.wf(),
        names_of(p_meta.pass_names@).no_duplicates(),
    ensures
        r.wf(),
        entries_view(r) == names_of(p_meta.pass_names@).map_values(
            |p: Seq<char>| wait_entry(*p_meta, with_writes, p),
        ),
{
    let ghost names = names_of(p_meta.pass_names@);
    let mut waits: IdMap<Vec<String>> = IdMap::new();
    let n = p_meta.pass_names.len();
    let mut i: usize = 0;
    while i < n
        invariant
            n == names.len(),
            names == names_of(p_meta.pass_names@),
            names.no_duplicates(),
            p_meta.wf(),
            i <= n,
            waits.wf(),
            waits.keys() == names.take(i as int),
            entries_view(waits) == names.take(i as int).map_values(
                |p: Seq<char>| wait_entry(*p_meta, with_writes, p),
            ),
        decreases n - i,
    {
        let pid = &p_meta.pass_names[i];
        let mut list: Vec<String>;
        if with_writes {
            list = list_or_empty(&p_meta.pass_mappings.pass_data_read_reqs, pid);
            let wr = list_or_empty(&p_meta.pass_mappings.pass_data_write_reqs, pid);
            extend_names(&mut list, &wr);
        } else {
            list = list_or_empty(&p_meta.pass_mappings.prereq_passes_of_passes, pid);
        }
        assert(wait_entry(*p_meta, with_writes, pid@) == (pid@, names_of(list@)));
        proof {
            waits.lemma_lens();
            if waits@.dom().contains(pid@) {
                let j = choose|j: int| 0 <= j < waits.keys().len() && waits.keys()[j] == pid@;
                assert(names[j] == names[i as int]);
            }
        }
        let ghost old_entries = entries_view(waits);
        let ghost lv = names_of(list@);
        waits.insert(pid.clone(), list);
        proof {
            waits.lemma_lens();
            assert(waits.keys() =~= names.take(i + 1));
            assert(entries_view(waits) =~= old_entries.push((pid@, lv)));
            assert(names.take(i + 1) =~= names.take(i as int).push(pid@));
            assert(entries_view(waits) =~= names.take(i + 1).map_values(
                |p: Seq<char>| wait_entry(*p_meta, with_writes, p),
            ));
        }
        i = i + 1;
    }
    assert(names.take(n as int) =~= names);
    waits
}

/// Every datum that some pass reads or writes, possibly repeated.
fn requested_data_ids(p_meta: &PassMetaData) -> (r: Vec<String>)
    requires
        p_meta.wf(),
    ensures
        forall|p: Seq<char>, x: Seq<char>|
            names_of(p_meta.pass_names@).contains(p) && #[trigger] needs_of(
                group_view(p_meta.pass_mappings.pass_data_read_reqs),
                group_view(p_meta.pass_mappings.pass_data_write_reqs),
                p,
            ).contains(x) ==> names_of(r@).contains(x),
{
    let ghost names = names_of(p_meta.pass_names@);
    let ghost reads = group_view(p_meta.pass_mappings.pass_data_read_reqs);
    let ghost writes = group_view(p_meta.pass_mappings.pass_data_write_reqs);
    let mut ids: Vec<String> = Vec::new();
    let n = p_meta.pass_names.len();
    let mut i: usize = 0;
    while i < n
        invariant
            n == names.len(),
            names == names_of(p_meta.pass_names@),
            p_meta.wf(),
            reads == group_view(p_meta.pass_mappings.pass_data_read_reqs),
            writes == group_view(p_meta.pass_mappings.pass_data_write_reqs),
            i <= n,
            forall|j: int, x: Seq<char>|
                0 <= j < i && #[trigger] needs_of(reads, writes, names[j]).contains(x) ==> names_of(
                    ids@,
                ).contains(x),
        decreases n - i,
    {
        let pid = &p_meta.pass_names[i];
        let rd = list_or_empty(&p_meta.pass_mappings.pass_data_read_reqs, pid);
        let wr = list_or_empty(&p_meta.pass_mappings.pass_data_write_reqs, pid);
        let ghost before = names_of(ids@);
        extend_names(&mut ids, &rd);
        extend_names(&mut ids, &wr);
        proof {
            let after = names_of(ids@);
            assert(after =~= before + names_of(rd@) + names_of(wr@));
            assert forall|j: int, x: Seq<char>|
                0 <= j < i + 1 && #[trigger] needs_of(reads, writes, names[j]).contains(x) implies after.contains(
                x,
            ) by {
                if j < i {
                    let q = choose|q: int| 0 <= q < before.len() && before[q] == x;
                    assert(after[q] == x);
                } else {
                    let s = needs_of(reads, writes, names[j]);
                    let q = choose|q: int| 0 <= q < s.len() && s[q] == x;
                    assert(s =~= names_of(rd@) + names_of(wr@));
                    assert(after[before.len() + q] == x);
                }
            }
        }
        i = i + 1;
    }
    proof {
        assert forall|p: Seq<char>, x: Seq<char>|
            names.contains(p) && #[trigger] needs_of(reads, writes, p).contains(x) implies names_of(
            ids@,
        ).contains(x) by {
            let j = choose|j: int| 0 <= j < names.len() && names[j] == p;
            assert(needs_of(reads, writes, names[j]).contains(x));
        }
    }
    ids
}

/// The passes that wait on nothing, in order.
pub open spec fn unblocked(
    names: Seq<Seq<char>>,
    prereqs: Map<Seq<char>, Seq<Seq<char>>>,
    reads: Map<Seq<char>, Seq<Seq<char>>>,
    writes: Map<Seq<char>, Seq<Seq<char>>>,
) -> Seq<Seq<char>>
    decreases names.len(),
{
    if names.len() == 0 {
        Seq::empty()
    } else {
        let u = unblocked(names.drop_last(), prereqs, reads, writes);
        let p = names.last();
        if table_or_empty(prereqs, p).len() == 0 && needs_of(reads, writes, p).len() == 0 {
            u.push(p)
        } else {
            u
        }
    }
}

proof fn lemma_unblocked(
    names: Seq<Seq<char>>,
    prereqs: Map<Seq<char>, Seq<Seq<char>>>,
    reads: Map<Seq<char>, Seq<Seq<char>>>,
    writes: Map<Seq<char>, Seq<Seq<char>>>,
)
    requires
        names.no_duplicates(),
    ensures
        unblocked(names, prereqs, reads, writes).no_duplicates(),
        forall|x: Seq<char>| #[trigger]
            unblocked(names, prereqs, reads, writes).contains(x) <==> (names.contains(x)
                && table_or_empty(prereqs, x).len() == 0 && needs_of(reads, writes, x).len() == 0),
    decreases names.len(),
{
    if names.len() > 0 {
        let init = names.drop_last();
        assert forall|a: int, b: int| 0 <= a < init.len() && 0 <= b < init.len() && a != b implies init[a]
            != init[b] by {
            assert(init[a] == names[a] && init[b] == names[b]);
        }
        lemma_unblocked(init, prereqs, reads, writes);
        let u0 = unblocked(init, prereqs, reads, writes);
        let u = unblocked(names, prereqs, reads, writes);
        let p = names.last();
        assert(!init.contains(p)) by {
            if init.contains(p) {
                let j = choose|j: int| 0 <= j < init.len() && init[j] == p;
                assert(names[j] == names[names.len() - 1]);
            }
        }
        assert forall|x: Seq<char>| #[trigger] u.contains(x) <==> (names.contains(x)
            && table_or_empty(prereqs, x).len() == 0 && needs_of(reads, writes, x).len() == 0) by {
            if names.contains(x) && x != p {
                let j = choose|j: int| 0 <= j < names.len() && names[j] == x;
                assert(init[j] == x);
            }
            if init.contains(x) {
                let j = choose|j: int| 0 <= j < init.len() && init[j] == x;
                assert(names[j] == x);
            }
            if u.contains(x) && !u0.contains(x) {
                let j = choose|j: int| 0 <= j < u.len() && u[j] == x;
                if j < u0.len() {
                    assert(u0[j] == x);
                }
            }
            if u0.contains(x) {
                let j = choose|j: int| 0 <= j < u0.len() && u0[j] == x;
                assert(u[j] == x);
            }
            if x == p && table_or_empty(prereqs, x).len() == 0 && needs_of(reads, writes, x).len() == 0 {
                assert(u[u.len() - 1] == x);
            }
        }
        if table_or_empty(prereqs, p).len() == 0 && needs_of(reads, writes, p).len() == 0 {
            assert forall|a: int, b: int| 0 <= a < u.len() && 0 <= b < u.len() && a != b implies u[a]
                != u[b] by {
                if a == u.len() - 1 {
                    assert(u0.contains(u[b]));
                } else if b == u.len() - 1 {
                    assert(u0.contains(u[a]));
                } else {
                    assert(u[a] == u0[a] && u[b] == u0[b]);
                }
            }
        }
    }
}

proof fn lemma_all_in_empty(s: Seq<Seq<char>>)
    ensures
        all_in(s, Set::empty()) == (s.len() == 0),
{
    if s.len() > 0 {
        assert(!Set::<Seq<char>>::empty().contains(s[0]));
    }
}

proof fn lemma_common_empty(w: Seq<Seq<char>>, r: Seq<Seq<char>>)
    requires
        common_keys(w, r).len() == 0,
    ensures
        forall|i: int| 0 <= i < w.len() ==> !r.contains(#[trigger] w[i]),
    decreases w.len(),
{
    if w.len() > 0 {
        lemma_common_empty(w.drop_last(), r);
        assert forall|i: int| 0 <= i < w.len() implies !r.contains(#[trigger] w[i]) by {
            if i < w.len() - 1 {
                assert(w.drop_last()[i] == w[i]);
            }
        }
    }
}

proof fn lemma_no_conflicts(
    entries: Seq<(Seq<char>, Seq<Seq<char>>)>,
    writes: Map<Seq<char>, Seq<Seq<char>>>,
)
    requires
        rw_conflicts(entries, writes).len() == 0,
    ensures
        forall|i: int|
            0 <= i < entries.len() && writes.dom().contains((#[trigger] entries[i]).0) ==> common_keys(
                writes[entries[i].0],
                entries[i].1,
            ).len() == 0,
    decreases entries.len(),
{
    if entries.len() > 0 {
        lemma_no_conflicts(entries.drop_last(), writes);
        assert forall|i: int|
            0 <= i < entries.len() && writes.dom().contains((#[trigger] entries[i]).0) implies common_keys(
            writes[entries[i].0],
            entries[i].1,
        ).len() == 0 by {
            if i < entries.len() - 1 {
                assert(entries.drop_last()[i] == entries[i]);
            }
        }
    }
}

proof fn lemma_count_reads_of_req(
    reads: Map<Seq<char>, Seq<Seq<char>>>,
    writes: Map<Seq<char>, Seq<Seq<char>>>,
    p: Seq<char>,
    d: Seq<char>,
)
    ensures
        count_reads(req_of(reads, writes, p), d) > 0 ==> table_or_empty(reads, p).contains(d),
        has_write(req_of(reads, writes, p), d) ==> table_or_empty(writes, p).contains(d),
        forall|i: int|
            0 <= i < req_of(reads, writes, p).len() ==> needs_of(reads, writes, p).contains(
                (#[trigger] req_of(reads, writes, p)[i]).0,
            ),
{
    let req = req_of(reads, writes, p);
    let r = table_or_empty(reads, p);
    let w = table_or_empty(writes, p);
    assert forall|i: int| 0 <= i < req.len() implies needs_of(reads, writes, p).contains(
        (#[trigger] req[i]).0,
    ) by {
        assert(needs_of(reads, writes, p)[i] == req[i].0);
    }
    if has_write(req, d) {
        let i = choose|i: int| 0 <= i < req.len() && #[trigger] req[i] == (d, DataReqType::WRITE);
        if i < r.len() {
            assert(req[i] == (r[i], DataReqType::READ));
        } else {
            assert(w[i - r.len()] == d);
        }
    }
    if count_reads(req, d) > 0 {
        lemma_count_reads_member(req, d);
        let i = choose|i: int| 0 <= i < req.len() && #[trigger] req[i] == (d, DataReqType::READ);
        if i < r.len() {
            assert(r[i] == d);
        } else {
            assert(req[i] == (w[i - r.len()], DataReqType::WRITE));
        }
    }
}

impl PrereqsOfPasses {
    /// Counters for each pass's prerequisite passes, none completed yet.
    fn new(p_meta: &PassMetaData) -> (r: PrereqsOfPasses)
        requires
            p_meta.wf(),
            names_of(p_meta.pass_names@).no_duplicates(),
        ensures
            r.counts.wf(),
            r.counts.entries() == names_of(p_meta.pass_names@).map_values(
                |p: Seq<char>| wait_entry(*p_meta, false, p),
            ),
            r.counts.done_set() == Set::<Seq<char>>::empty(),
            r.counts.done_count() == 0,
    {
        PrereqsOfPasses { counts: WaitCounts::new(build_waits(p_meta, false)) }
    }
}

impl PassesWaitingOnDataToBeCreated {
    /// Counters for the data each pass requests, none created yet.
    fn new(p_meta: &PassMetaData) -> (r: PassesWaitingOnDataToBeCreated)
        requires
            p_meta.wf(),
            names_of(p_meta.pass_names@).no_duplicates(),
        ensures
            r.counts.wf(),
            r.counts.entries() == names_of(p_meta.pass_names@).map_values(
                |p: Seq<char>| wait_entry(*p_meta, true, p),
            ),
            r.counts.done_set() == Set::<Seq<char>>::empty(),
    {
        PassesWaitingOnDataToBeCreated { counts: WaitCounts::new(build_waits(p_meta, true)) }
    }
}

impl PassStages {
    /// Every pass that waits on nothing waits for resources; every other
    /// pass is blocked; nothing is ready.
    fn new(p_mappings_meta: &PassMetaData) -> (r: PassStages)
        requires
            p_mappings_meta.wf(),
            names_of(p_mappings_meta.pass_names@).no_duplicates(),
        ensures
            r.prereqs_of_passes.counts.wf(),
            r.prereqs_of_passes.counts.entries() == names_of(p_mappings_meta.pass_names@).map_values(
                |p: Seq<char>| wait_entry(*p_mappings_meta, false, p),
            ),
            r.prereqs_of_passes.counts.done_set() == Set::<Seq<char>>::empty(),
            r.prereqs_of_passes.counts.done_count() == 0,
            r.passes_waiting_on_data_to_be_created.counts.wf(),
            r.passes_waiting_on_data_to_be_created.counts.entries() == names_of(
                p_mappings_meta.pass_names@,
            ).map_values(|p: Seq<char>| wait_entry(*p_mappings_meta, true, p)),
            r.passes_waiting_on_data_to_be_created.counts.done_set() == Set::<Seq<char>>::empty(),
            names_of(r.passes_waiting_for_resources@) == unblocked(
                names_of(p_mappings_meta.pass_names@),
                group_view(p_mappings_meta.pass_mappings.prereq_passes_of_passes),
                group_view(p_mappings_meta.pass_mappings.pass_data_read_reqs),
                group_view(p_mappings_meta.pass_mappings.pass_data_write_reqs),
            ),
            r.passes_ready_for_scheduling@ == Seq::<String>::empty(),
    {
        let meta = p_mappings_meta;
        let ghost names = names_of(meta.pass_names@);
        let ghost reads = group_view(meta.pass_mappings.pass_data_read_reqs);
        let ghost writes = group_view(meta.pass_mappings.pass_data_write_reqs);
        let ghost prereqs = group_view(meta.pass_mappings.prereq_passes_of_passes);
        let mut waiting: Vec<String> = Vec::new();
        let n = meta.pass_names.len();
        let mut i: usize = 0;
        while i < n
            invariant
                n == names.len(),
                names == names_of(meta.pass_names@),
                meta.wf(),
                reads == group_view(meta.pass_mappings.pass_data_read_reqs),
                writes == group_view(meta.pass_mappings.pass_data_write_reqs),
                prereqs == group_view(meta.pass_mappings.prereq_passes_of_passes),
                i <= n,
                names_of(waiting@) == unblocked(names.take(i as int), prereqs, reads, writes),
            decreases n - i,
        {
            let pid = &meta.pass_names[i];
            let pr = list_or_empty(&meta.pass_mappings.prereq_passes_of_passes, pid);
            let rd = list_or_empty(&meta.pass_mappings.pass_data_read_reqs, pid);
            let wr = list_or_empty(&meta.pass_mappings.pass_data_write_reqs, pid);
            let ghost before = names_of(waiting@);
            if pr.len() == 0 && rd.len() == 0 && wr.len() == 0 {
                waiting.push(pid.clone());
                assert(names_of(waiting@) =~= before.push(pid@));
            }
            assert(names.take(i + 1).drop_last() =~= names.take(i as int));
            assert(names.take(i + 1).last() == names[i as int]);
            i = i + 1;
        }
        assert(names.take(n as int) =~= names);
        PassStages {
            prereqs_of_passes: PrereqsOfPasses::new(meta),
            passes_waiting_on_data_to_be_created: PassesWaitingOnDataToBeCreated::new(meta),
            passes_waiting_for_resources: waiting,
            passes_ready_for_scheduling: VecDeque::new(),
        }
    }
}

impl PassResState {
    /// The requests of every pass, and every datum that some pass reads or
    /// writes tracked as held by no pass.
    fn new(p_meta: &PassMetaData) -> (r: PassResState)
        requires
            p_meta.wf(),
            names_of(p_meta.pass_names@).no_duplicates(),
        ensures
            r.pass_req_res.wf(),
            r.pass_req_res.keys() == names_of(p_meta.pass_names@),
            forall|p: Seq<char>|
                #[trigger] r.pass_req_res@.dom().contains(p) ==> r.pass_req_res@[p].reqs() == req_of(
                    group_view(p_meta.pass_mappings.pass_data_read_reqs),
                    group_view(p_meta.pass_mappings.pass_data_write_reqs),
                    p,
                ),
            r.data_usage_state.wf(),
            forall|p: Seq<char>|
                names_of(p_meta.pass_names@).contains(p) ==> req_in_domain(
                    r.data_usage_state@,
                    #[trigger] req_of(
                        group_view(p_meta.pass_mappings.pass_data_read_reqs),
                        group_view(p_meta.pass_mappings.pass_data_write_reqs),
                        p,
                    ),
                ),
            forall|d: Seq<char>|
                #[trigger] r.data_usage_state@.dom().contains(d) ==> r.data_usage_state@[d] == (
                crate::data_usage::DataUseState { num_readers: 0, write_active: false }),
    {
        let ghost reads = group_view(p_meta.pass_mappings.pass_data_read_reqs);
        let ghost writes = group_view(p_meta.pass_mappings.pass_data_write_reqs);
        let pass_req_res = get_data_reqs_for_passes(p_meta);
        let ids = requested_data_ids(p_meta);
        let data_usage_state = DataUsageState::new(&ids);
        proof {
            assert forall|p: Seq<char>|
                names_of(p_meta.pass_names@).contains(p) implies req_in_domain(
                data_usage_state@,
                #[trigger] req_of(reads, writes, p),
            ) by {
                lemma_count_reads_of_req(reads, writes, p, p);
                assert forall|i: int| 0 <= i < req_of(reads, writes, p).len() implies data_usage_state@.dom().contains(
                    #[trigger] req_of(reads, writes, p)[i].0,
                ) by {
                    assert(needs_of(reads, writes, p).contains(req_of(reads, writes, p)[i].0));
                }
            }
        }
        PassResState { pass_req_res, data_usage_state }
    }
}

impl SchedState {
    /// The scheduling state at the start of a run of the passes of `p_data`.
    fn new(p_meta: &PassMetaData) -> (r: SchedState)
        requires
            p_meta.wf(),
            names_of(p_meta.pass_names@).no_duplicates(),
        ensures
            r.p_stages.prereqs_of_passes.counts.wf(),
            r.p_stages.prereqs_of_passes.counts.entries() == names_of(p_meta.pass_names@).map_values(
                |p: Seq<char>| wait_entry(*p_meta, false, p),
            ),
            r.p_stages.prereqs_of_passes.counts.done_set() == Set::<Seq<char>>::empty(),
            r.p_stages.prereqs_of_passes.counts.done_count() == 0,
            r.p_stages.passes_waiting_on_data_to_be_created.counts.wf(),
            r.p_stages.passes_waiting_on_data_to_be_created.counts.entries() == names_of(
                p_meta.pass_names@,
            ).map_values(|p: Seq<char>| wait_entry(*p_meta, true, p)),
            r.p_stages.passes_waiting_on_data_to_be_created.counts.done_set() == Set::<Seq<char>>::empty(),
            names_of(r.p_stages.passes_waiting_for_resources@) == unblocked(
                names_of(p_meta.pass_names@),
                group_view(p_meta.pass_mappings.prereq_passes_of_passes),
                group_view(p_meta.pass_mappings.pass_data_read_reqs),
                group_view(p_meta.pass_mappings.pass_data_write_reqs),
            ),
            r.p_stages.passes_ready_for_scheduling@ == Seq::<String>::empty(),
            r.passes_running@ == Seq::<String>::empty(),
            r.num_passes_rem == p_meta.pass_names@.len(),
            r.p_res_state.pass_req_res.wf(),
            r.p_res_state.pass_req_res.keys() == names_of(p_meta.pass_names@),
            forall|p: Seq<char>|
                #[trigger] r.p_res_state.pass_req_res@.dom().contains(p) ==> r.p_res_state.pass_req_res@[p].reqs()
                    == req_of(
                    group_view(p_meta.pass_mappings.pass_data_read_reqs),
                    group_view(p_meta.pass_mappings.pass_data_write_reqs),
                    p,
                ),
            r.p_res_state.data_usage_state.wf(),
            forall|p: Seq<char>|
                names_of(p_meta.pass_names@).contains(p) ==> req_in_domain(
                    r.p_res_state.data_usage_state@,
                    #[trigger] req_of(
                        group_view(p_meta.pass_mappings.pass_data_read_reqs),
                        group_view(p_meta.pass_mappings.pass_data_write_reqs),
                        p,
                    ),
                ),
            forall|d: Seq<char>|
                #[trigger] r.p_res_state.data_usage_state@.dom().contains(d) ==> r.p_res_state.data_usage_state@[d]
                    == (crate::data_usage::DataUseState { num_readers: 0, write_active: false }),
    {
        SchedState {
            p_stages: PassStages::new(p_meta),
            p_res_state: PassResState::new(p_meta),
            passes_running: Vec::new(),
            num_passes_rem: p_meta.pass_names.len(),
        }
    }
}

/// How many times, in all, the passes `ps` ask to read `d`.
pub open spec fn reads_by(
    reads: Map<Seq<char>, Seq<Seq<char>>>,
    writes: Map<Seq<char>, Seq<Seq<char>>>,
    ps: Seq<Seq<char>>,
    d: Seq<char>,
) -> nat
    decreases ps.len(),
{
    if ps.len() == 0 {
        0
    } else {
        reads_by(reads, writes, ps.drop_last(), d) + count_reads(req_of(reads, writes, ps.last()), d)
    }
}

/// One of the passes `ps` asks to write `d`.
pub open spec fn written_by(
    reads: Map<Seq<char>, Seq<Seq<char>>>,
    writes: Map<Seq<char>, Seq<Seq<char>>>,
    ps: Seq<Seq<char>>,
    d: Seq<char>,
) -> bool {
    exists|p: Seq<char>| ps.contains(p) && #[trigger] has_write(req_of(reads, writes, p), d)
}

/// `state` claims no more than the passes `hold` hold: a datum has no more
/// readers than they ask to read it, and is written only if one of them
/// asks to write it.
pub open spec fn held_by(
    reads: Map<Seq<char>, Seq<Seq<char>>>,
    writes: Map<Seq<char>, Seq<Seq<char>>>,
    state: Map<Seq<char>, crate::data_usage::DataUseState>,
    hold: Seq<Seq<char>>,
) -> bool {
    forall|d: Seq<char>|
        #[trigger] state.dom().contains(d) ==> state[d].num_readers <= reads_by(reads, writes, hold, d) && (
        state[d].write_active ==> written_by(reads, writes, hold, d))
}

proof fn lemma_concat_contains(a: Seq<Seq<char>>, b: Seq<Seq<char>>)
    ensures
        forall|p: Seq<char>| #[trigger] (a + b).contains(p) <==> (a.contains(p) || b.contains(p)),
{
    assert forall|p: Seq<char>| #[trigger] (a + b).contains(p) <==> (a.contains(p) || b.contains(p)) by {
        if (a + b).contains(p) {
            let i = choose|i: int| 0 <= i < (a + b).len() && (a + b)[i] == p;
            if i < a.len() {
                assert(a[i] == p);
            } else {
                assert(b[i - a.len()] == p);
            }
        }
        if a.contains(p) {
            let i = choose|i: int| 0 <= i < a.len() && a[i] == p;
            assert((a + b)[i] == p);
        }
        if b.contains(p) {
            let i = choose|i: int| 0 <= i < b.len() && b[i] == p;
            assert((a + b)[a.len() + i] == p);
        }
    }
}

/// Once pass `x` takes what it requests and joins the holders, the usage
/// table still claims no more than the holders hold.
proof fn lemma_held_after_acquire(
    reads: Map<Seq<char>, Seq<Seq<char>>>,
    writes: Map<Seq<char>, Seq<Seq<char>>>,
    state: Map<Seq<char>, crate::data_usage::DataUseState>,
    hold: Seq<Seq<char>>,
    x: Seq<char>,
    hold2: Seq<Seq<char>>,
)
    requires
        held_by(reads, writes, state, hold),
        req_fits(state, req_of(reads, writes, x)),
        forall|d: Seq<char>|
            #[trigger] reads_by(reads, writes, hold2, d) == reads_by(reads, writes, hold, d) + count_reads(
                req_of(reads, writes, x),
                d,
            ),
        hold2.contains(x),
        forall|p: Seq<char>| #[trigger] hold.contains(p) ==> hold2.contains(p),
    ensures
        held_by(reads, writes, acquired(state, req_of(reads, writes, x)), hold2),
{
    let req = req_of(reads, writes, x);
    let a = acquired(state, req);
    assert forall|d: Seq<char>| #[trigger] a.dom().contains(d) implies a[d].num_readers <= reads_by(
        reads,
        writes,
        hold2,
        d,
    ) && (a[d].write_active ==> written_by(reads, writes, hold2, d)) by {
        if count_reads(req, d) > 0 {
            lemma_count_reads_member(req, d);
            let i = choose|i: int| 0 <= i < req.len() && #[trigger] req[i] == (d, DataReqType::READ);
            assert(req[i].1 == DataReqType::READ);
        }
        assert(state[d].num_readers + count_reads(req, d) <= usize::MAX);
        if a[d].write_active {
            if has_write(req, d) {
                assert(hold2.contains(x));
            } else {
                let p = choose|p: Seq<char>| hold.contains(p) && #[trigger] has_write(req_of(reads, writes, p), d);
                assert(hold2.contains(p));
            }
        }
    }
}

/// Once pass `c` gives back what it requested and leaves the holders, the
/// usage table still claims no more than the holders hold.
proof fn lemma_held_after_release(
    reads: Map<Seq<char>, Seq<Seq<char>>>,
    writes: Map<Seq<char>, Seq<Seq<char>>>,
    state: Map<Seq<char>, crate::data_usage::DataUseState>,
    hold: Seq<Seq<char>>,
    c: Seq<char>,
    hold2: Seq<Seq<char>>,
)
    requires
        held_by(reads, writes, state, hold),
        forall|d: Seq<char>|
            #[trigger] reads_by(reads, writes, hold, d) == reads_by(reads, writes, hold2, d) + count_reads(
                req_of(reads, writes, c),
                d,
            ),
        forall|p: Seq<char>| #[trigger] hold.contains(p) && p != c ==> hold2.contains(p),
    ensures
        held_by(reads, writes, released(state, req_of(reads, writes, c)), hold2),
{
    let req = req_of(reads, writes, c);
    let r = released(state, req);
    assert forall|d: Seq<char>| #[trigger] r.dom().contains(d) implies r[d].num_readers <= reads_by(
        reads,
        writes,
        hold2,
        d,
    ) && (r[d].write_active ==> written_by(reads, writes, hold2, d)) by {
        assert(reads_by(reads, writes, hold, d) == reads_by(reads, writes, hold2, d) + count_reads(req, d));
        if r[d].write_active {
            let p = choose|p: Seq<char>| hold.contains(p) && #[trigger] has_write(req_of(reads, writes, p), d);
            assert(p != c);
            assert(hold2.contains(p));
        }
    }
}

/// Holders that ask for the same reads, and include every holder of
/// before, leave the usage table claiming no more than they hold.
proof fn lemma_held_after_reorder(
    reads: Map<Seq<char>, Seq<Seq<char>>>,
    writes: Map<Seq<char>, Seq<Seq<char>>>,
    state: Map<Seq<char>, crate::data_usage::DataUseState>,
    hold: Seq<Seq<char>>,
    hold2: Seq<Seq<char>>,
)
    requires
        held_by(reads, writes, state, hold),
        forall|d: Seq<char>| #[trigger] reads_by(reads, writes, hold2, d) == reads_by(reads, writes, hold, d),
        forall|p: Seq<char>| #[trigger] hold.contains(p) ==> hold2.contains(p),
    ensures
        held_by(reads, writes, state, hold2),
{
    assert forall|d: Seq<char>| #[trigger] state.dom().contains(d) implies state[d].num_readers <= reads_by(
        reads,
        writes,
        hold2,
        d,
    ) && (state[d].write_active ==> written_by(reads, writes, hold2, d)) by {
        assert(reads_by(reads, writes, hold2, d) == reads_by(reads, writes, hold, d));
        if state[d].write_active {
            let p = choose|p: Seq<char>| hold.contains(p) && #[trigger] has_write(req_of(reads, writes, p), d);
            assert(hold2.contains(p));
        }
    }
}

proof fn lemma_reads_by_push(
    reads: Map<Seq<char>, Seq<Seq<char>>>,
    writes: Map<Seq<char>, Seq<Seq<char>>>,
    a: Seq<Seq<char>>,
    x: Seq<char>,
    d: Seq<char>,
)
    ensures
        reads_by(reads, writes, a.push(x), d) == reads_by(reads, writes, a, d) + count_reads(
            req_of(reads, writes, x),
            d,
        ),
{
    assert(a.push(x).drop_last() =~= a);
}

proof fn lemma_reads_by_concat(
    reads: Map<Seq<char>, Seq<Seq<char>>>,
    writes: Map<Seq<char>, Seq<Seq<char>>>,
    a: Seq<Seq<char>>,
    b: Seq<Seq<char>>,
    d: Seq<char>,
)
    ensures
        reads_by(reads, writes, a + b, d) == reads_by(reads, writes, a, d) + reads_by(reads, writes, b, d),
    decreases b.len(),
{
    if b.len() == 0 {
        assert(a + b =~= a);
    } else {
        lemma_reads_by_concat(reads, writes, a, b.drop_last(), d);
        assert((a + b).drop_last() =~= a + b.drop_last());
        assert((a + b).last() == b.last());
    }
}

proof fn lemma_reads_by_remove(
    reads: Map<Seq<char>, Seq<Seq<char>>>,
    writes: Map<Seq<char>, Seq<Seq<char>>>,
    s: Seq<Seq<char>>,
    i: int,
    d: Seq<char>,
)
    requires
        0 <= i < s.len(),
    ensures
        reads_by(reads, writes, s, d) == reads_by(reads, writes, s.remove(i), d) + count_reads(
            req_of(reads, writes, s[i]),
            d,
        ),
    decreases s.len(),
{
    if i == s.len() - 1 {
        assert(s.remove(i) =~= s.drop_last());
    } else {
        lemma_reads_by_remove(reads, writes, s.drop_last(), i, d);
        assert(s.remove(i).drop_last() =~= s.drop_last().remove(i));
        assert(s.remove(i).last() == s.last());
    }
}

impl<P, F, D> GenerationState<P, F, D> {
    pub closed spec fn names(&self) -> Seq<Seq<char>> {
        names_of(self.pass_data.pass_meta_data.pass_names@)
    }

    pub closed spec fn reads(&self) -> Map<Seq<char>, Seq<Seq<char>>> {
        group_view(self.pass_data.pass_meta_data.pass_mappings.pass_data_read_reqs)
    }

    pub closed spec fn writes(&self) -> Map<Seq<char>, Seq<Seq<char>>> {
        group_view(self.pass_data.pass_meta_data.pass_mappings.pass_data_write_reqs)
    }

    pub closed spec fn creates(&self) -> Map<Seq<char>, Seq<Seq<char>>> {
        group_view(self.pass_data.pass_meta_data.pass_mappings.pass_data_create_reqs)
    }

    pub closed spec fn prereq_map(&self) -> Map<Seq<char>, Seq<Seq<char>>> {
        group_view(self.pass_data.pass_meta_data.pass_mappings.prereq_passes_of_passes)
    }

    /// The passes that must complete before `p` runs.
    pub open spec fn prereqs_of(&self, p: Seq<char>) -> Seq<Seq<char>> {
        table_or_empty(self.prereq_map(), p)
    }

    /// The data that must be created before `p` runs.
    pub open spec fn needs_of(&self, p: Seq<char>) -> Seq<Seq<char>> {
        needs_of(self.reads(), self.writes(), p)
    }

    pub open spec fn creates_of(&self, p: Seq<char>) -> Seq<Seq<char>> {
        table_or_empty(self.creates(), p)
    }

    pub open spec fn req_of(&self, p: Seq<char>) -> Seq<(Seq<char>, DataReqType)> {
        req_of(self.reads(), self.writes(), p)
    }

    pub closed spec fn completed(&self) -> Set<Seq<char>> {
        self.sched_state.p_stages.prereqs_of_passes.counts.done_set()
    }

    pub closed spec fn created(&self) -> Set<Seq<char>> {
        self.sched_state.p_stages.passes_waiting_on_data_to_be_created.counts.done_set()
    }

    pub closed spec fn waiting(&self) -> Seq<Seq<char>> {
        names_of(self.sched_state.p_stages.passes_waiting_for_resources@)
    }

    pub closed spec fn ready(&self) -> Seq<Seq<char>> {
        names_of(self.sched_state.p_stages.passes_ready_for_scheduling@)
    }

    pub closed spec fn running(&self) -> Seq<Seq<char>> {
        names_of(self.sched_state.passes_running@)
    }

    pub closed spec fn usage(&self) -> Map<Seq<char>, crate::data_usage::DataUseState> {
        self.sched_state.p_res_state.data_usage_state@
    }

    pub closed spec fn threads_avail(&self) -> usize {
        self.num_threads_avail
    }

    pub closed spec fn max_threads(&self) -> usize {
        self.non_pass_data.max_threads
    }

    pub closed spec fn passes_remaining(&self) -> usize {
        self.sched_state.num_passes_rem
    }

    /// All of `p`'s prerequisite passes have completed and all the data it
    /// requests has been created.
    pub open spec fn unblocked(&self, p: Seq<char>) -> bool {
        all_in(self.prereqs_of(p), self.completed()) && all_in(self.needs_of(p), self.created())
    }

    /// `p` is waiting for resources, ready, running or completed.
    pub open spec fn in_some_stage(&self, p: Seq<char>) -> bool {
        self.waiting().contains(p) || self.ready().contains(p) || self.running().contains(p)
            || self.completed().contains(p)
    }

    /// The passes that hold what they request: the ready ones, then the running ones.
    pub open spec fn holders(&self) -> Seq<Seq<char>> {
        self.ready() + self.running()
    }

    /// The usage table claims no more than the holders hold: a datum has no
    /// more readers than the holders ask to read it, and is written only if
    /// a holder asks to write it.
    pub open spec fn usage_held(&self) -> bool {
        held_by(self.reads(), self.writes(), self.usage(), self.holders())
    }

    pub closed spec fn wf(&self) -> bool {
        let stages = self.sched_state.p_stages;
        let pc = stages.prereqs_of_passes.counts;
        let dc = stages.passes_waiting_on_data_to_be_created.counts;
        let names = self.names();
        &&& self.pass_data.wf()
        &&& names.no_duplicates()
        &&& pc.wf()
        &&& dc.wf()
        &&& pc.entries() == names.map_values(|p: Seq<char>| (p, self.prereqs_of(p)))
        &&& dc.entries() == names.map_values(|p: Seq<char>| (p, self.needs_of(p)))
        &&& self.waiting().no_duplicates()
        &&& self.ready().no_duplicates()
        &&& self.running().no_duplicates()
        &&& disjoint(self.waiting(), self.ready())
        &&& disjoint(self.waiting(), self.running())
        &&& disjoint(self.ready(), self.running())
        &&& forall|p: Seq<char>|
            #[trigger] self.completed().contains(p) ==> !self.waiting().contains(p)
                && !self.ready().contains(p) && !self.running().contains(p)
        &&& forall|p: Seq<char>| #[trigger] self.in_some_stage(p) ==> names.contains(p)
        &&& forall|p: Seq<char>|
            names.contains(p) ==> (#[trigger] self.in_some_stage(p) <==> self.unblocked(p))
        &&& forall|d: Seq<char>|
            #[trigger] self.created().contains(d) <==> exists|c: Seq<char>|
                self.completed().contains(c) && #[trigger] self.creates_of(c).contains(d)
        &&& self.sched_state.p_res_state.pass_req_res.wf()
        &&& self.sched_state.p_res_state.pass_req_res.keys() == names
        &&& forall|p: Seq<char>|
            #[trigger] self.sched_state.p_res_state.pass_req_res@.dom().contains(p)
                ==> self.sched_state.p_res_state.pass_req_res@[p].reqs() == self.req_of(p)
        &&& self.sched_state.p_res_state.data_usage_state.wf()
        &&& forall|p: Seq<char>| names.contains(p) ==> req_in_domain(self.usage(), #[trigger] self.req_of(p))
        &&& forall|p: Seq<char>| names.contains(p) ==> self_consistent(#[trigger] self.req_of(p))
        &&& exclusive(self.usage())
        &&& self.usage_held()
        &&& self.sched_state.num_passes_rem + pc.done_count() == names.len()
        &&& self.num_threads_avail + self.running().len() == self.non_pass_data.max_threads
    }

    /// The state of a run of a checked registration: every pass that waits
    /// on nothing waits for resources, every other pass is blocked.
    pub fn new(reg_info: RegisteredInfo<P, F, D>) -> (r: GenerationState<P, F, D>)
        requires
            reg_info.wf(),
            names_of(reg_info.pass_data.pass_meta_data.pass_names@).no_duplicates(),
            rw_conflicts(
                entries_view(reg_info.pass_data.pass_meta_data.pass_mappings.pass_data_read_reqs),
                group_view(reg_info.pass_data.pass_meta_data.pass_mappings.pass_data_write_reqs),
            ).len() == 0,
        ensures
            r.wf(),
            r.names() == names_of(reg_info.pass_data.pass_meta_data.pass_names@),
            r.reads() == group_view(reg_info.pass_data.pass_meta_data.pass_mappings.pass_data_read_reqs),
            r.writes() == group_view(reg_info.pass_data.pass_meta_data.pass_mappings.pass_data_write_reqs),
            r.creates() == group_view(reg_info.pass_data.pass_meta_data.pass_mappings.pass_data_create_reqs),
            r.prereq_map() == group_view(reg_info.pass_data.pass_meta_data.pass_mappings.prereq_passes_of_passes),
            r.max_threads() == reg_info.non_pass_data.max_threads,
            r.completed() == Set::<Seq<char>>::empty(),
            r.created() == Set::<Seq<char>>::empty(),
            r.waiting() == unblocked(r.names(), r.prereq_map(), r.reads(), r.writes()),
            r.ready() == Seq::<Seq<char>>::empty(),
            r.running() == Seq::<Seq<char>>::empty(),
            r.threads_avail() == reg_info.non_pass_data.max_threads,
            r.passes_remaining() == r.names().len(),
            forall|d: Seq<char>|
                #[trigger] r.usage().dom().contains(d) ==> r.usage()[d] == (crate::data_usage::DataUseState {
                    num_readers: 0,
                    write_active: false,
                }),
    {
        let RegisteredInfo { pass_data, non_pass_data } = reg_info;
        let meta = &pass_data.pass_meta_data;
        let ghost names = names_of(meta.pass_names@);
        let ghost reads = group_view(meta.pass_mappings.pass_data_read_reqs);
        let ghost writes = group_view(meta.pass_mappings.pass_data_write_reqs);
        let ghost prereqs = group_view(meta.pass_mappings.prereq_passes_of_passes);
        let sched_state = SchedState::new(meta);
        let ghost pc = sched_state.p_stages.prereqs_of_passes.counts;
        let ghost dc = sched_state.p_stages.passes_waiting_on_data_to_be_created.counts;
        let max_threads = non_pass_data.max_threads;
        let r = GenerationState { sched_state, pass_data, non_pass_data, num_threads_avail: max_threads };
        proof {
            lemma_unblocked(names, prereqs, reads, writes);
            pc.lemma_entries();
            assert(pc.entries() =~= names.map_values(|p: Seq<char>| (p, r.prereqs_of(p))));
            assert(dc.entries() =~= names.map_values(|p: Seq<char>| (p, r.needs_of(p))));
            let read_entries = entries_view(r.pass_data.pass_meta_data.pass_mappings.pass_data_read_reqs);
            lemma_no_conflicts(read_entries, writes);
            assert forall|p: Seq<char>| #[trigger] r.in_some_stage(p) implies names.contains(p) by {}
            assert forall|p: Seq<char>| names.contains(p) implies (#[trigger] r.in_some_stage(p) <==> r.unblocked(p)) by {
                lemma_all_in_empty(r.prereqs_of(p));
                lemma_all_in_empty(r.needs_of(p));
            }
            assert forall|p: Seq<char>| names.contains(p) implies self_consistent(#[trigger] r.req_of(p)) by {
                assert forall|d: Seq<char>| !(count_reads(r.req_of(p), d) > 0 && #[trigger] has_write(r.req_of(p), d)) by {
                    lemma_count_reads_of_req(reads, writes, p, d);
                    if count_reads(r.req_of(p), d) > 0 && has_write(r.req_of(p), d) {
                        let m = r.pass_data.pass_meta_data.pass_mappings.pass_data_read_reqs;
                        let k = choose|k: int| 0 <= k < m.keys().len() && m.keys()[k] == p;
                        m.lemma_view_index(k);
                        assert(read_entries[k].0 == p);
                        lemma_common_empty(writes[p], reads[p]);
                        let w = choose|w: int| 0 <= w < writes[p].len() && writes[p][w] == d;
                        assert(!reads[p].contains(writes[p][w]));
                    }
                }
            }
            assert forall|d: Seq<char>| #[trigger] r.created().contains(d) <==> exists|c: Seq<char>|
                r.completed().contains(c) && #[trigger] r.creates_of(c).contains(d) by {}
        }
        r
    }
}


proof fn lemma_all_in_mono(s: Seq<Seq<char>>, a: Set<Seq<char>>, b: Set<Seq<char>>)
    requires
        all_in(s, a),
        a.subset_of(b),
    ensures
        all_in(s, b),
{
    assert forall|i: int| 0 <= i < s.len() implies b.contains(#[trigger] s[i]) by {
        assert(a.contains(s[i]));
    }
}

/// `x` waits on something not done in `counts`.
pub open spec fn blocked_in(counts: WaitCounts, x: Seq<char>) -> bool {
    counts.waiting_on().dom().contains(x) && !all_in(counts.waiting_on()[x], counts.done_set())
}

impl PrereqsOfPasses {
    /// Marks `pass_id_completed` completed; returns, in order, the passes whose
    /// last outstanding prerequisite it was.
    fn notify_pass_completed_and_ret_pids_that_can_be_moved_to_waiting_for_created(
        &mut self,
        pass_id_completed: &String,
    ) -> (r: Vec<String>)
        requires
            old(self).counts.wf(),
        ensures
            final(self).counts.wf(),
            final(self).counts.waiting_on() == old(self).counts.waiting_on(),
            final(self).counts.entries() == old(self).counts.entries(),
            final(self).counts.done_set() == old(self).counts.done_set().insert(pass_id_completed@),
            final(self).counts.done_count() == old(self).counts.done_count() + if old(
                self,
            ).counts.done_set().contains(pass_id_completed@) {
                0nat
            } else {
                1nat
            },
            names_of(r@) == newly_complete(
                old(self).counts.entries(),
                old(self).counts.done_set(),
                old(self).counts.done_set().insert(pass_id_completed@),
            ),
    {
        self.counts.notify(pass_id_completed)
    }

    /// Whether every prerequisite of `pid` has completed.
    fn prereqs_are_met(&self, pid: &String) -> (b: bool)
        requires
            self.counts.wf(),
        ensures
            b == !blocked_in(self.counts, pid@),
    {
        !self.counts.is_waiting(pid)
    }
}

impl PassesWaitingOnDataToBeCreated {
    /// Whether `pid` requests data that has not been created.
    fn pass_is_waiting(&self, pid: &String) -> (b: bool)
        requires
            self.counts.wf(),
        ensures
            b == blocked_in(self.counts, pid@),
    {
        self.counts.is_waiting(pid)
    }

    /// Marks `did_created` created; appends to `to_waiting_pids`, in order, the
    /// passes for which it was the last datum outstanding.
    fn notify_data_created_and_ret_pids_that_can_be_moved_to_waiting_for_res(
        &mut self,
        did_created: &String,
        to_waiting_pids: &mut Vec<String>,
    )
        requires
            old(self).counts.wf(),
        ensures
            final(self).counts.wf(),
            final(self).counts.waiting_on() == old(self).counts.waiting_on(),
            final(self).counts.entries() == old(self).counts.entries(),
            final(self).counts.done_set() == old(self).counts.done_set().insert(did_created@),
            names_of(final(to_waiting_pids)@) == names_of(old(to_waiting_pids)@) + newly_complete(
                old(self).counts.entries(),
                old(self).counts.done_set(),
                old(self).counts.done_set().insert(did_created@),
            ),
    {
        let pids = self.counts.notify(did_created);
        let ghost before = to_waiting_pids@;
        let n = pids.len();
        let mut i: usize = 0;
        while i < n
            invariant
                n == pids@.len(),
                i <= n,
                names_of(to_waiting_pids@) == names_of(before) + names_of(pids@).take(i as int),
            decreases n - i,
        {
            let ghost b = to_waiting_pids@;
            to_waiting_pids.push(pids[i].clone());
            assert(names_of(to_waiting_pids@) =~= names_of(b).push(pids@[i as int]@));
            assert(names_of(pids@).take(i + 1) =~= names_of(pids@).take(i as int).push(pids@[i as int]@));
            i = i + 1;
        }
        assert(names_of(pids@).take(n as int) =~= names_of(pids@));
    }
}

/// The entries of `s` for which `keep` holds, in order.
pub open spec fn keep_where(s: Seq<Seq<char>>, keep: spec_fn(Seq<char>) -> bool) -> Seq<Seq<char>>
    decreases s.len(),
{
    if s.len() == 0 {
        Seq::empty()
    } else if keep(s.last()) {
        keep_where(s.drop_last(), keep).push(s.last())
    } else {
        keep_where(s.drop_last(), keep)
    }
}

/// The passes that the data `created` release when they are marked created
/// one after another on top of `done`, in order: for each datum, the keys of
/// `entries` for which it was the last datum outstanding and for which
/// `keep` holds.
pub open spec fn released_by(
    entries: Seq<(Seq<char>, Seq<Seq<char>>)>,
    done: Set<Seq<char>>,
    created: Seq<Seq<char>>,
    keep: spec_fn(Seq<char>) -> bool,
) -> Seq<Seq<char>>
    decreases created.len(),
{
    if created.len() == 0 {
        Seq::empty()
    } else {
        let before = done.union(created.drop_last().to_set());
        released_by(entries, done, created.drop_last(), keep) + keep_where(
            newly_complete(entries, before, before.insert(created.last())),
            keep,
        )
    }
}

proof fn lemma_keep_where_agree(s: Seq<Seq<char>>, f1: spec_fn(Seq<char>) -> bool, f2: spec_fn(Seq<char>) -> bool)
    requires
        forall|i: int| 0 <= i < s.len() ==> f1(#[trigger] s[i]) == f2(s[i]),
    ensures
        keep_where(s, f1) == keep_where(s, f2),
    decreases s.len(),
{
    if s.len() > 0 {
        assert(f1(s[s.len() - 1]) == f2(s[s.len() - 1]));
        lemma_keep_where_agree(s.drop_last(), f1, f2);
    }
}

proof fn lemma_released_by_agree(
    entries: Seq<(Seq<char>, Seq<Seq<char>>)>,
    done: Set<Seq<char>>,
    created: Seq<Seq<char>>,
    f1: spec_fn(Seq<char>) -> bool,
    f2: spec_fn(Seq<char>) -> bool,
)
    requires
        forall|i: int| 0 <= i < entries.len() ==> f1(#[trigger] entries[i].0) == f2(entries[i].0),
    ensures
        released_by(entries, done, created, f1) == released_by(entries, done, created, f2),
    decreases created.len(),
{
    if created.len() > 0 {
        lemma_released_by_agree(entries, done, created.drop_last(), f1, f2);
        let before = done.union(created.drop_last().to_set());
        let nc = newly_complete(entries, before, before.insert(created.last()));
        lemma_newly_complete(entries, before, before.insert(created.last()));
        assert forall|i: int| 0 <= i < nc.len() implies f1(#[trigger] nc[i]) == f2(nc[i]) by {
            assert(nc.contains(nc[i]));
            let k = choose|k: int| 0 <= k < entries.len() && (#[trigger] entries[k]).0 == nc[i] && !all_in(
                entries[k].1,
                before,
            ) && all_in(entries[k].1, before.insert(created.last()));
            assert(f1(entries[k].0) == f2(entries[k].0));
        }
        lemma_keep_where_agree(nc, f1, f2);
    }
}

/// Puts `pid` at the end of the passes waiting for resources.
fn add_pass_to_res_waiting(pid: String, p_stages: &mut PassStages)
    ensures
        final(p_stages).passes_waiting_for_resources@ == old(p_stages).passes_waiting_for_resources@.push(pid),
        final(p_stages).passes_ready_for_scheduling == old(p_stages).passes_ready_for_scheduling,
        final(p_stages).prereqs_of_passes == old(p_stages).prereqs_of_passes,
        final(p_stages).passes_waiting_on_data_to_be_created == old(p_stages).passes_waiting_on_data_to_be_created,
{
    p_stages.passes_waiting_for_resources.push(pid);
}

/// Marks the data that `comp_pid` creates as created, and moves to the
/// passes waiting for resources each pass for which that was the last
/// datum outstanding and whose prerequisites have all completed.
fn update_passes_waiting_on_non_existing_data_with_completed_pass(
    comp_pid: &String,
    p_stages: &mut PassStages,
    p_mappings: &PassMappings,
)
    requires
        p_mappings.wf(),
        old(p_stages).prereqs_of_passes.counts.wf(),
        old(p_stages).passes_waiting_on_data_to_be_created.counts.wf(),
        names_of(old(p_stages).passes_waiting_for_resources@).no_duplicates(),
        forall|x: Seq<char>|
            #[trigger] names_of(old(p_stages).passes_waiting_for_resources@).contains(x)
                ==> !blocked_in(old(p_stages).passes_waiting_on_data_to_be_created.counts, x),
    ensures
        final(p_stages).prereqs_of_passes == old(p_stages).prereqs_of_passes,
        final(p_stages).passes_ready_for_scheduling == old(p_stages).passes_ready_for_scheduling,
        final(p_stages).passes_waiting_on_data_to_be_created.counts.wf(),
        final(p_stages).passes_waiting_on_data_to_be_created.counts.waiting_on() == old(
            p_stages,
        ).passes_waiting_on_data_to_be_created.counts.waiting_on(),
        final(p_stages).passes_waiting_on_data_to_be_created.counts.entries() == old(
            p_stages,
        ).passes_waiting_on_data_to_be_created.counts.entries(),
        final(p_stages).passes_waiting_on_data_to_be_created.counts.done_set() == old(
            p_stages,
        ).passes_waiting_on_data_to_be_created.counts.done_set().union(
            table_or_empty(group_view(p_mappings.pass_data_create_reqs), comp_pid@).to_set(),
        ),
        names_of(final(p_stages).passes_waiting_for_resources@).no_duplicates(),
        forall|x: Seq<char>|
            #[trigger] names_of(final(p_stages).passes_waiting_for_resources@).contains(x) <==> (
            names_of(old(p_stages).passes_waiting_for_resources@).contains(x) || (blocked_in(
                old(p_stages).passes_waiting_on_data_to_be_created.counts,
                x,
            ) && !blocked_in(final(p_stages).passes_waiting_on_data_to_be_created.counts, x)
                && !blocked_in(old(p_stages).prereqs_of_passes.counts, x))),
        names_of(final(p_stages).passes_waiting_for_resources@) == names_of(
            old(p_stages).passes_waiting_for_resources@,
        ) + released_by(
            old(p_stages).passes_waiting_on_data_to_be_created.counts.entries(),
            old(p_stages).passes_waiting_on_data_to_be_created.counts.done_set(),
            table_or_empty(group_view(p_mappings.pass_data_create_reqs), comp_pid@),
            |x: Seq<char>| !blocked_in(old(p_stages).prereqs_of_passes.counts, x),
        ),
{
    let ghost dc0 = p_stages.passes_waiting_on_data_to_be_created.counts;
    let ghost w0 = names_of(p_stages.passes_waiting_for_resources@);
    let ghost pc = p_stages.prereqs_of_passes.counts;
    let dids_created_by_pass = list_or_empty(&p_mappings.pass_data_create_reqs, comp_pid);
    let ghost cr = names_of(dids_created_by_pass@);
    let ghost wo = dc0.waiting_on();
    let ghost keep = |x: Seq<char>| !blocked_in(pc, x);
    let n = dids_created_by_pass.len();
    let mut k: usize = 0;
    proof {
        assert(cr.take(0).to_set() =~= Set::<Seq<char>>::empty());
        assert(dc0.done_set().union(cr.take(0).to_set()) =~= dc0.done_set());
    }
    while k < n
        invariant
            n == cr.len(),
            cr == names_of(dids_created_by_pass@),
            k <= n,
            p_stages.prereqs_of_passes.counts == pc,
            pc.wf(),
            p_stages.passes_ready_for_scheduling == old(p_stages).passes_ready_for_scheduling,
            p_stages.passes_waiting_on_data_to_be_created.counts.wf(),
            p_stages.passes_waiting_on_data_to_be_created.counts.waiting_on() == wo,
            p_stages.passes_waiting_on_data_to_be_created.counts.entries() == dc0.entries(),
            p_stages.passes_waiting_on_data_to_be_created.counts.done_set() == dc0.done_set().union(
                cr.take(k as int).to_set(),
            ),
            dc0.wf(),
            wo == dc0.waiting_on(),
            w0 == names_of(old(p_stages).passes_waiting_for_resources@),
            forall|x: Seq<char>| #[trigger] w0.contains(x) ==> !blocked_in(dc0, x),
            names_of(p_stages.passes_waiting_for_resources@).no_duplicates(),
            forall|x: Seq<char>|
                #[trigger] names_of(p_stages.passes_waiting_for_resources@).contains(x) <==> (
                w0.contains(x) || (blocked_in(dc0, x) && !blocked_in(
                    p_stages.passes_waiting_on_data_to_be_created.counts,
                    x,
                ) && !blocked_in(pc, x))),
            keep == (|x: Seq<char>| !blocked_in(pc, x)),
            names_of(p_stages.passes_waiting_for_resources@) == w0 + released_by(
                dc0.entries(),
                dc0.done_set(),
                cr.take(k as int),
                keep,
            ),
        decreases n - k,
    {
        let ghost dk = p_stages.passes_waiting_on_data_to_be_created.counts;
        let ghost wk = names_of(p_stages.passes_waiting_for_resources@);
        let did = &dids_created_by_pass[k];
        let mut pids_that_can_go_to_res_waiting: Vec<String> = Vec::new();
        p_stages.passes_waiting_on_data_to_be_created.notify_data_created_and_ret_pids_that_can_be_moved_to_waiting_for_res(
            did,
            &mut pids_that_can_go_to_res_waiting,
        );
        let ghost dk1 = p_stages.passes_waiting_on_data_to_be_created.counts;
        let ghost released = names_of(pids_that_can_go_to_res_waiting@);
        proof {
            assert(released =~= newly_complete(dk.entries(), dk.done_set(), dk.done_set().insert(did@)));
            lemma_newly_complete(dk.entries(), dk.done_set(), dk.done_set().insert(did@));
            dk.lemma_entries();
            assert(cr.take(k + 1) =~= cr.take(k as int).push(did@));
            cr.take(k as int).lemma_push_to_set_commute(did@);
            assert(dk1.done_set() =~= dc0.done_set().union(cr.take(k + 1).to_set()));
            assert(dc0.done_set().subset_of(dk.done_set()));
            assert(dk.done_set().subset_of(dk1.done_set()));
        }
        // Move the released passes whose prerequisites have completed.
        let m = pids_that_can_go_to_res_waiting.len();
        let mut j: usize = 0;
        while j < m
            invariant
                m == released.len(),
                released == names_of(pids_that_can_go_to_res_waiting@),
                released.no_duplicates(),
                forall|x: Seq<char>| #[trigger] released.contains(x) ==> blocked_in(dk, x) && !blocked_in(dk1, x),
                j <= m,
                p_stages.prereqs_of_passes.counts == pc,
                pc.wf(),
                p_stages.passes_ready_for_scheduling == old(p_stages).passes_ready_for_scheduling,
                p_stages.passes_waiting_on_data_to_be_created.counts == dk1,
                names_of(p_stages.passes_waiting_for_resources@).no_duplicates(),
                forall|x: Seq<char>| #[trigger] wk.contains(x) ==> !blocked_in(dk, x),
                forall|x: Seq<char>| #[trigger] w0.contains(x) ==> !blocked_in(dc0, x),
                forall|x: Seq<char>|
                    #[trigger] wk.contains(x) <==> (w0.contains(x) || (blocked_in(dc0, x) && !blocked_in(dk, x)
                        && !blocked_in(pc, x))),
                forall|x: Seq<char>|
                    #[trigger] names_of(p_stages.passes_waiting_for_resources@).contains(x) <==> (
                    wk.contains(x) || (released.take(j as int).contains(x) && !blocked_in(pc, x))),
                keep == (|x: Seq<char>| !blocked_in(pc, x)),
                names_of(p_stages.passes_waiting_for_resources@) == wk + keep_where(released.take(j as int), keep),
            decreases m - j,
        {
            let pid = &pids_that_can_go_to_res_waiting[j];
            let ghost wj = names_of(p_stages.passes_waiting_for_resources@);
            proof {
                assert(released.take(j + 1) =~= released.take(j as int).push(pid@));
                assert(released.contains(pid@)) by {
                    assert(released[j as int] == pid@);
                }
                if released.take(j as int).contains(pid@) {
                    let q = choose|q: int| 0 <= q < j && released.take(j as int)[q] == pid@;
                    assert(released[q] == released[j as int]);
                }
            }
            assert(forall|x: Seq<char>| #[trigger] wj.contains(x) <==> (
                wk.contains(x) || (released.take(j as int).contains(x) && !blocked_in(pc, x))));
            let met = p_stages.prereqs_of_passes.prereqs_are_met(pid);
            if met {
                add_pass_to_res_waiting(pid.clone(), p_stages);
                proof {
                    assert(names_of(p_stages.passes_waiting_for_resources@) =~= wj.push(pid@));
                    assert forall|a: int, b: int|
                        0 <= a < wj.push(pid@).len() && 0 <= b < wj.push(pid@).len() && a != b implies wj.push(
                        pid@,
                    )[a] != wj.push(pid@)[b] by {
                        if a == wj.len() {
                            assert(wj.contains(wj[b]));
                        } else if b == wj.len() {
                            assert(wj.contains(wj[a]));
                        }
                    }
                }
            }
            proof {
                let wnew = names_of(p_stages.passes_waiting_for_resources@);
                assert(wnew == if met { wj.push(pid@) } else { wj });
                assert(released.take(j + 1).drop_last() =~= released.take(j as int));
                assert(released.take(j + 1).last() == pid@);
                assert(keep(pid@) == met);
                assert(wnew =~= wk + keep_where(released.take(j + 1), keep));
                assert forall|x: Seq<char>|
                    #[trigger] names_of(p_stages.passes_waiting_for_resources@).contains(x) <==> (
                    wk.contains(x) || (released.take(j + 1).contains(x) && !blocked_in(pc, x))) by {
                    if wnew.contains(x) {
                        if met && x == pid@ {
                            assert(released.take(j + 1)[j as int] == pid@);
                        } else {
                            if met {
                                let q = choose|q: int| 0 <= q < wnew.len() && wnew[q] == x;
                                assert(wj[q] == x);
                            }
                            assert(wj.contains(x));
                            if released.take(j as int).contains(x) {
                                let t = released.take(j as int);
                                let q = choose|q: int| 0 <= q < t.len() && t[q] == x;
                                assert(released.take(j + 1)[q] == x);
                            }
                        }
                    }
                    if met && wj.contains(x) {
                        let q = choose|q: int| 0 <= q < wj.len() && wj[q] == x;
                        assert(wnew[q] == x);
                    }
                    if met && x == pid@ {
                        assert(wnew[wj.len() as int] == x);
                    }
                    if released.take(j + 1).contains(x) && x != pid@ {
                        let t = released.take(j + 1);
                        let q = choose|q: int| 0 <= q < t.len() && t[q] == x;
                        assert(released.take(j as int)[q] == x);
                    }
                    if released.take(j as int).contains(x) {
                        let t = released.take(j as int);
                        let q = choose|q: int| 0 <= q < t.len() && t[q] == x;
                        assert(released.take(j + 1)[q] == x);
                    }
                }
            }
            j = j + 1;
        }
        proof {
            assert(released.take(m as int) =~= released);
            assert(cr.take(k + 1).drop_last() =~= cr.take(k as int));
            assert(cr.take(k + 1).last() == did@);
            assert(dc0.done_set().union(cr.take(k as int).to_set()) == dk.done_set());
            assert(names_of(p_stages.passes_waiting_for_resources@) =~= w0 + released_by(
                dc0.entries(),
                dc0.done_set(),
                cr.take(k + 1),
                keep,
            ));
            assert forall|x: Seq<char>| #[trigger] names_of(p_stages.passes_waiting_for_resources@).contains(x) <==> (
                w0.contains(x) || (blocked_in(dc0, x) && !blocked_in(dk1, x) && !blocked_in(pc, x))) by {
                if blocked_in(dk, x) && !blocked_in(dk1, x) {
                    assert(released.contains(x));
                    if !blocked_in(dc0, x) {
                        lemma_all_in_mono(wo[x], dc0.done_set(), dk.done_set());
                    }
                }
                if blocked_in(dc0, x) && !blocked_in(dk1, x) && !blocked_in(dk, x) && !blocked_in(pc, x) {
                    assert(wk.contains(x));
                }
                if w0.contains(x) && wo.dom().contains(x) {
                    lemma_all_in_mono(wo[x], dc0.done_set(), dk1.done_set());
                }
                if blocked_in(dc0, x) && !blocked_in(dk, x) {
                    lemma_all_in_mono(wo[x], dk.done_set(), dk1.done_set());
                }
                if released.contains(x) && blocked_in(dk, x) {
                    if !blocked_in(dc0, x) {
                        lemma_all_in_mono(wo[x], dc0.done_set(), dk.done_set());
                    }
                }
            }
        }
        k = k + 1;
    }
    proof {
        assert(cr.take(n as int) =~= cr);
    }
}


/// The position of `k` in `v`, if any.
fn find_name(v: &Vec<String>, k: &String) -> (r: Option<usize>)
    ensures
        match r {
            Some(i) => i < v@.len() && v@[i as int]@ == k@,
            None => !names_of(v@).contains(k@),
        },
{
    let n = v.len();
    let mut i: usize = 0;
    while i < n
        invariant
            n == v@.len(),
            i <= n,
            forall|q: int| 0 <= q < i ==> v@[q]@ != k@,
        decreases n - i,
    {
        if v[i] == *k {
            return Some(i);
        }
        i = i + 1;
    }
    proof {
        if names_of(v@).contains(k@) {
            let q = choose|q: int| 0 <= q < n && names_of(v@)[q] == k@;
            assert(v@[q]@ == k@);
        }
    }
    None
}

/// Removes `k`, which occurs once, from `v`.
fn remove_name(v: &mut Vec<String>, k: &String)
    requires
        names_of(old(v)@).no_duplicates(),
        names_of(old(v)@).contains(k@),
    ensures
        names_of(final(v)@).no_duplicates(),
        final(v)@.len() == old(v)@.len() - 1,
        forall|x: Seq<char>|
            #[trigger] names_of(final(v)@).contains(x) <==> (names_of(old(v)@).contains(x) && x != k@),
        exists|i: int|
            0 <= i < old(v)@.len() && #[trigger] names_of(old(v)@)[i] == k@ && names_of(final(v)@) == names_of(
                old(v)@,
            ).remove(i),
{
    let ghost s = names_of(v@);
    let i = match find_name(v, k) {
        Some(i) => i,
        None => {
            return;
        },
    };
    assert(s[i as int] == k@);
    v.remove(i);
    proof {
        let t = names_of(v@);
        assert(t =~= s.remove(i as int));
        assert forall|x: Seq<char>| #[trigger] t.contains(x) <==> (s.contains(x) && x != k@) by {
            if t.contains(x) {
                let q = choose|q: int| 0 <= q < t.len() && t[q] == x;
                if q < i {
                    assert(s[q] == x);
                    assert(q != i);
                } else {
                    assert(s[q + 1] == x);
                }
            }
            if s.contains(x) && x != k@ {
                let q = choose|q: int| 0 <= q < s.len() && s[q] == x;
                if q < i {
                    assert(t[q] == x);
                } else {
                    assert(q != i);
                    assert(t[q - 1] == x);
                }
            }
        }
        assert forall|a: int, b: int| 0 <= a < t.len() && 0 <= b < t.len() && a != b implies t[a] != t[b] by {
            let a1 = if a < i { a } else { a + 1 };
            let b1 = if b < i { b } else { b + 1 };
            assert(t[a] == s[a1] && t[b] == s[b1]);
        }
    }
}

/// What the counters of passes in `names` hold, when each pass waits on `f` of it.
proof fn lemma_counts_view(counts: WaitCounts, names: Seq<Seq<char>>, f: spec_fn(Seq<char>) -> Seq<Seq<char>>)
    requires
        counts.wf(),
        counts.entries().len() == names.len(),
        forall|i: int| 0 <= i < names.len() ==> #[trigger] counts.entries()[i] == (names[i], f(names[i])),
    ensures
        forall|x: Seq<char>| #[trigger] counts.waiting_on().dom().contains(x) <==> names.contains(x),
        forall|x: Seq<char>| names.contains(x) ==> #[trigger] counts.waiting_on()[x] == f(x),
        forall|x: Seq<char>| #[trigger] blocked_in(counts, x) <==> (names.contains(x) && !all_in(f(x), counts.done_set())),
{
    counts.lemma_entries();
    assert forall|x: Seq<char>| #[trigger] counts.waiting_on().dom().contains(x) <==> names.contains(x) by {
        if counts.waiting_on().dom().contains(x) {
            let i = choose|i: int| 0 <= i < counts.entries().len() && (#[trigger] counts.entries()[i]).0 == x;
            assert(names[i] == x);
        }
        if names.contains(x) {
            let i = choose|i: int| 0 <= i < names.len() && names[i] == x;
            assert(counts.entries()[i].0 == x);
        }
    }
    assert forall|x: Seq<char>| names.contains(x) implies #[trigger] counts.waiting_on()[x] == f(x) by {
        let i = choose|i: int| 0 <= i < names.len() && names[i] == x;
        assert(counts.entries()[i] == (x, f(x)));
    }
}

impl<P, F, D> GenerationState<P, F, D> {
    /// `after` is `self` once the running pass `c` has completed: `c` gave back
    /// what it held, the data it creates is created, and every pass that no
    /// longer waits on anything waits for resources.
    pub open spec fn completion(&self, after: Self, c: Seq<char>) -> bool {
        &&& after.wf()
        &&& after.names() == self.names()
        &&& after.reads() == self.reads()
        &&& after.writes() == self.writes()
        &&& after.creates() == self.creates()
        &&& after.prereq_map() == self.prereq_map()
        &&& after.max_threads() == self.max_threads()
        &&& after.completed() == self.completed().insert(c)
        &&& after.created() == self.created().union(self.creates_of(c).to_set())
        &&& after.ready() == self.ready()
        &&& forall|x: Seq<char>|
            #[trigger] after.running().contains(x) <==> (self.running().contains(x) && x != c)
        &&& forall|x: Seq<char>|
            #[trigger] after.waiting().contains(x) <==> (self.waiting().contains(x) || (
            self.names().contains(x) && !self.unblocked(x) && after.unblocked(x)))
        &&& after.waiting() == self.waiting() + keep_where(
            newly_complete(
                self.names().map_values(|p: Seq<char>| (p, self.prereqs_of(p))),
                self.completed(),
                self.completed().insert(c),
            ),
            |x: Seq<char>| all_in(self.needs_of(x), self.created()),
        ) + released_by(
            self.names().map_values(|p: Seq<char>| (p, self.needs_of(p))),
            self.created(),
            self.creates_of(c),
            |x: Seq<char>| all_in(self.prereqs_of(x), self.completed().insert(c)),
        )
        &&& after.usage() == released(self.usage(), self.req_of(c))
        &&& after.threads_avail() == self.threads_avail() + 1
        &&& after.passes_remaining() == self.passes_remaining() - 1
    }
}

/// Records that `comp_pass_id` has completed: gives back what it held,
/// marks the data it creates as created, and moves every pass that no
/// longer waits on anything to the passes waiting for resources.
pub fn handle_pass_completed<P, F, D>(comp_pass_id: &String, gen_state: &mut GenerationState<P, F, D>)
    requires
        old(gen_state).wf(),
        old(gen_state).running().contains(comp_pass_id@),
    ensures
        old(gen_state).completion(*final(gen_state), comp_pass_id@),
{
    let ghost g0 = *gen_state;
    let ghost c = comp_pass_id@;
    let ghost names = g0.names();
    let ghost pc0 = g0.sched_state.p_stages.prereqs_of_passes.counts;
    let ghost dc0 = g0.sched_state.p_stages.passes_waiting_on_data_to_be_created.counts;
    let ghost c0 = g0.completed();
    let ghost d0 = g0.created();
    let ghost w0 = g0.waiting();
    proof {
        lemma_counts_view(pc0, names, |p: Seq<char>| g0.prereqs_of(p));
        lemma_counts_view(dc0, names, |p: Seq<char>| g0.needs_of(p));
        assert(g0.in_some_stage(c));
        assert(!c0.contains(c));
    }
    let new_pass_ids_with_comp_prereqs = gen_state.sched_state.p_stages.prereqs_of_passes.notify_pass_completed_and_ret_pids_that_can_be_moved_to_waiting_for_created(
        comp_pass_id,
    );
    let ghost pc1 = gen_state.sched_state.p_stages.prereqs_of_passes.counts;
    let ghost c1 = c0.insert(c);
    let ghost rp = names_of(new_pass_ids_with_comp_prereqs@);
    proof {
        lemma_newly_complete(pc0.entries(), c0, c1);
        pc0.lemma_entries();
        lemma_counts_view(pc1, names, |p: Seq<char>| g0.prereqs_of(p));
        assert forall|x: Seq<char>| #[trigger] rp.contains(x) implies names.contains(x) && !all_in(
            g0.prereqs_of(x),
            c0,
        ) && all_in(g0.prereqs_of(x), c1) by {
            let i = choose|i: int|
                0 <= i < pc0.entries().len() && (#[trigger] pc0.entries()[i]).0 == x && !all_in(
                    pc0.entries()[i].1,
                    c0,
                ) && all_in(pc0.entries()[i].1, c1);
            assert(pc0.entries()[i] == (names[i], g0.prereqs_of(names[i])));
        }
        assert forall|x: Seq<char>|
            names.contains(x) && !all_in(g0.prereqs_of(x), c0) && all_in(g0.prereqs_of(x), c1) implies #[trigger] rp.contains(
            x,
        ) by {
            let i = choose|i: int| 0 <= i < names.len() && names[i] == x;
            assert(pc0.entries()[i] == (names[i], g0.prereqs_of(names[i])));
        }
    }
    // Passes whose last prerequisite just completed, and that wait on no data,
    // go straight to waiting for resources.
    let ghost fd = |x: Seq<char>| all_in(g0.needs_of(x), d0);
    let n = new_pass_ids_with_comp_prereqs.len();
    let mut j: usize = 0;
    while j < n
        invariant
            n == rp.len(),
            rp == names_of(new_pass_ids_with_comp_prereqs@),
            rp.no_duplicates(),
            forall|x: Seq<char>| #[trigger] rp.contains(x) ==> names.contains(x) && !all_in(g0.prereqs_of(x), c0),
            c0 == g0.completed(),
            d0 == g0.created(),
            w0 == g0.waiting(),
            names == g0.names(),
            g0.wf(),
            j <= n,
            gen_state.sched_state.p_stages.prereqs_of_passes.counts == pc1,
            gen_state.sched_state.p_stages.passes_waiting_on_data_to_be_created.counts == dc0,
            dc0.wf(),
            gen_state.sched_state.p_stages.passes_ready_for_scheduling == g0.sched_state.p_stages.passes_ready_for_scheduling,
            gen_state.sched_state.p_res_state == g0.sched_state.p_res_state,
            gen_state.sched_state.passes_running == g0.sched_state.passes_running,
            gen_state.sched_state.num_passes_rem == g0.sched_state.num_passes_rem,
            gen_state.pass_data == g0.pass_data,
            gen_state.non_pass_data == g0.non_pass_data,
            gen_state.num_threads_avail == g0.num_threads_avail,
            forall|x: Seq<char>| #[trigger] blocked_in(dc0, x) <==> (names.contains(x) && !all_in(g0.needs_of(x), d0)),
            names_of(gen_state.sched_state.p_stages.passes_waiting_for_resources@).no_duplicates(),
            forall|x: Seq<char>|
                #[trigger] names_of(gen_state.sched_state.p_stages.passes_waiting_for_resources@).contains(x) <==> (
                w0.contains(x) || (rp.take(j as int).contains(x) && !blocked_in(dc0, x))),
            fd == (|x: Seq<char>| all_in(g0.needs_of(x), d0)),
            names_of(gen_state.sched_state.p_stages.passes_waiting_for_resources@) == w0 + keep_where(
                rp.take(j as int),
                fd,
            ),
        decreases n - j,
    {
        let pid = &new_pass_ids_with_comp_prereqs[j];
        let ghost wj = names_of(gen_state.sched_state.p_stages.passes_waiting_for_resources@);
        proof {
            assert(rp[j as int] == pid@);
            assert(rp.contains(pid@));
            assert(rp.take(j + 1) =~= rp.take(j as int).push(pid@));
            if rp.take(j as int).contains(pid@) {
                let t = rp.take(j as int);
                let q = choose|q: int| 0 <= q < t.len() && t[q] == pid@;
                assert(rp[q] == rp[j as int]);
            }
            assert(!g0.unblocked(pid@));
            assert(!w0.contains(pid@)) by {
                if w0.contains(pid@) {
                    assert(g0.in_some_stage(pid@));
                }
            }
            assert(forall|x: Seq<char>| #[trigger] wj.contains(x) <==> (
                w0.contains(x) || (rp.take(j as int).contains(x) && !blocked_in(dc0, x))));
        }
        let waiting_on_data = gen_state.sched_state.p_stages.passes_waiting_on_data_to_be_created.pass_is_waiting(pid);
        if !waiting_on_data {
            // All data needed already exists. Go straight to waiting for resources.
            add_pass_to_res_waiting(pid.clone(), &mut gen_state.sched_state.p_stages);
        }
        proof {
            let wnew = names_of(gen_state.sched_state.p_stages.passes_waiting_for_resources@);
            assert(rp.take(j + 1).drop_last() =~= rp.take(j as int));
            assert(rp.take(j + 1).last() == pid@);
            assert(blocked_in(dc0, pid@) <==> !all_in(g0.needs_of(pid@), d0));
            assert(fd(pid@) == !waiting_on_data);
            if !waiting_on_data {
                assert(wnew =~= wj.push(pid@));
            } else {
                assert(wnew =~= wj);
            }
            assert(wnew =~= w0 + keep_where(rp.take(j + 1), fd));
            if !waiting_on_data {
                assert(wnew =~= wj.push(pid@));
                assert forall|a: int, b: int| 0 <= a < wnew.len() && 0 <= b < wnew.len() && a != b implies wnew[a] != wnew[b] by {
                    if a == wj.len() {
                        assert(wj.contains(wj[b]));
                    } else if b == wj.len() {
                        assert(wj.contains(wj[a]));
                    }
                }
            }
            assert forall|x: Seq<char>| #[trigger] wnew.contains(x) <==> (
                w0.contains(x) || (rp.take(j + 1).contains(x) && !blocked_in(dc0, x))) by {
                if wnew.contains(x) {
                    if !waiting_on_data && x == pid@ {
                        assert(rp.take(j + 1)[j as int] == pid@);
                    } else {
                        if !waiting_on_data {
                            let q = choose|q: int| 0 <= q < wnew.len() && wnew[q] == x;
                            assert(wj[q] == x);
                        }
                        assert(wj.contains(x));
                        if rp.take(j as int).contains(x) {
                            let t = rp.take(j as int);
                            let q = choose|q: int| 0 <= q < t.len() && t[q] == x;
                            assert(rp.take(j + 1)[q] == x);
                        }
                    }
                }
                if wj.contains(x) && !waiting_on_data {
                    let q = choose|q: int| 0 <= q < wj.len() && wj[q] == x;
                    assert(wnew[q] == x);
                }
                if rp.take(j + 1).contains(x) && x != pid@ {
                    let t = rp.take(j + 1);
                    let q = choose|q: int| 0 <= q < t.len() && t[q] == x;
                    assert(rp.take(j as int)[q] == x);
                }
                if x == pid@ && !blocked_in(dc0, x) {
                    assert(wnew[wj.len() as int] == x);
                }
            }
        }
        j = j + 1;
    }
    proof {
        assert(rp.take(n as int) =~= rp);
        assert forall|x: Seq<char>|
            #[trigger] names_of(gen_state.sched_state.p_stages.passes_waiting_for_resources@).contains(x)
                implies !blocked_in(dc0, x) by {
            if w0.contains(x) {
                assert(g0.in_some_stage(x));
            }
        }
    }
    let ghost w1 = names_of(gen_state.sched_state.p_stages.passes_waiting_for_resources@);
    update_passes_waiting_on_non_existing_data_with_completed_pass(
        comp_pass_id,
        &mut gen_state.sched_state.p_stages,
        &gen_state.pass_data.pass_meta_data.pass_mappings,
    );
    let ghost dc1 = gen_state.sched_state.p_stages.passes_waiting_on_data_to_be_created.counts;
    let ghost d1 = dc1.done_set();
    proof {
        lemma_counts_view(dc1, names, |p: Seq<char>| g0.needs_of(p));
        assert(d1 == d0.union(g0.creates_of(c).to_set()));
        let w2 = names_of(gen_state.sched_state.p_stages.passes_waiting_for_resources@);
        let kp = |x: Seq<char>| !blocked_in(pc1, x);
        let kc = |x: Seq<char>| all_in(g0.prereqs_of(x), c1);
        let fc = |x: Seq<char>| all_in(g0.needs_of(x), g0.created());
        assert(w2 == w1 + released_by(dc0.entries(), d0, g0.creates_of(c), kp));
        assert(w1 =~= w0 + keep_where(rp, fd));
        assert(pc0.entries() =~= names.map_values(|p: Seq<char>| (p, g0.prereqs_of(p))));
        assert(dc0.entries() =~= names.map_values(|p: Seq<char>| (p, g0.needs_of(p))));
        assert forall|i: int| 0 <= i < rp.len() implies fd(#[trigger] rp[i]) == fc(rp[i]) by {}
        lemma_keep_where_agree(rp, fd, fc);
        assert forall|i: int| 0 <= i < dc0.entries().len() implies kp(#[trigger] dc0.entries()[i].0) == kc(
            dc0.entries()[i].0,
        ) by {
            assert(dc0.entries()[i].0 == names[i]);
            assert(names.contains(names[i]));
        }
        lemma_released_by_agree(dc0.entries(), d0, g0.creates_of(c), kp, kc);
        assert(w2 == w0 + keep_where(
            newly_complete(names.map_values(|p: Seq<char>| (p, g0.prereqs_of(p))), c0, c1),
            fc,
        ) + released_by(names.map_values(|p: Seq<char>| (p, g0.needs_of(p))), d0, g0.creates_of(c), kc));
    }
    match gen_state.sched_state.p_res_state.pass_req_res.get(comp_pass_id) {
        Some(pass_req_res) => {
            gen_state.sched_state.p_res_state.data_usage_state.release_resources_of_completed_pass(
                pass_req_res,
            );
        },
        None => {
            proof {
                assert(names.contains(c));
            }
        },
    }
    let ghost u1 = gen_state.sched_state.p_res_state.data_usage_state@;
    remove_name(&mut gen_state.sched_state.passes_running, comp_pass_id);
    proof {
        let run0 = g0.running();
        let run1 = names_of(gen_state.sched_state.passes_running@);
        let i = choose|i: int| 0 <= i < run0.len() && #[trigger] run0[i] == c && run1 == run0.remove(i);
        let hold1 = g0.ready() + run1;
        assert forall|d: Seq<char>| #[trigger] reads_by(g0.reads(), g0.writes(), g0.holders(), d) == reads_by(
            g0.reads(),
            g0.writes(),
            hold1,
            d,
        ) + count_reads(g0.req_of(c), d) by {
            lemma_reads_by_concat(g0.reads(), g0.writes(), g0.ready(), run0, d);
            lemma_reads_by_concat(g0.reads(), g0.writes(), g0.ready(), run1, d);
            lemma_reads_by_remove(g0.reads(), g0.writes(), run0, i, d);
        }
        lemma_concat_contains(g0.ready(), run0);
        lemma_concat_contains(g0.ready(), run1);
        assert forall|p: Seq<char>| #[trigger] g0.holders().contains(p) && p != c implies hold1.contains(p) by {
            if run0.contains(p) {
                assert(run1.contains(p));
            }
        }
        assert(u1 == released(g0.usage(), g0.req_of(c)));
        lemma_held_after_release(g0.reads(), g0.writes(), g0.usage(), g0.holders(), c, hold1);
    }
    proof {
        pc0.lemma_entries();
        names.unique_seq_to_set();
        assert(c0.subset_of(names.to_set().remove(c))) by {
            assert forall|x: Seq<char>| c0.contains(x) implies names.to_set().remove(c).contains(x) by {
                assert(g0.in_some_stage(x));
            }
        }
        vstd::set_lib::lemma_len_subset(c0, names.to_set().remove(c));
    }
    gen_state.sched_state.num_passes_rem = gen_state.sched_state.num_passes_rem - 1;
    gen_state.num_threads_avail = gen_state.num_threads_avail + 1;
    proof {
        let g = *gen_state;
        pc1.lemma_entries();
        crate::data_usage::lemma_release_keeps_exclusive(g0.usage(), g0.req_of(c));
        assert(g.completed() == c1);
        assert(g.created() == d1);
        assert(c0.subset_of(c1));
        assert(d0.subset_of(d1));
        assert(g.sched_state.p_stages.prereqs_of_passes.counts.entries() =~= names.map_values(
            |p: Seq<char>| (p, g.prereqs_of(p)),
        ));
        assert(g.sched_state.p_stages.passes_waiting_on_data_to_be_created.counts.entries() =~= names.map_values(
            |p: Seq<char>| (p, g.needs_of(p)),
        ));
        assert forall|p: Seq<char>| names.contains(p) implies (g.unblocked(p) == (all_in(g0.prereqs_of(p), c1) && all_in(g0.needs_of(p), d1))) by {}
        assert forall|p: Seq<char>| #[trigger] g.waiting().contains(p) <==> (g0.waiting().contains(p)
            || (names.contains(p) && !g0.unblocked(p) && g.unblocked(p))) by {
            if names.contains(p) {
                if g0.unblocked(p) {
                    lemma_all_in_mono(g0.prereqs_of(p), c0, c1);
                    lemma_all_in_mono(g0.needs_of(p), d0, d1);
                }
                if all_in(g0.prereqs_of(p), c0) {
                    lemma_all_in_mono(g0.prereqs_of(p), c0, c1);
                }
                if all_in(g0.needs_of(p), d0) {
                    lemma_all_in_mono(g0.needs_of(p), d0, d1);
                }
                if g0.waiting().contains(p) {
                    assert(g0.in_some_stage(p));
                }
            }
            if w1.contains(p) && !w0.contains(p) {
                assert(rp.contains(p));
            }
            if blocked_in(dc0, p) {
                assert(names.contains(p));
            }
        }
        assert forall|p: Seq<char>| names.contains(p) implies (#[trigger] g.in_some_stage(p) <==> g.unblocked(p)) by {
            assert(g.running().contains(p) == (g0.running().contains(p) && p != c));
            assert(g.waiting().contains(p) == (g0.waiting().contains(p) || (names.contains(p)
                && !g0.unblocked(p) && g.unblocked(p))));
            assert(g0.running().contains(c));
            assert(g0.in_some_stage(p) == g0.unblocked(p));
            if g0.unblocked(p) {
                lemma_all_in_mono(g0.prereqs_of(p), c0, c1);
                lemma_all_in_mono(g0.needs_of(p), d0, d1);
                assert(g0.in_some_stage(p));
            }
            if all_in(g0.prereqs_of(p), c0) {
                lemma_all_in_mono(g0.prereqs_of(p), c0, c1);
            }
            if all_in(g0.needs_of(p), d0) {
                lemma_all_in_mono(g0.needs_of(p), d0, d1);
            }
        }
        assert forall|p: Seq<char>| #[trigger] g.in_some_stage(p) implies names.contains(p) by {
            if g.waiting().contains(p) && !g0.waiting().contains(p) {
            } else if p == c {
            } else {
                assert(g0.in_some_stage(p));
            }
        }
        assert forall|p: Seq<char>|
            #[trigger] g.completed().contains(p) implies !g.waiting().contains(p) && !g.ready().contains(p)
                && !g.running().contains(p) by {
            if p == c {
                if g.waiting().contains(p) {
                    assert(g0.in_some_stage(c));
                }
                assert(g0.running().contains(c));
            } else {
                assert(g0.completed().contains(p));
                if g.waiting().contains(p) && !g0.waiting().contains(p) {
                    assert(g0.in_some_stage(p));
                }
            }
        }
        assert forall|x: Seq<char>| !(#[trigger] g.waiting().contains(x) && g.ready().contains(x)) by {
            if g.waiting().contains(x) && g.ready().contains(x) && !g0.waiting().contains(x) {
                assert(g0.in_some_stage(x));
            }
        }
        assert forall|x: Seq<char>| !(#[trigger] g.waiting().contains(x) && g.running().contains(x)) by {
            if g.waiting().contains(x) && g.running().contains(x) && !g0.waiting().contains(x) {
                assert(g0.in_some_stage(x));
            }
        }
        assert forall|x: Seq<char>| !(#[trigger] g.ready().contains(x) && g.running().contains(x)) by {
            if g.ready().contains(x) && g.running().contains(x) {
                assert(g0.running().contains(x));
            }
        }
        assert forall|d: Seq<char>| #[trigger] g.created().contains(d) <==> exists|cc: Seq<char>|
            g.completed().contains(cc) && #[trigger] g.creates_of(cc).contains(d) by {
            if d0.contains(d) {
                assert(g0.created().contains(d));
                let cc = choose|cc: Seq<char>| g0.completed().contains(cc) && #[trigger] g0.creates_of(cc).contains(d);
                assert(g.completed().contains(cc) && g.creates_of(cc).contains(d));
            }
            if g.created().contains(d) && !d0.contains(d) {
                assert(g0.creates_of(c).to_set().contains(d));
                assert(g.completed().contains(c) && g.creates_of(c).contains(d));
            }
            if exists|cc: Seq<char>| g.completed().contains(cc) && #[trigger] g.creates_of(cc).contains(d) {
                let cc = choose|cc: Seq<char>| g.completed().contains(cc) && #[trigger] g.creates_of(cc).contains(d);
                if cc != c {
                    assert(g0.completed().contains(cc) && g0.creates_of(cc).contains(d));
                    assert(d0.contains(d));
                }
            }
        }
        assert forall|p: Seq<char>| names.contains(p) implies req_in_domain(g.usage(), #[trigger] g.req_of(p)) by {
            assert(req_in_domain(g0.usage(), g0.req_of(p)));
        }
        assert forall|p: Seq<char>| names.contains(p) implies self_consistent(#[trigger] g.req_of(p)) by {
            assert(self_consistent(g0.req_of(p)));
        }
    }
}


proof fn lemma_swap_remove(s: Seq<Seq<char>>, i: int)
    requires
        s.no_duplicates(),
        0 <= i < s.len(),
    ensures
        s.update(i, s.last()).drop_last().no_duplicates(),
        s.update(i, s.last()).drop_last().len() == s.len() - 1,
        forall|x: Seq<char>|
            #[trigger] s.update(i, s.last()).drop_last().contains(x) <==> (s.contains(x) && x != s[i]),
{
    let t = s.update(i, s.last()).drop_last();
    let n = s.len() - 1;
    assert forall|j: int| 0 <= j < t.len() implies #[trigger] t[j] == if j == i { s[n] } else { s[j] } by {}
    assert forall|x: Seq<char>| #[trigger] t.contains(x) <==> (s.contains(x) && x != s[i]) by {
        if t.contains(x) {
            let j = choose|j: int| 0 <= j < t.len() && t[j] == x;
            if j == i {
                assert(s[n] == x);
                assert(n != i);
            } else {
                assert(s[j] == x);
            }
        }
        if s.contains(x) && x != s[i] {
            let j = choose|j: int| 0 <= j < s.len() && s[j] == x;
            if j == n {
                assert(t[i] == x);
            } else {
                assert(t[j] == x);
            }
        }
    }
    assert forall|a: int, b: int| 0 <= a < t.len() && 0 <= b < t.len() && a != b implies t[a] != t[b] by {
        let a1 = if a == i { n } else { a };
        let b1 = if b == i { n } else { b };
        assert(t[a] == s[a1] && t[b] == s[b1]);
    }
}

impl PassStages {
    /// Moves the pass at `res_waiting_idx` of the passes waiting for resources
    /// to the end of the ready passes; the last waiting pass takes its place.
    fn move_pass_from_res_waiting_to_sched_ready(&mut self, res_waiting_idx: usize)
        requires
            res_waiting_idx < old(self).passes_waiting_for_resources@.len(),
        ensures
            final(self).passes_waiting_for_resources@ == old(self).passes_waiting_for_resources@.update(
                res_waiting_idx as int,
                old(self).passes_waiting_for_resources@.last(),
            ).drop_last(),
            final(self).passes_ready_for_scheduling@ == old(self).passes_ready_for_scheduling@.push(
                old(self).passes_waiting_for_resources@[res_waiting_idx as int],
            ),
            final(self).prereqs_of_passes == old(self).prereqs_of_passes,
            final(self).passes_waiting_on_data_to_be_created == old(self).passes_waiting_on_data_to_be_created,
    {
        let ready_pass_id = self.passes_waiting_for_resources.swap_remove(res_waiting_idx);
        self.passes_ready_for_scheduling.push_back(ready_pass_id);
    }
}

/// Whether `p`, waiting for resources, can take them now: they are
/// available and taking them keeps every reader count within `usize`.
pub open spec fn can_take(
    state: Map<Seq<char>, crate::data_usage::DataUseState>,
    req: Seq<(Seq<char>, DataReqType)>,
) -> bool {
    req_available(state, req) && req_fits(state, req)
}

impl<P, F, D> GenerationState<P, F, D> {
    /// `state` after each pass of `passes`, in order, has taken what it requests.
    pub open spec fn acquire_all(
        &self,
        state: Map<Seq<char>, crate::data_usage::DataUseState>,
        passes: Seq<Seq<char>>,
    ) -> Map<Seq<char>, crate::data_usage::DataUseState>
        decreases passes.len(),
    {
        if passes.len() == 0 {
            state
        } else {
            acquired(self.acquire_all(state, passes.drop_last()), self.req_of(passes.last()))
        }
    }

    /// `after` is `self` with the run's tables and the blocked, running and
    /// completed passes unchanged.
    pub open spec fn same_run(&self, after: Self) -> bool {
        &&& after.names() == self.names()
        &&& after.reads() == self.reads()
        &&& after.writes() == self.writes()
        &&& after.creates() == self.creates()
        &&& after.prereq_map() == self.prereq_map()
        &&& after.completed() == self.completed()
        &&& after.created() == self.created()
        &&& after.max_threads() == self.max_threads()
        &&& after.passes_remaining() == self.passes_remaining()
    }

    /// `after` is `self` once the passes that could take their resources have
    /// moved, in the order `moved`, from waiting for resources to ready, each
    /// taking its resources; every pass still waiting cannot take them.
    pub open spec fn upgraded(&self, after: Self) -> bool {
        let moved = after.ready().skip(self.ready().len() as int);
        &&& self.same_run(after)
        &&& after.wf()
        &&& after.running() == self.running()
        &&& after.threads_avail() == self.threads_avail()
        &&& after.ready().len() >= self.ready().len()
        &&& after.ready().take(self.ready().len() as int) == self.ready()
        &&& forall|x: Seq<char>| #[trigger] moved.contains(x) ==> self.waiting().contains(x)
        &&& forall|x: Seq<char>|
            #[trigger] after.waiting().contains(x) <==> (self.waiting().contains(x) && !moved.contains(x))
        &&& after.usage() == self.acquire_all(self.usage(), moved)
        &&& forall|j: int|
            0 <= j < moved.len() ==> can_take(
                self.acquire_all(self.usage(), moved.take(j)),
                self.req_of(#[trigger] moved[j]),
            )
        &&& forall|x: Seq<char>|
            #[trigger] after.waiting().contains(x) ==> !can_take(after.usage(), self.req_of(x))
    }
}

/// Moves the pass at `i` of the passes waiting for resources to the ready
/// passes, taking what it requests.
fn take_resources_and_move<P, F, D>(gen_state: &mut GenerationState<P, F, D>, i: usize)
    requires
        old(gen_state).wf(),
        i < old(gen_state).waiting().len(),
        can_take(old(gen_state).usage(), old(gen_state).req_of(old(gen_state).waiting()[i as int])),
    ensures
        final(gen_state).wf(),
        old(gen_state).same_run(*final(gen_state)),
        final(gen_state).running() == old(gen_state).running(),
        final(gen_state).threads_avail() == old(gen_state).threads_avail(),
        final(gen_state).waiting() == old(gen_state).waiting().update(
            i as int,
            old(gen_state).waiting().last(),
        ).drop_last(),
        final(gen_state).ready() == old(gen_state).ready().push(old(gen_state).waiting()[i as int]),
        final(gen_state).usage() == acquired(
            old(gen_state).usage(),
            old(gen_state).req_of(old(gen_state).waiting()[i as int]),
        ),
{
    let ghost g0 = *gen_state;
    let ghost x = g0.waiting()[i as int];
    let pid = gen_state.sched_state.p_stages.passes_waiting_for_resources[i].clone();
    proof {
        assert(g0.waiting().contains(x));
        assert(g0.in_some_stage(x));
        assert(g0.names().contains(x));
    }
    match gen_state.sched_state.p_res_state.pass_req_res.get(&pid) {
        Some(p_req_res) => {
            gen_state.sched_state.p_res_state.data_usage_state.acquire_req_res_for_pass(p_req_res);
        },
        None => {},
    }
    gen_state.sched_state.p_stages.move_pass_from_res_waiting_to_sched_ready(i);
    proof {
        let g = *gen_state;
        let w0 = g0.waiting();
        lemma_swap_remove(w0, i as int);
        assert(g.waiting() =~= w0.update(i as int, w0.last()).drop_last());
        assert(g.ready() =~= g0.ready().push(x));
        crate::data_usage::lemma_acquire_keeps_exclusive(g0.usage(), g0.req_of(x));
        assert forall|d: Seq<char>| #[trigger] reads_by(g0.reads(), g0.writes(), g.holders(), d) == reads_by(
            g0.reads(),
            g0.writes(),
            g0.holders(),
            d,
        ) + count_reads(g0.req_of(x), d) by {
            lemma_reads_by_concat(g0.reads(), g0.writes(), g0.ready().push(x), g0.running(), d);
            lemma_reads_by_concat(g0.reads(), g0.writes(), g0.ready(), g0.running(), d);
            lemma_reads_by_push(g0.reads(), g0.writes(), g0.ready(), x, d);
        }
        lemma_concat_contains(g0.ready(), g0.running());
        lemma_concat_contains(g.ready(), g.running());
        assert(g.ready()[g0.ready().len() as int] == x);
        assert forall|p: Seq<char>| #[trigger] g0.holders().contains(p) implies g.holders().contains(p) by {
            if g0.ready().contains(p) {
                let q = choose|q: int| 0 <= q < g0.ready().len() && g0.ready()[q] == p;
                assert(g.ready()[q] == p);
            }
        }
        lemma_held_after_acquire(g0.reads(), g0.writes(), g0.usage(), g0.holders(), x, g.holders());
        assert(!g0.ready().contains(x));
        assert(!g0.running().contains(x));
        assert(!g0.completed().contains(x));
        assert forall|a: int, b: int| 0 <= a < g.ready().len() && 0 <= b < g.ready().len() && a != b implies g.ready()[a] != g.ready()[b] by {
            if a == g0.ready().len() {
                assert(g0.ready().contains(g0.ready()[b]));
            } else if b == g0.ready().len() {
                assert(g0.ready().contains(g0.ready()[a]));
            }
        }
        assert forall|y: Seq<char>| #[trigger] g.ready().contains(y) <==> (g0.ready().contains(y) || y == x) by {
            if g.ready().contains(y) && y != x {
                let q = choose|q: int| 0 <= q < g.ready().len() && g.ready()[q] == y;
                assert(g0.ready()[q] == y);
            }
            if g0.ready().contains(y) {
                let q = choose|q: int| 0 <= q < g0.ready().len() && g0.ready()[q] == y;
                assert(g.ready()[q] == y);
            }
            if y == x {
                assert(g.ready()[g0.ready().len() as int] == y);
            }
        }
        assert forall|y: Seq<char>| #[trigger] g.in_some_stage(y) == g0.in_some_stage(y) by {}
        assert(g.sched_state.p_stages.prereqs_of_passes.counts.entries() =~= g.names().map_values(
            |p: Seq<char>| (p, g.prereqs_of(p)),
        ));
        assert(g.sched_state.p_stages.passes_waiting_on_data_to_be_created.counts.entries() =~= g.names().map_values(
            |p: Seq<char>| (p, g.needs_of(p)),
        ));
        assert forall|p: Seq<char>| g.names().contains(p) implies req_in_domain(g.usage(), #[trigger] g.req_of(p)) by {
            assert(req_in_domain(g0.usage(), g0.req_of(p)));
        }
        assert forall|p: Seq<char>| g.names().contains(p) implies self_consistent(#[trigger] g.req_of(p)) by {
            assert(self_consistent(g0.req_of(p)));
        }
        assert forall|y: Seq<char>| !(#[trigger] g.waiting().contains(y) && g.ready().contains(y)) by {}
        assert forall|y: Seq<char>| !(#[trigger] g.waiting().contains(y) && g.running().contains(y)) by {}
        assert forall|y: Seq<char>| !(#[trigger] g.ready().contains(y) && g.running().contains(y)) by {}
        assert forall|d: Seq<char>| #[trigger] g.created().contains(d) <==> exists|c: Seq<char>|
            g.completed().contains(c) && #[trigger] g.creates_of(c).contains(d) by {
            assert(g.created() == g0.created());
            assert(g.completed() == g0.completed());
            assert(g.creates() == g0.creates());
            assert(g0.created().contains(d) <==> exists|c: Seq<char>|
                g0.completed().contains(c) && #[trigger] g0.creates_of(c).contains(d));
            if g.created().contains(d) {
                let c = choose|c: Seq<char>| g0.completed().contains(c) && #[trigger] g0.creates_of(c).contains(d);
                assert(g.creates_of(c).contains(d));
            }
            if exists|c: Seq<char>| g.completed().contains(c) && #[trigger] g.creates_of(c).contains(d) {
                let c = choose|c: Seq<char>| g.completed().contains(c) && #[trigger] g.creates_of(c).contains(d);
                assert(g0.creates_of(c).contains(d));
            }
        }
    }
}

/// Moves to the ready passes, one after another, every pass waiting for
/// resources that can take them, until none of those left can.
pub fn upgrade_any_passes_from_waiting_for_res_to_ready_for_sched<P, F, D>(
    gen_state: &mut GenerationState<P, F, D>,
)
    requires
        old(gen_state).wf(),
    ensures
        old(gen_state).upgraded(*final(gen_state)),
{
    let ghost g0 = *gen_state;
    let ghost mut moved: Seq<Seq<char>> = Seq::empty();
    let mut passes_moved_to_runnable_on_last_iter = true;
    proof {
        assert(g0.ready().take(g0.ready().len() as int) =~= g0.ready());
        assert(g0.ready().skip(g0.ready().len() as int) =~= moved);
    }
    while passes_moved_to_runnable_on_last_iter
        invariant
            gen_state.wf(),
            g0.wf(),
            g0.same_run(*gen_state),
            gen_state.running() == g0.running(),
            gen_state.threads_avail() == g0.threads_avail(),
            gen_state.ready() == g0.ready() + moved,
            forall|x: Seq<char>| #[trigger] moved.contains(x) ==> g0.waiting().contains(x),
            forall|x: Seq<char>|
                #[trigger] gen_state.waiting().contains(x) <==> (g0.waiting().contains(x) && !moved.contains(x)),
            gen_state.usage() == g0.acquire_all(g0.usage(), moved),
            forall|j: int|
                0 <= j < moved.len() ==> can_take(
                    g0.acquire_all(g0.usage(), moved.take(j)),
                    g0.req_of(#[trigger] moved[j]),
                ),
            !passes_moved_to_runnable_on_last_iter ==> forall|x: Seq<char>|
                #[trigger] gen_state.waiting().contains(x) ==> !can_take(gen_state.usage(), g0.req_of(x)),
        decreases gen_state.waiting().len() + if passes_moved_to_runnable_on_last_iter {
            1int
        } else {
            0int
        },
    {
        passes_moved_to_runnable_on_last_iter = false;
        let len0 = gen_state.sched_state.p_stages.passes_waiting_for_resources.len();
        let mut i = len0;
        while i > 0
            invariant
                gen_state.wf(),
                g0.wf(),
                g0.same_run(*gen_state),
                gen_state.running() == g0.running(),
                gen_state.threads_avail() == g0.threads_avail(),
                gen_state.ready() == g0.ready() + moved,
                forall|x: Seq<char>| #[trigger] moved.contains(x) ==> g0.waiting().contains(x),
                forall|x: Seq<char>|
                    #[trigger] gen_state.waiting().contains(x) <==> (g0.waiting().contains(x) && !moved.contains(x)),
                gen_state.usage() == g0.acquire_all(g0.usage(), moved),
                forall|j: int|
                    0 <= j < moved.len() ==> can_take(
                        g0.acquire_all(g0.usage(), moved.take(j)),
                        g0.req_of(#[trigger] moved[j]),
                    ),
                i <= gen_state.waiting().len(),
                forall|j: int|
                    i <= j < gen_state.waiting().len() ==> !can_take(
                        gen_state.usage(),
                        g0.req_of(#[trigger] gen_state.waiting()[j]),
                    ),
                passes_moved_to_runnable_on_last_iter ==> gen_state.waiting().len() < len0,
                !passes_moved_to_runnable_on_last_iter ==> gen_state.waiting().len() == len0,
            decreases i,
        {
            i = i - 1;
            let ghost gi = *gen_state;
            let ghost x = gi.waiting()[i as int];
            let pid = gen_state.sched_state.p_stages.passes_waiting_for_resources[i].clone();
            proof {
                assert(gi.waiting().contains(x));
                assert(gi.in_some_stage(x));
                assert(gi.names().contains(x));
                assert(gi.req_of(x) == g0.req_of(x));
            }
            let avail = match gen_state.sched_state.p_res_state.pass_req_res.get(&pid) {
                Some(p_req_res) => {
                    gen_state.sched_state.p_res_state.data_usage_state.pass_req_res_are_avail(p_req_res)
                        && gen_state.sched_state.p_res_state.data_usage_state.reader_counts_fit(p_req_res)
                },
                None => false,
            };
            if avail {
                take_resources_and_move(gen_state, i);
                passes_moved_to_runnable_on_last_iter = true;
                proof {
                    let g = *gen_state;
                    let old_moved = moved;
                    moved = moved.push(x);
                    assert(moved.drop_last() =~= old_moved);
                    assert(g.ready() =~= g0.ready() + moved);
                    assert forall|j: int| 0 <= j < old_moved.len() implies moved.take(j) =~= old_moved.take(j) by {}
                    assert(moved.take(old_moved.len() as int) =~= old_moved);
                    assert(!old_moved.contains(x));
                    assert forall|y: Seq<char>| #[trigger] moved.contains(y) <==> (old_moved.contains(y) || y == x) by {
                        if moved.contains(y) && y != x {
                            let q = choose|q: int| 0 <= q < moved.len() && moved[q] == y;
                            assert(old_moved[q] == y);
                        }
                        if old_moved.contains(y) {
                            let q = choose|q: int| 0 <= q < old_moved.len() && old_moved[q] == y;
                            assert(moved[q] == y);
                        }
                        if y == x {
                            assert(moved[old_moved.len() as int] == y);
                        }
                    }
                    lemma_swap_remove(gi.waiting(), i as int);
                    assert forall|j: int| i <= j < g.waiting().len() implies !can_take(
                        g.usage(),
                        g0.req_of(#[trigger] g.waiting()[j]),
                    ) by {
                        let k = if j == i { gi.waiting().len() - 1 } else { j };
                        assert(g.waiting()[j] == gi.waiting()[k]);
                        assert(!can_take(gi.usage(), g0.req_of(gi.waiting()[k])));
                        let y = gi.waiting()[k];
                        assert(gi.waiting().contains(y));
                        assert(gi.in_some_stage(y));
                        assert(req_in_domain(gi.usage(), gi.req_of(y)));
                        crate::data_usage::lemma_acquire_keeps_unavailable(gi.usage(), gi.req_of(x), gi.req_of(y));
                    }
                }
            }
        }
    }
    proof {
        let g = *gen_state;
        assert(g.ready().take(g0.ready().len() as int) =~= g0.ready());
        assert(g.ready().skip(g0.ready().len() as int) =~= moved);
    }
}


impl<P, F, D> GenerationState<P, F, D> {
    /// `after` is `self` once `r` were taken, in order, from the end of the
    /// ready passes to run, one per available thread.
    pub open spec fn scheduled(&self, after: Self, r: Seq<Seq<char>>) -> bool {
        let k = if self.threads_avail() < self.ready().len() {
            self.threads_avail() as int
        } else {
            self.ready().len() as int
        };
        &&& self.same_run(after)
        &&& after.wf()
        &&& after.waiting() == self.waiting()
        &&& after.usage() == self.usage()
        &&& r.len() == k
        &&& forall|j: int| 0 <= j < k ==> #[trigger] r[j] == self.ready()[self.ready().len() - 1 - j]
        &&& after.ready() == self.ready().take(self.ready().len() - k)
        &&& after.running() == self.running() + r
        &&& after.threads_avail() == self.threads_avail() - k
    }
}

/// Takes ready passes from the end of the ready passes, one per available
/// thread, and marks them running. Returns them in the order taken.
pub fn schedule_ready_passes_on_avail_threads<P, F, D>(gen_state: &mut GenerationState<P, F, D>) -> (r:
    Vec<String>)
    requires
        old(gen_state).wf(),
    ensures
        old(gen_state).scheduled(*final(gen_state), names_of(r@)),
{
    let ghost g0 = *gen_state;
    let num_passes_to_schedule = if gen_state.num_threads_avail
        < gen_state.sched_state.p_stages.passes_ready_for_scheduling.len() {
        gen_state.num_threads_avail
    } else {
        gen_state.sched_state.p_stages.passes_ready_for_scheduling.len()
    };
    let mut scheduled: Vec<String> = Vec::new();
    let mut j: usize = 0;
    while j < num_passes_to_schedule
        invariant
            g0.wf(),
            j <= num_passes_to_schedule,
            num_passes_to_schedule <= g0.threads_avail(),
            num_passes_to_schedule <= g0.ready().len(),
            gen_state.wf(),
            g0.same_run(*gen_state),
            gen_state.waiting() == g0.waiting(),
            gen_state.usage() == g0.usage(),
            names_of(scheduled@).len() == j,
            forall|q: int| 0 <= q < j ==> #[trigger] names_of(scheduled@)[q] == g0.ready()[g0.ready().len() - 1 - q],
            gen_state.ready() == g0.ready().take(g0.ready().len() - j),
            gen_state.running() == g0.running() + names_of(scheduled@),
            gen_state.threads_avail() == g0.threads_avail() - j,
        decreases num_passes_to_schedule - j,
    {
        let ghost gj = *gen_state;
        let pid_to_sched = match gen_state.sched_state.p_stages.passes_ready_for_scheduling.pop_back() {
            Some(p) => p,
            None => {
                proof {
                    assert(false);
                }
                String::new()
            },
        };
        let ghost x = pid_to_sched@;
        let ghost sched0 = names_of(scheduled@);
        gen_state.sched_state.passes_running.push(pid_to_sched.clone());
        scheduled.push(pid_to_sched);
        gen_state.num_threads_avail = gen_state.num_threads_avail - 1;
        proof {
            let g = *gen_state;
            assert(x == gj.ready().last());
            assert(gj.ready().last() == g0.ready()[g0.ready().len() - 1 - j]);
            assert(names_of(scheduled@) =~= sched0.push(x));
            assert forall|q: int| 0 <= q < j + 1 implies #[trigger] names_of(scheduled@)[q] == g0.ready()[g0.ready().len() - 1 - q] by {
                if q < j {
                    assert(names_of(scheduled@)[q] == sched0[q]);
                }
            }
            assert(gj.ready().contains(x));
            assert(g.ready() =~= gj.ready().drop_last());
            assert(g.ready() =~= g0.ready().take(g0.ready().len() - (j + 1)));
            assert(g.running() =~= gj.running().push(x));
            assert(names_of(scheduled@) =~= names_of(scheduled@).drop_last().push(x));
            assert(g.running() =~= g0.running() + names_of(scheduled@));
            assert(!gj.running().contains(x));
            assert(!gj.waiting().contains(x));
            assert(!gj.completed().contains(x));
            assert forall|y: Seq<char>| #[trigger] g.ready().contains(y) implies gj.ready().contains(y) && y != x by {
                if g.ready().contains(y) {
                    let q = choose|q: int| 0 <= q < g.ready().len() && g.ready()[q] == y;
                    assert(gj.ready()[q] == y);
                    if y == x {
                        assert(gj.ready()[gj.ready().len() - 1] == x);
                    }
                }
            }
            assert forall|y: Seq<char>| #[trigger] g.running().contains(y) <==> (gj.running().contains(y) || y == x) by {
                if g.running().contains(y) && y != x {
                    let q = choose|q: int| 0 <= q < g.running().len() && g.running()[q] == y;
                    assert(gj.running()[q] == y);
                }
                if gj.running().contains(y) {
                    let q = choose|q: int| 0 <= q < gj.running().len() && gj.running()[q] == y;
                    assert(g.running()[q] == y);
                }
                if y == x {
                    assert(g.running()[gj.running().len() as int] == y);
                }
            }
            assert forall|y: Seq<char>| #[trigger] gj.ready().contains(y) implies (g.ready().contains(y) || y == x) by {
                if gj.ready().contains(y) {
                    let q = choose|q: int| 0 <= q < gj.ready().len() && gj.ready()[q] == y;
                    if q < gj.ready().len() - 1 {
                        assert(g.ready()[q] == y);
                    }
                }
            }
            assert forall|d: Seq<char>| #[trigger] reads_by(gj.reads(), gj.writes(), g.holders(), d) == reads_by(
                gj.reads(),
                gj.writes(),
                gj.holders(),
                d,
            ) by {
                let r1 = g.ready();
                lemma_reads_by_concat(gj.reads(), gj.writes(), r1, gj.running().push(x), d);
                lemma_reads_by_push(gj.reads(), gj.writes(), gj.running(), x, d);
                assert(gj.ready() =~= r1.push(x));
                lemma_reads_by_concat(gj.reads(), gj.writes(), r1.push(x), gj.running(), d);
                lemma_reads_by_push(gj.reads(), gj.writes(), r1, x, d);
            }
            lemma_concat_contains(gj.ready(), gj.running());
            lemma_concat_contains(g.ready(), g.running());
            assert forall|p: Seq<char>| #[trigger] gj.holders().contains(p) implies g.holders().contains(p) by {
                if gj.ready().contains(p) {
                    assert(g.ready().contains(p) || p == x);
                }
                if p == x || gj.running().contains(p) {
                    assert(g.running().contains(p));
                }
            }
            lemma_held_after_reorder(gj.reads(), gj.writes(), gj.usage(), gj.holders(), g.holders());
            assert forall|a: int, b: int| 0 <= a < g.running().len() && 0 <= b < g.running().len() && a != b implies g.running()[a] != g.running()[b] by {
                if a == gj.running().len() {
                    assert(gj.running().contains(gj.running()[b]));
                } else if b == gj.running().len() {
                    assert(gj.running().contains(gj.running()[a]));
                }
            }
            assert forall|a: int, b: int| 0 <= a < g.ready().len() && 0 <= b < g.ready().len() && a != b implies g.ready()[a] != g.ready()[b] by {
                assert(g.ready()[a] == gj.ready()[a] && g.ready()[b] == gj.ready()[b]);
            }
            assert forall|y: Seq<char>| #[trigger] g.in_some_stage(y) == gj.in_some_stage(y) by {}
            assert(g.sched_state.p_stages.prereqs_of_passes.counts.entries() =~= g.names().map_values(
                |p: Seq<char>| (p, g.prereqs_of(p)),
            ));
            assert(g.sched_state.p_stages.passes_waiting_on_data_to_be_created.counts.entries() =~= g.names().map_values(
                |p: Seq<char>| (p, g.needs_of(p)),
            ));
            assert forall|p: Seq<char>| g.names().contains(p) implies req_in_domain(g.usage(), #[trigger] g.req_of(p)) by {
                assert(req_in_domain(gj.usage(), gj.req_of(p)));
            }
            assert forall|p: Seq<char>| g.names().contains(p) implies self_consistent(#[trigger] g.req_of(p)) by {
                assert(self_consistent(gj.req_of(p)));
            }
            assert forall|y: Seq<char>| !(#[trigger] g.waiting().contains(y) && g.ready().contains(y)) by {}
            assert forall|y: Seq<char>| !(#[trigger] g.waiting().contains(y) && g.running().contains(y)) by {}
            assert forall|y: Seq<char>| !(#[trigger] g.ready().contains(y) && g.running().contains(y)) by {}
            assert forall|d: Seq<char>| #[trigger] g.created().contains(d) <==> exists|c: Seq<char>|
                g.completed().contains(c) && #[trigger] g.creates_of(c).contains(d) by {
                assert(g0.created().contains(d) <==> exists|c: Seq<char>|
                    g0.completed().contains(c) && #[trigger] g0.creates_of(c).contains(d));
                if g.created().contains(d) {
                    let c = choose|c: Seq<char>| g0.completed().contains(c) && #[trigger] g0.creates_of(c).contains(d);
                    assert(g.creates_of(c).contains(d));
                }
                if exists|c: Seq<char>| g.completed().contains(c) && #[trigger] g.creates_of(c).contains(d) {
                    let c = choose|c: Seq<char>| g.completed().contains(c) && #[trigger] g.creates_of(c).contains(d);
                    assert(g0.creates_of(c).contains(d));
                }
            }
        }
        j = j + 1;
    }
    scheduled
}


/// What `next_action` does once the waiting passes that could take their
/// resources have become ready (`mid`).
pub open spec fn action_after_upgrade<P, F, D>(
    mid: GenerationState<P, F, D>,
    after: GenerationState<P, F, D>,
    a: SchedAction,
) -> bool {
    if mid.threads_avail() > 0 && mid.ready().len() > 0 {
        match a {
            SchedAction::Dispatch(v) => mid.scheduled(after, names_of(v@)),
            _ => false,
        }
    } else if mid.running().len() > 0 {
        a is WaitForCompletion && after == mid
    } else {
        a is Stalled && after == mid
    }
}

/// The reply to a completion reported for a pass that is not running.
pub open spec fn not_running_message(pid: Seq<char>) -> Seq<char> {
    "A pass that is not running reported its completion: "@ + pid
}

impl<P, F, D> GenerationState<P, F, D> {
    /// The run function of each pass.
    pub closed spec fn run_funcs(&self) -> Map<Seq<char>, F> {
        self.pass_data.pass_core_data.run_funcs@
    }

    /// The run's tables.
    pub closed spec fn pass_data_view(&self) -> PassData<P, F, D> {
        self.pass_data
    }

    /// How many passes have not completed.
    pub fn num_passes_rem(&self) -> (n: usize)
        ensures
            n == self.passes_remaining(),
    {
        self.sched_state.num_passes_rem
    }

    /// How many threads the run may use.
    pub fn num_threads(&self) -> (n: usize)
        ensures
            n == self.max_threads(),
    {
        self.non_pass_data.max_threads
    }

    /// How many passes run now.
    pub fn num_running(&self) -> (n: usize)
        requires
            self.wf(),
        ensures
            n == self.running().len(),
    {
        self.sched_state.passes_running.len()
    }

    /// Whether `pid` runs now.
    pub fn is_running(&self, pid: &String) -> (b: bool)
        ensures
            b == self.running().contains(pid@),
    {
        match find_name(&self.sched_state.passes_running, pid) {
            Some(i) => {
                assert(self.running()[i as int] == pid@);
                true
            },
            None => false,
        }
    }

    /// The run function of pass `pid`, if there is such a pass.
    pub fn run_func(&self, pid: &String) -> (r: Option<&F>)
        requires
            self.wf(),
        ensures
            match r {
                Some(f) => self.run_funcs().dom().contains(pid@) && *f == self.run_funcs()[pid@],
                None => !self.run_funcs().dom().contains(pid@),
            },
    {
        self.pass_data.pass_core_data.run_funcs.get(pid)
    }

    /// The run's tables.
    pub fn pass_data(&self) -> (r: &PassData<P, F, D>)
        ensures
            *r == self.pass_data_view(),
    {
        &self.pass_data
    }

    /// In every state of a run, a pass that waits for resources, is ready,
    /// runs or has completed has had all its prerequisite passes complete and
    /// all the data it requests created.
    pub proof fn lemma_passes_start_after_their_dependencies(&self, p: Seq<char>)
        requires
            self.wf(),
            self.in_some_stage(p),
        ensures
            all_in(self.prereqs_of(p), self.completed()),
            all_in(self.needs_of(p), self.created()),
    {
    }

    /// In every state of a run, a completed pass neither waits for resources,
    /// nor is ready, nor runs: each pass runs at most once.
    pub proof fn lemma_completed_passes_do_not_run_again(&self, p: Seq<char>)
        requires
            self.wf(),
            self.completed().contains(p),
        ensures
            !self.waiting().contains(p),
            !self.ready().contains(p),
            !self.running().contains(p),
    {
    }

    /// In every state of a run, the usage table never shows a datum as both
    /// read and written.
    ///
    /// The table is what the scheduler goes by; it is not exclusion among
    /// the running passes. A writer waits only for readers, so two passes
    /// that write one datum may hold it at once; when the first completes,
    /// the table shows the datum unwritten and a reader may start while the
    /// second still writes.
    pub proof fn lemma_no_datum_read_and_written_at_once(&self)
        requires
            self.wf(),
        ensures
            exclusive(self.usage()),
    {
    }

    /// In every state of a run, the created data is exactly what the
    /// completed passes create, the passes not completed are counted by
    /// `passes_remaining`, and each running pass holds a thread.
    pub proof fn lemma_run_accounting(&self)
        requires
            self.wf(),
        ensures
            forall|d: Seq<char>|
                #[trigger] self.created().contains(d) <==> exists|c: Seq<char>|
                    self.completed().contains(c) && #[trigger] self.creates_of(c).contains(d),
            self.completed().subset_of(self.names().to_set()),
            self.passes_remaining() + self.completed().len() == self.names().len(),
            self.threads_avail() + self.running().len() == self.max_threads(),
    {
        self.sched_state.p_stages.prereqs_of_passes.counts.lemma_entries();
        assert forall|x: Seq<char>| self.completed().contains(x) implies self.names().to_set().contains(x) by {
            assert(self.in_some_stage(x));
        }
    }

    /// A run answers that it is stalled only when nothing runs and, unless it
    /// has no thread at all, no pass that has not completed can start: each
    /// waits on a prerequisite pass that has not completed or on data that
    /// has not been created, and with nothing running neither can change.
    pub proof fn lemma_stall_means_every_remaining_pass_is_blocked(before: Self, after: Self)
        requires
            before.wf(),
            exists|mid: Self|
                #[trigger] before.upgraded(mid) && action_after_upgrade(mid, after, SchedAction::Stalled),
        ensures
            after.wf(),
            after.running().len() == 0,
            after.max_threads() > 0 ==> forall|p: Seq<char>|
                after.names().contains(p) && !after.completed().contains(p) ==> !#[trigger] after.unblocked(p),
    {
        let mid = choose|mid: Self| #[trigger] before.upgraded(mid) && action_after_upgrade(mid, after, SchedAction::Stalled);
        assert(after == mid);
        if after.max_threads() > 0 {
            assert(after.ready().len() == 0);
            assert(after.holders() =~= Seq::<Seq<char>>::empty());
            assert forall|x: Seq<char>| !#[trigger] after.waiting().contains(x) by {
                if after.waiting().contains(x) {
                    assert(after.in_some_stage(x));
                    let req = after.req_of(x);
                    assert(req == before.req_of(x));
                    let m = after.sched_state.p_res_state.pass_req_res;
                    assert(m@.dom().contains(x));
                    vstd::std_specs::vec::axiom_spec_len(&m@[x].did_and_req_types);
                    assert(req.len() <= usize::MAX);
                    assert(req_in_domain(after.usage(), req));
                    assert forall|i: int| 0 <= i < req.len() implies match (#[trigger] req[i]).1 {
                        DataReqType::READ => !after.usage()[req[i].0].write_active,
                        DataReqType::WRITE => after.usage()[req[i].0].num_readers == 0,
                    } by {
                        assert(after.usage().dom().contains(req[i].0));
                        if after.usage()[req[i].0].write_active {
                            let p = choose|p: Seq<char>|
                                after.holders().contains(p) && #[trigger] has_write(
                                    req_of(after.reads(), after.writes(), p),
                                    req[i].0,
                                );
                        }
                    }
                    assert forall|i: int| 0 <= i < req.len() && (#[trigger] req[i]).1 == DataReqType::READ implies after.usage()[req[i].0].num_readers
                        + count_reads(req, req[i].0) <= usize::MAX by {
                        assert(after.usage().dom().contains(req[i].0));
                        crate::data_usage::lemma_count_reads_le_len(req, req[i].0);
                    }
                    assert(can_take(after.usage(), before.req_of(x)));
                }
            }
            assert forall|p: Seq<char>|
                after.names().contains(p) && !after.completed().contains(p) implies !#[trigger] after.unblocked(p) by {
                assert(!after.in_some_stage(p));
            }
        }
    }

    /// `rank` orders the passes so that every pass comes after each of its
    /// prerequisite passes and after every pass that creates data it
    /// requests: the passes depend on one another without a cycle. Every
    /// prerequisite names a registered pass, and every datum a pass requests
    /// is created by some registered pass.
    pub open spec fn ranked_by(&self, rank: spec_fn(Seq<char>) -> nat) -> bool {
        &&& forall|p: Seq<char>, q: Seq<char>|
            self.names().contains(p) && #[trigger] self.prereqs_of(p).contains(q) ==> self.names().contains(q)
                && rank(q) < rank(p)
        &&& forall|p: Seq<char>, d: Seq<char>|
            self.names().contains(p) && #[trigger] self.needs_of(p).contains(d) ==> exists|c: Seq<char>|
                self.names().contains(c) && #[trigger] self.creates_of(c).contains(d)
        &&& forall|p: Seq<char>, c: Seq<char>, d: Seq<char>|
            self.names().contains(p) && self.names().contains(c) && #[trigger] self.needs_of(p).contains(d)
                && #[trigger] self.creates_of(c).contains(d) ==> rank(c) < rank(p)
    }

    proof fn lemma_lowest_remaining(&self, rank: spec_fn(Seq<char>) -> nat, p: Seq<char>) -> (q: Seq<char>)
        requires
            self.names().contains(p),
            !self.completed().contains(p),
        ensures
            self.names().contains(q),
            !self.completed().contains(q),
            forall|r: Seq<char>|
                self.names().contains(r) && !self.completed().contains(r) ==> rank(q) <= #[trigger] rank(r),
        decreases rank(p),
    {
        if exists|r: Seq<char>| self.names().contains(r) && !self.completed().contains(r) && rank(r) < rank(p) {
            let r = choose|r: Seq<char>| self.names().contains(r) && !self.completed().contains(r) && rank(r) < rank(p);
            self.lemma_lowest_remaining(rank, r)
        } else {
            p
        }
    }

    /// A run whose passes depend on one another without a cycle, whose
    /// prerequisites name registered passes and whose requested data are each
    /// created by some registered pass, never answers that it is stalled
    /// while passes remain and it has a thread.
    pub proof fn lemma_acyclic_run_never_stalls(before: Self, after: Self, rank: spec_fn(Seq<char>) -> nat)
        requires
            before.wf(),
            before.max_threads() > 0,
            before.passes_remaining() > 0,
            before.ranked_by(rank),
        ensures
            !exists|mid: Self|
                #[trigger] before.upgraded(mid) && action_after_upgrade(mid, after, SchedAction::Stalled),
    {
        if exists|mid: Self| #[trigger] before.upgraded(mid) && action_after_upgrade(mid, after, SchedAction::Stalled) {
            Self::lemma_stall_means_every_remaining_pass_is_blocked(before, after);
            let mid = choose|mid: Self| #[trigger] before.upgraded(mid) && action_after_upgrade(
                mid,
                after,
                SchedAction::Stalled,
            );
            assert(after == mid);
            after.lemma_run_accounting();
            after.names().unique_seq_to_set();
            let some = choose|x: Seq<char>| after.names().contains(x) && !after.completed().contains(x);
            assert(exists|x: Seq<char>| after.names().contains(x) && !after.completed().contains(x)) by {
                if forall|x: Seq<char>| after.names().contains(x) ==> after.completed().contains(x) {
                    assert(after.names().to_set().subset_of(after.completed()));
                    vstd::set_lib::lemma_len_subset(after.names().to_set(), after.completed());
                }
            }
            let p = after.lemma_lowest_remaining(rank, some);
            assert(!after.unblocked(p));
            assert(after.prereqs_of(p) == before.prereqs_of(p));
            assert(after.needs_of(p) == before.needs_of(p));
            if !all_in(after.prereqs_of(p), after.completed()) {
                let i = choose|i: int| 0 <= i < after.prereqs_of(p).len() && !after.completed().contains(
                    #[trigger] after.prereqs_of(p)[i],
                );
                let q = after.prereqs_of(p)[i];
                assert(before.prereqs_of(p).contains(q));
                assert(rank(p) <= rank(q));
            } else {
                let i = choose|i: int| 0 <= i < after.needs_of(p).len() && !after.created().contains(
                    #[trigger] after.needs_of(p)[i],
                );
                let d = after.needs_of(p)[i];
                assert(before.needs_of(p).contains(d));
                let c = choose|c: Seq<char>| before.names().contains(c) && #[trigger] before.creates_of(c).contains(d);
                assert(after.creates_of(c) == before.creates_of(c));
                if after.completed().contains(c) {
                    assert(after.created().contains(d));
                }
                assert(rank(c) < rank(p));
                assert(rank(p) <= rank(c));
            }
        }
    }

    /// When no pass remains, no datum is held: none has a reader and none
    /// is being written.
    pub proof fn lemma_finished_means_nothing_held(&self)
        requires
            self.wf(),
            self.passes_remaining() == 0,
        ensures
            forall|d: Seq<char>|
                #[trigger] self.usage().dom().contains(d) ==> self.usage()[d].num_readers == 0
                    && !self.usage()[d].write_active,
    {
        self.lemma_finished_means_all_completed();
        assert forall|p: Seq<char>| !#[trigger] self.holders().contains(p) by {
            lemma_concat_contains(self.ready(), self.running());
            if self.holders().contains(p) {
                assert(self.in_some_stage(p));
                assert(self.names().to_set().contains(p));
            }
        }
        assert(self.holders() =~= Seq::<Seq<char>>::empty()) by {
            if self.holders().len() > 0 {
                assert(self.holders().contains(self.holders()[0]));
            }
        }
    }

    /// When no pass remains, every pass has completed.
    pub proof fn lemma_finished_means_all_completed(&self)
        requires
            self.wf(),
            self.passes_remaining() == 0,
        ensures
            self.completed() == self.names().to_set(),
    {
        self.lemma_run_accounting();
        self.names().unique_seq_to_set();
        assert forall|x: Seq<char>| self.names().to_set().contains(x) implies self.completed().contains(x) by {
            if !self.completed().contains(x) {
                assert(self.completed().subset_of(self.names().to_set().remove(x)));
                vstd::set_lib::lemma_len_subset(self.completed(), self.names().to_set().remove(x));
            }
        }
        assert(self.completed() =~= self.names().to_set());
    }
}

/// Decides the next step of a run: finished when no pass remains;
/// otherwise, after moving to the ready passes those waiting passes that can
/// take their resources, run ready passes on the available threads, or wait
/// for a running pass, or report that no pass can ever start.
pub fn next_action<P, F, D>(gen_state: &mut GenerationState<P, F, D>) -> (a: SchedAction)
    requires
        old(gen_state).wf(),
    ensures
        final(gen_state).wf(),
        old(gen_state).passes_remaining() == 0 ==> a is Finished && *final(gen_state) == *old(gen_state),
        old(gen_state).passes_remaining() > 0 ==> exists|mid: GenerationState<P, F, D>|
            #[trigger] old(gen_state).upgraded(mid) && action_after_upgrade(mid, *final(gen_state), a),
{
    if gen_state.sched_state.num_passes_rem == 0 {
        return SchedAction::Finished;
    }
    upgrade_any_passes_from_waiting_for_res_to_ready_for_sched(gen_state);
    let ghost mid = *gen_state;
    if gen_state.num_threads_avail > 0 && gen_state.sched_state.p_stages.passes_ready_for_scheduling.len() > 0 {
        let pids = schedule_ready_passes_on_avail_threads(gen_state);
        assert(action_after_upgrade(mid, *gen_state, SchedAction::Dispatch(pids)));
        SchedAction::Dispatch(pids)
    } else if gen_state.sched_state.passes_running.len() > 0 {
        SchedAction::WaitForCompletion
    } else {
        SchedAction::Stalled
    }
}

/// Takes the result a pass reported: the name of the pass when it
/// succeeded, its error otherwise. A success of a running pass records its
/// completion; the name of a pass that is not running, or an error, is
/// returned as an error and changes nothing.
pub fn handle_pass_result<P, F, D>(gen_state: &mut GenerationState<P, F, D>, result: Result<String, String>) -> (r:
    Result<(), String>)
    requires
        old(gen_state).wf(),
    ensures
        final(gen_state).wf(),
        match result {
            Ok(pid) => if old(gen_state).running().contains(pid@) {
                r is Ok && old(gen_state).completion(*final(gen_state), pid@)
            } else {
                *final(gen_state) == *old(gen_state) && match r {
                    Err(e) => e@ == not_running_message(pid@),
                    Ok(_) => false,
                }
            },
            Err(e) => *final(gen_state) == *old(gen_state) && r == Err::<(), String>(e),
        },
{
    match result {
        Ok(pass_id) => {
            if gen_state.is_running(&pass_id) {
                handle_pass_completed(&pass_id, gen_state);
                Ok(())
            } else {
                let mut msg = "A pass that is not running reported its completion: ".to_owned();
                msg.append(pass_id.as_str());
                Err(msg)
            }
        },
        Err(e) => Err(e),
    }
}

/// Checks a registration and sets up its run: every pass that waits on
/// nothing waits for resources, every other pass is blocked, no thread is in use.
pub fn generate_map<P, F, D>(reg_data: RawRegistrationInfo<P, F>) -> (r: Result<GenerationState<P, F, D>, String>)
    ensures
        match r {
            Ok(g) => {
                &&& registration_error(reg_data) is None
                &&& g.wf()
                &&& g.names() == pass_names_of(reg_data.passes())
                &&& g.reads() == group_map_of(
                    reg_data.passes(),
                    PassInfoGroupedDataKeys::ReadAcc,
                )
                &&& g.writes() == group_map_of(
                    reg_data.passes(),
                    PassInfoGroupedDataKeys::WriteAcc,
                )
                &&& g.creates() == group_map_of(
                    reg_data.passes(),
                    PassInfoGroupedDataKeys::CreateAcc,
                )
                &&& g.prereq_map() == group_map_of(
                    reg_data.passes(),
                    PassInfoGroupedDataKeys::PrereqPass,
                )
                &&& g.completed() == Set::<Seq<char>>::empty()
                &&& g.created() == Set::<Seq<char>>::empty()
                &&& g.waiting() == unblocked(g.names(), g.prereq_map(), g.reads(), g.writes())
                &&& g.ready() == Seq::<Seq<char>>::empty()
                &&& g.running() == Seq::<Seq<char>>::empty()
                &&& g.threads_avail() == reg_data.max_threads_view()
                &&& g.max_threads() == reg_data.max_threads_view()
                &&& g.passes_remaining() == g.names().len()
            },
            Err(e) => registration_error(reg_data) == Some(e@),
        },
{
    let ghost raw = reg_data;
    let reg_info: RegisteredInfo<P, F, D> = match process_reg_info(reg_data) {
        Ok(info) => info,
        Err(e) => {
            return Err(e);
        },
    };
    proof {
        let m = reg_info.pass_data.pass_meta_data.pass_mappings;
        assert(m.table(PassInfoGroupedDataKeys::ReadAcc) == m.pass_data_read_reqs);
        assert(m.table(PassInfoGroupedDataKeys::WriteAcc) == m.pass_data_write_reqs);
        assert(m.table(PassInfoGroupedDataKeys::CreateAcc) == m.pass_data_create_reqs);
        assert(m.table(PassInfoGroupedDataKeys::PrereqPass) == m.prereq_passes_of_passes);
        assert(group_view(m.table(PassInfoGroupedDataKeys::ReadAcc)) == group_map_of(raw.passes(), PassInfoGroupedDataKeys::ReadAcc));
        assert(group_view(m.table(PassInfoGroupedDataKeys::WriteAcc)) == group_map_of(raw.passes(), PassInfoGroupedDataKeys::WriteAcc));
        assert(group_view(m.table(PassInfoGroupedDataKeys::CreateAcc)) == group_map_of(raw.passes(), PassInfoGroupedDataKeys::CreateAcc));
        assert(group_view(m.table(PassInfoGroupedDataKeys::PrereqPass)) == group_map_of(raw.passes(), PassInfoGroupedDataKeys::PrereqPass));
        assert(entries_view(m.table(PassInfoGroupedDataKeys::ReadAcc)) == group_entries_of(raw.passes(), PassInfoGroupedDataKeys::ReadAcc));
    }
    let g = GenerationState::new(reg_info);
    Ok(g)
}


/// The data that `reqs` requests with request type `t`.
pub open spec fn requested_with(reqs: Seq<(Seq<char>, DataReqType)>, t: DataReqType) -> Set<Seq<char>> {
    Set::new(|d: Seq<char>| reqs.contains((d, t)))
}

/// `r` holds, for pass `pid`: a clone of each parameter it requires, a clone
/// of each datum it reads and of each it writes, and an empty slot for each
/// datum it creates.
pub open spec fn hands_over<P: Clone, D: Clone>(
    r: DataRequestedByPass<P, D>,
    params: Map<Seq<char>, P>,
    data: Map<Seq<char>, D>,
    req_params: Seq<Seq<char>>,
    reqs: Seq<(Seq<char>, DataReqType)>,
    creates: Seq<Seq<char>>,
) -> bool {
    &&& r.wf()
    &&& r.params_view().dom() == req_params.to_set()
    &&& forall|k: Seq<char>| #[trigger] r.params_view().dom().contains(k) ==> cloned(params[k], r.params_view()[k])
    &&& r.read_view().dom() == requested_with(reqs, DataReqType::READ)
    &&& forall|k: Seq<char>| #[trigger] r.read_view().dom().contains(k) ==> cloned(data[k], r.read_view()[k])
    &&& r.write_view().dom() == requested_with(reqs, DataReqType::WRITE)
    &&& forall|k: Seq<char>| #[trigger] r.write_view().dom().contains(k) ==> cloned(data[k], r.write_view()[k])
    &&& r.created_view().dom() == creates.to_set()
    &&& forall|k: Seq<char>| #[trigger] r.created_view().dom().contains(k) ==> r.created_view()[k] is None
}

/// Adds the parameters that `pid` requires, and an empty slot for each datum it creates.
fn add_params_and_setup_req_pass_data_for_any_created_data<P: Clone, D>(
    pid: &String,
    coll_data: &mut DataRequestedByPass<P, D>,
    params_and_data: &ParamsAndData<P, D>,
    p_mappings: &PassMappings,
)
    requires
        old(coll_data).wf(),
        params_and_data.params.wf(),
        p_mappings.wf(),
        forall|i: int|
            0 <= i < table_or_empty(group_view(p_mappings.pass_data_req_params), pid@).len()
                ==> params_and_data.params@.dom().contains(
                #[trigger] table_or_empty(group_view(p_mappings.pass_data_req_params), pid@)[i],
            ),
    ensures
        final(coll_data).wf(),
        final(coll_data).read_view() == old(coll_data).read_view(),
        final(coll_data).write_view() == old(coll_data).write_view(),
        final(coll_data).params_view().dom() == old(coll_data).params_view().dom().union(
            table_or_empty(group_view(p_mappings.pass_data_req_params), pid@).to_set(),
        ),
        forall|k: Seq<char>|
            #[trigger] final(coll_data).params_view().dom().contains(k) ==> if table_or_empty(
                group_view(p_mappings.pass_data_req_params),
                pid@,
            ).to_set().contains(k) {
                cloned(params_and_data.params@[k], final(coll_data).params_view()[k])
            } else {
                final(coll_data).params_view()[k] == old(coll_data).params_view()[k]
            },
        final(coll_data).created_view().dom() == old(coll_data).created_view().dom().union(
            table_or_empty(group_view(p_mappings.pass_data_create_reqs), pid@).to_set(),
        ),
        forall|k: Seq<char>|
            #[trigger] final(coll_data).created_view().dom().contains(k) ==> if table_or_empty(
                group_view(p_mappings.pass_data_create_reqs),
                pid@,
            ).to_set().contains(k) {
                final(coll_data).created_view()[k] is None
            } else {
                final(coll_data).created_view()[k] == old(coll_data).created_view()[k]
            },
{
    let param_ids = list_or_empty(&p_mappings.pass_data_req_params, pid);
    let ghost ps = names_of(param_ids@);
    let n = param_ids.len();
    let mut i: usize = 0;
    proof {
        assert(ps.take(0).to_set() =~= Set::<Seq<char>>::empty());
        assert(coll_data.params_view().dom() =~= old(coll_data).params_view().dom().union(ps.take(0).to_set()));
    }
    while i < n
        invariant
            n == ps.len(),
            ps == names_of(param_ids@),
            ps == table_or_empty(group_view(p_mappings.pass_data_req_params), pid@),
            params_and_data.params.wf(),
            forall|j: int| 0 <= j < ps.len() ==> params_and_data.params@.dom().contains(#[trigger] ps[j]),
            i <= n,
            coll_data.wf(),
            coll_data.read_view() == old(coll_data).read_view(),
            coll_data.write_view() == old(coll_data).write_view(),
            coll_data.created_view() == old(coll_data).created_view(),
            coll_data.params_view().dom() == old(coll_data).params_view().dom().union(ps.take(i as int).to_set()),
            forall|k: Seq<char>|
                #[trigger] coll_data.params_view().dom().contains(k) ==> if ps.take(i as int).to_set().contains(k) {
                    cloned(params_and_data.params@[k], coll_data.params_view()[k])
                } else {
                    coll_data.params_view()[k] == old(coll_data).params_view()[k]
                },
        decreases n - i,
    {
        let param_id = &param_ids[i];
        assert(ps[i as int] == param_id@);
        let param = match params_and_data.params.get(param_id) {
            Some(p) => p.clone(),
            None => {
                proof {
                    assert(false);
                }
                return;
            },
        };
        coll_data.add_req_param(param_id.clone(), param);
        proof {
            assert(ps.take(i + 1) =~= ps.take(i as int).push(param_id@));
            ps.take(i as int).lemma_push_to_set_commute(param_id@);
            assert(coll_data.params_view().dom() =~= old(coll_data).params_view().dom().union(
                ps.take(i + 1).to_set(),
            ));
        }
        i = i + 1;
    }
    assert(ps.take(n as int) =~= ps);
    proof {
        assert(ps.take(0).to_set() =~= Set::<Seq<char>>::empty());
    }
    let create_ids = list_or_empty(&p_mappings.pass_data_create_reqs, pid);
    let ghost cs = names_of(create_ids@);
    let m = create_ids.len();
    let mut j: usize = 0;
    proof {
        assert(cs.take(0).to_set() =~= Set::<Seq<char>>::empty());
        assert(coll_data.created_view().dom() =~= old(coll_data).created_view().dom().union(cs.take(0).to_set()));
    }
    while j < m
        invariant
            m == cs.len(),
            cs == names_of(create_ids@),
            j <= m,
            coll_data.wf(),
            coll_data.read_view() == old(coll_data).read_view(),
            coll_data.write_view() == old(coll_data).write_view(),
            coll_data.params_view().dom() == old(coll_data).params_view().dom().union(ps.to_set()),
            forall|k: Seq<char>|
                #[trigger] coll_data.params_view().dom().contains(k) ==> if ps.to_set().contains(k) {
                    cloned(params_and_data.params@[k], coll_data.params_view()[k])
                } else {
                    coll_data.params_view()[k] == old(coll_data).params_view()[k]
                },
            coll_data.created_view().dom() == old(coll_data).created_view().dom().union(cs.take(j as int).to_set()),
            forall|k: Seq<char>|
                #[trigger] coll_data.created_view().dom().contains(k) ==> if cs.take(j as int).to_set().contains(k) {
                    coll_data.created_view()[k] is None
                } else {
                    coll_data.created_view()[k] == old(coll_data).created_view()[k]
                },
        decreases m - j,
    {
        let did = &create_ids[j];
        coll_data.add_req_create_data(did.clone());
        proof {
            assert(cs[j as int] == did@);
            assert(cs.take(j + 1) =~= cs.take(j as int).push(did@));
            cs.take(j as int).lemma_push_to_set_commute(did@);
            assert(coll_data.created_view().dom() =~= old(coll_data).created_view().dom().union(
                cs.take(j + 1).to_set(),
            ));
        }
        j = j + 1;
    }
    assert(cs.take(m as int) =~= cs);
}

/// Adds a clone of each datum that `p_req_res` requests to read or write.
fn add_read_write_data_to_req_pass_data<P, D: Clone>(
    p_req_res: &PassRequiredRes,
    coll_data: &mut DataRequestedByPass<P, D>,
    params_and_data: &ParamsAndData<P, D>,
)
    requires
        old(coll_data).wf(),
        params_and_data.data.wf(),
        forall|j: int|
            0 <= j < p_req_res.reqs().len() ==> params_and_data.data@.dom().contains(
                #[trigger] p_req_res.reqs()[j].0,
            ),
    ensures
        final(coll_data).wf(),
        final(coll_data).params_view() == old(coll_data).params_view(),
        final(coll_data).created_view() == old(coll_data).created_view(),
        final(coll_data).read_view().dom() == old(coll_data).read_view().dom().union(
            requested_with(p_req_res.reqs(), DataReqType::READ),
        ),
        forall|k: Seq<char>|
            #[trigger] final(coll_data).read_view().dom().contains(k) ==> if requested_with(
                p_req_res.reqs(),
                DataReqType::READ,
            ).contains(k) {
                cloned(params_and_data.data@[k], final(coll_data).read_view()[k])
            } else {
                final(coll_data).read_view()[k] == old(coll_data).read_view()[k]
            },
        final(coll_data).write_view().dom() == old(coll_data).write_view().dom().union(
            requested_with(p_req_res.reqs(), DataReqType::WRITE),
        ),
        forall|k: Seq<char>|
            #[trigger] final(coll_data).write_view().dom().contains(k) ==> if requested_with(
                p_req_res.reqs(),
                DataReqType::WRITE,
            ).contains(k) {
                cloned(params_and_data.data@[k], final(coll_data).write_view()[k])
            } else {
                final(coll_data).write_view()[k] == old(coll_data).write_view()[k]
            },
{
    let ghost reqs = p_req_res.reqs();
    let n = p_req_res.did_and_req_types.len();
    let mut i: usize = 0;
    proof {
        assert(requested_with(reqs.take(0), DataReqType::READ) =~= Set::<Seq<char>>::empty());
        assert(requested_with(reqs.take(0), DataReqType::WRITE) =~= Set::<Seq<char>>::empty());
        assert(coll_data.read_view().dom() =~= old(coll_data).read_view().dom().union(
            requested_with(reqs.take(0), DataReqType::READ),
        ));
        assert(coll_data.write_view().dom() =~= old(coll_data).write_view().dom().union(
            requested_with(reqs.take(0), DataReqType::WRITE),
        ));
    }
    while i < n
        invariant
            n == reqs.len(),
            reqs == p_req_res.reqs(),
            params_and_data.data.wf(),
            forall|j: int| 0 <= j < reqs.len() ==> params_and_data.data@.dom().contains(#[trigger] reqs[j].0),
            i <= n,
            coll_data.wf(),
            coll_data.params_view() == old(coll_data).params_view(),
            coll_data.created_view() == old(coll_data).created_view(),
            coll_data.read_view().dom() == old(coll_data).read_view().dom().union(
                requested_with(reqs.take(i as int), DataReqType::READ),
            ),
            coll_data.write_view().dom() == old(coll_data).write_view().dom().union(
                requested_with(reqs.take(i as int), DataReqType::WRITE),
            ),
            forall|k: Seq<char>|
                #[trigger] coll_data.read_view().dom().contains(k) ==> if requested_with(
                    reqs.take(i as int),
                    DataReqType::READ,
                ).contains(k) {
                    cloned(params_and_data.data@[k], coll_data.read_view()[k])
                } else {
                    coll_data.read_view()[k] == old(coll_data).read_view()[k]
                },
            forall|k: Seq<char>|
                #[trigger] coll_data.write_view().dom().contains(k) ==> if requested_with(
                    reqs.take(i as int),
                    DataReqType::WRITE,
                ).contains(k) {
                    cloned(params_and_data.data@[k], coll_data.write_view()[k])
                } else {
                    coll_data.write_view()[k] == old(coll_data).write_view()[k]
                },
        decreases n - i,
    {
        let did = &p_req_res.did_and_req_types[i].0;
        let req_type = p_req_res.did_and_req_types[i].1;
        assert(reqs[i as int] == (did@, req_type));
        assert(params_and_data.data@.dom().contains(reqs[i as int].0));
        let data = match params_and_data.data.get(did) {
            Some(d) => d.clone(),
            None => {
                proof {
                    assert(false);
                }
                return;
            },
        };
        proof {
            assert(reqs.take(i + 1) =~= reqs.take(i as int).push((did@, req_type)));
            assert forall|d: Seq<char>, t: DataReqType| #[trigger] reqs.take(i + 1).contains((d, t)) <==> (
                reqs.take(i as int).contains((d, t)) || (d, t) == (did@, req_type)) by {
                let t1 = reqs.take(i + 1);
                let t0 = reqs.take(i as int);
                if t1.contains((d, t)) && (d, t) != (did@, req_type) {
                    let q = choose|q: int| 0 <= q < t1.len() && t1[q] == (d, t);
                    assert(t0[q] == (d, t));
                }
                if t0.contains((d, t)) {
                    let q = choose|q: int| 0 <= q < t0.len() && t0[q] == (d, t);
                    assert(t1[q] == (d, t));
                }
                if (d, t) == (did@, req_type) {
                    assert(reqs.take(i + 1)[i as int] == (d, t));
                }
            }
        }
        match req_type {
            DataReqType::READ => {
                coll_data.add_req_read_data(did.clone(), data);
                assert(requested_with(reqs.take(i + 1), DataReqType::READ) =~= requested_with(
                    reqs.take(i as int),
                    DataReqType::READ,
                ).insert(did@));
                assert(requested_with(reqs.take(i + 1), DataReqType::WRITE) =~= requested_with(
                    reqs.take(i as int),
                    DataReqType::WRITE,
                ));
                assert(coll_data.read_view().dom() =~= old(coll_data).read_view().dom().union(
                    requested_with(reqs.take(i + 1), DataReqType::READ),
                ));
                assert(coll_data.write_view().dom() =~= old(coll_data).write_view().dom().union(
                    requested_with(reqs.take(i + 1), DataReqType::WRITE),
                ));
            },
            DataReqType::WRITE => {
                coll_data.add_req_write_data(did.clone(), data);
                assert(requested_with(reqs.take(i + 1), DataReqType::WRITE) =~= requested_with(
                    reqs.take(i as int),
                    DataReqType::WRITE,
                ).insert(did@));
                assert(requested_with(reqs.take(i + 1), DataReqType::READ) =~= requested_with(
                    reqs.take(i as int),
                    DataReqType::READ,
                ));
                assert(coll_data.read_view().dom() =~= old(coll_data).read_view().dom().union(
                    requested_with(reqs.take(i + 1), DataReqType::READ),
                ));
                assert(coll_data.write_view().dom() =~= old(coll_data).write_view().dom().union(
                    requested_with(reqs.take(i + 1), DataReqType::WRITE),
                ));
            },
        }
        i = i + 1;
    }
    assert(reqs.take(n as int) =~= reqs);
}


/// Gathers for pass `pid` a clone of each parameter it requires and of each
/// datum it requests to read or write, and an empty slot for each datum it creates.
pub fn get_data_req_by_pass<P: Clone, D: Clone>(
    pid: &String,
    p_req_res_opt: Option<&PassRequiredRes>,
    p_mappings: &PassMappings,
    params_and_data: &ParamsAndData<P, D>,
) -> (r: DataRequestedByPass<P, D>)
    requires
        p_mappings.wf(),
        params_and_data.params.wf(),
        params_and_data.data.wf(),
        forall|i: int|
            0 <= i < table_or_empty(group_view(p_mappings.pass_data_req_params), pid@).len()
                ==> params_and_data.params@.dom().contains(
                #[trigger] table_or_empty(group_view(p_mappings.pass_data_req_params), pid@)[i],
            ),
        p_req_res_opt matches Some(req) ==> forall|j: int|
            0 <= j < req.reqs().len() ==> params_and_data.data@.dom().contains(#[trigger] req.reqs()[j].0),
    ensures
        hands_over(
            r,
            params_and_data.params@,
            params_and_data.data@,
            table_or_empty(group_view(p_mappings.pass_data_req_params), pid@),
            match p_req_res_opt {
                Some(req) => req.reqs(),
                None => Seq::empty(),
            },
            table_or_empty(group_view(p_mappings.pass_data_create_reqs), pid@),
        ),
{
    let mut collected_data: DataRequestedByPass<P, D> = DataRequestedByPass::new();
    assert(collected_data.params_view().dom() =~= Set::<Seq<char>>::empty());
    assert(collected_data.created_view().dom() =~= Set::<Seq<char>>::empty());
    assert(collected_data.read_view().dom() =~= Set::<Seq<char>>::empty());
    assert(collected_data.write_view().dom() =~= Set::<Seq<char>>::empty());
    add_params_and_setup_req_pass_data_for_any_created_data(
        pid,
        &mut collected_data,
        params_and_data,
        p_mappings,
    );
    assert(collected_data.params_view().dom() =~= table_or_empty(
        group_view(p_mappings.pass_data_req_params),
        pid@,
    ).to_set());
    assert(collected_data.created_view().dom() =~= table_or_empty(
        group_view(p_mappings.pass_data_create_reqs),
        pid@,
    ).to_set());
    match p_req_res_opt {
        Some(p_req_res) => {
            add_read_write_data_to_req_pass_data(p_req_res, &mut collected_data, params_and_data);
            assert(collected_data.read_view().dom() =~= requested_with(p_req_res.reqs(), DataReqType::READ));
            assert(collected_data.write_view().dom() =~= requested_with(p_req_res.reqs(), DataReqType::WRITE));
        },
        None => {
            assert(collected_data.read_view().dom() =~= requested_with(Seq::empty(), DataReqType::READ));
            assert(collected_data.write_view().dom() =~= requested_with(Seq::empty(), DataReqType::WRITE));
        },
    }
    collected_data
}

/// The position of the first entry of `list` that `m` lacks, if any.
fn find_missing<T>(list: &Vec<String>, m: &IdMap<T>) -> (r: Option<usize>)
    requires
        m.wf(),
    ensures
        match r {
            Some(i) => i < list@.len() && !m@.dom().contains(list@[i as int]@) && forall|j: int|
                0 <= j < i ==> m@.dom().contains(#[trigger] names_of(list@)[j]),
            None => forall|j: int| 0 <= j < list@.len() ==> m@.dom().contains(#[trigger] names_of(list@)[j]),
        },
{
    let n = list.len();
    let mut i: usize = 0;
    while i < n
        invariant
            n == list@.len(),
            m.wf(),
            i <= n,
            forall|j: int| 0 <= j < i ==> m@.dom().contains(#[trigger] names_of(list@)[j]),
        decreases n - i,
    {
        if !m.contains_key(&list[i]) {
            return Some(i);
        }
        i = i + 1;
    }
    None
}

/// The reply when a pass requires a parameter that was never set.
pub open spec fn missing_param_message(pid: Seq<char>, k: Seq<char>) -> Seq<char> {
    "Pass "@ + pid + " requires a parameter that was not set: "@ + k
}

/// The reply when a pass requests data that does not exist.
pub open spec fn missing_data_message(pid: Seq<char>, d: Seq<char>) -> Seq<char> {
    "Pass "@ + pid + " requests data that does not exist: "@ + d
}

/// The reply when there is no pass of the name asked for.
pub open spec fn unknown_pass_message(pid: Seq<char>) -> Seq<char> {
    "There is no pass named: "@ + pid
}

/// `s[i]` is the first entry of `s` missing from `dom`.
pub open spec fn first_missing_at(s: Seq<Seq<char>>, dom: Set<Seq<char>>, i: int) -> bool {
    &&& 0 <= i < s.len()
    &&& !dom.contains(s[i])
    &&& forall|j: int| 0 <= j < i ==> dom.contains(#[trigger] s[j])
}

/// Every entry of `s` is in `dom`.
pub open spec fn all_present(s: Seq<Seq<char>>, dom: Set<Seq<char>>) -> bool {
    forall|j: int| 0 <= j < s.len() ==> dom.contains(#[trigger] s[j])
}

/// `data` with each datum that `created` holds a value for set to that value, in order.
/// `data` with each written datum, in order, set to its value.
pub open spec fn with_written<D>(data: Map<Seq<char>, D>, written: Seq<(Seq<char>, D)>) -> Map<Seq<char>, D>
    decreases written.len(),
{
    if written.len() == 0 {
        data
    } else {
        with_written(data, written.drop_last()).insert(written.last().0, written.last().1)
    }
}

proof fn lemma_with_written_at<D>(data: Map<Seq<char>, D>, written: Seq<(Seq<char>, D)>, d: Seq<char>)
    requires
        forall|a: int, b: int| 0 <= a < b < written.len() ==> written[a].0 != written[b].0,
    ensures
        forall|i: int|
            0 <= i < written.len() && (#[trigger] written[i]).0 == d ==> with_written(data, written).dom().contains(d)
                && with_written(data, written)[d] == written[i].1,
        (forall|i: int| 0 <= i < written.len() ==> (#[trigger] written[i]).0 != d) ==> (with_written(
            data,
            written,
        ).dom().contains(d) == data.dom().contains(d) && (data.dom().contains(d) ==> with_written(data, written)[d]
            == data[d])),
    decreases written.len(),
{
    if written.len() > 0 {
        let init = written.drop_last();
        lemma_with_written_at(data, init, d);
        let n = written.len() - 1;
        assert forall|i: int| 0 <= i < written.len() && (#[trigger] written[i]).0 == d implies with_written(
            data,
            written,
        ).dom().contains(d) && with_written(data, written)[d] == written[i].1 by {
            if i < n {
                assert(init[i] == written[i]);
                assert(written[n].0 != d);
            }
        }
        if forall|i: int| 0 <= i < written.len() ==> (#[trigger] written[i]).0 != d {
            assert forall|i: int| 0 <= i < init.len() implies (#[trigger] init[i]).0 != d by {
                assert(init[i] == written[i]);
            }
        }
    }
}

/// Once a pass's output is stored, the run holds for each datum what the
/// pass created under it, if it created something; otherwise what the pass
/// left in it, if it had write access to it; otherwise what it held before.
pub proof fn lemma_stored_output_is_what_the_pass_left<P, D>(
    data: Map<Seq<char>, D>,
    out: DataRequestedByPass<P, D>,
    d: Seq<char>,
    v: D,
)
    requires
        out.wf(),
    ensures
        out.created_view().dom().contains(d) && out.created_view()[d] == Some(v) ==> with_created(
            with_written(data, out.written_pairs()),
            out.created_pairs(),
        )[d] == v,
        !(out.created_view().dom().contains(d) && out.created_view()[d] is Some) && out.write_view().dom().contains(
            d,
        ) ==> with_created(with_written(data, out.written_pairs()), out.created_pairs()).dom().contains(d)
            && with_created(with_written(data, out.written_pairs()), out.created_pairs())[d] == out.write_view()[d],
        !(out.created_view().dom().contains(d) && out.created_view()[d] is Some) && !out.write_view().dom().contains(
            d,
        ) ==> with_created(with_written(data, out.written_pairs()), out.created_pairs()).dom().contains(d)
            == data.dom().contains(d) && (data.dom().contains(d) ==> with_created(
            with_written(data, out.written_pairs()),
            out.created_pairs(),
        )[d] == data[d]),
{
    let w = out.written_pairs();
    let mid = with_written(data, w);
    lemma_stored_data_is_what_was_written(mid, out, d, v);
    out.lemma_written_pairs();
    lemma_with_written_at(data, w, d);
    if out.write_view().dom().contains(d) {
        let i = choose|i: int| 0 <= i < w.len() && w[i].0 == d;
        assert(w[i].1 == out.write_view()[d]);
    } else {
        assert forall|i: int| 0 <= i < w.len() implies (#[trigger] w[i]).0 != d by {}
    }
}

pub open spec fn with_created<D>(data: Map<Seq<char>, D>, created: Seq<(Seq<char>, Option<D>)>) -> Map<
    Seq<char>,
    D,
>
    decreases created.len(),
{
    if created.len() == 0 {
        data
    } else {
        let m = with_created(data, created.drop_last());
        match created.last().1 {
            Some(v) => m.insert(created.last().0, v),
            None => m,
        }
    }
}

proof fn lemma_with_created_at<D>(data: Map<Seq<char>, D>, created: Seq<(Seq<char>, Option<D>)>, d: Seq<char>)
    requires
        forall|a: int, b: int| 0 <= a < b < created.len() ==> created[a].0 != created[b].0,
    ensures
        forall|i: int|
            0 <= i < created.len() && (#[trigger] created[i]).0 == d && created[i].1 is Some ==> with_created(
                data,
                created,
            ).dom().contains(d) && created[i].1 == Some(with_created(data, created)[d]),
        (forall|i: int| 0 <= i < created.len() ==> !(#[trigger] created[i].0 == d && created[i].1 is Some)) ==> (
        with_created(data, created).dom().contains(d) == data.dom().contains(d) && (data.dom().contains(d)
            ==> with_created(data, created)[d] == data[d])),
    decreases created.len(),
{
    if created.len() > 0 {
        let init = created.drop_last();
        lemma_with_created_at(data, init, d);
        let n = created.len() - 1;
        assert forall|i: int|
            0 <= i < created.len() && (#[trigger] created[i]).0 == d && created[i].1 is Some implies with_created(
            data,
            created,
        ).dom().contains(d) && created[i].1 == Some(with_created(data, created)[d]) by {
            if i < n {
                assert(init[i] == created[i]);
                assert(created[n].0 != d);
            }
        }
        if forall|i: int| 0 <= i < created.len() ==> !(#[trigger] created[i].0 == d && created[i].1 is Some) {
            assert forall|i: int| 0 <= i < init.len() implies !(#[trigger] init[i].0 == d && init[i].1 is Some) by {
                assert(init[i] == created[i]);
            }
        }
    }
}

/// What a pass wrote under a datum it creates is what the run holds for
/// that datum once the pass's created data is stored; every datum the pass
/// left unwritten, or does not create, keeps what it held.
pub proof fn lemma_stored_data_is_what_was_written<P, D>(
    data: Map<Seq<char>, D>,
    created: DataRequestedByPass<P, D>,
    d: Seq<char>,
    v: D,
)
    requires
        created.wf(),
    ensures
        created.created_view().dom().contains(d) && created.created_view()[d] == Some(v) ==> with_created(
            data,
            created.created_pairs(),
        ).dom().contains(d) && with_created(data, created.created_pairs())[d] == v,
        !(created.created_view().dom().contains(d) && created.created_view()[d] is Some) ==> with_created(
            data,
            created.created_pairs(),
        ).dom().contains(d) == data.dom().contains(d) && (data.dom().contains(d) ==> with_created(
            data,
            created.created_pairs(),
        )[d] == data[d]),
{
    let pairs = created.created_pairs();
    created.lemma_created_pairs();
    lemma_with_created_at(data, pairs, d);
    if created.created_view().dom().contains(d) && created.created_view()[d] == Some(v) {
        let i = choose|i: int| 0 <= i < pairs.len() && pairs[i].0 == d;
        assert(pairs[i] == (d, Some(v)));
    }
    if !(created.created_view().dom().contains(d) && created.created_view()[d] is Some) {
        assert forall|i: int| 0 <= i < pairs.len() implies !(#[trigger] pairs[i].0 == d && pairs[i].1 is Some) by {
            if pairs[i].0 == d {
                assert(created.created_view()[pairs[i].0] == pairs[i].1);
            }
        }
    }
}

impl<P, F, D> GenerationState<P, F, D> {
    /// The parameters of the run.
    pub closed spec fn params_view(&self) -> Map<Seq<char>, P> {
        self.pass_data.pass_core_data.params_and_data.params@
    }

    /// The data created so far.
    pub closed spec fn data_view(&self) -> Map<Seq<char>, D> {
        self.pass_data.pass_core_data.params_and_data.data@
    }

    /// The parameters that pass `p` requires.
    pub closed spec fn req_params_of(&self, p: Seq<char>) -> Seq<Seq<char>> {
        table_or_empty(group_view(self.pass_data.pass_meta_data.pass_mappings.pass_data_req_params), p)
    }

    /// What pass `pid` works on: a clone of each parameter it requires and of
    /// each datum it reads or writes, and an empty slot for each datum it
    /// creates. Fails when there is no such pass, when a parameter it
    /// requires was not set, or when a datum it reads or writes does not
    /// exist, naming the first such parameter or datum.
    pub fn pass_inputs(&self, pid: &String) -> (r: Result<DataRequestedByPass<P, D>, String>) where
        P: Clone,
        D: Clone,
        requires
            self.wf(),
        ensures
            match r {
                Ok(x) => {
                    &&& self.names().contains(pid@)
                    &&& all_present(self.req_params_of(pid@), self.params_view().dom())
                    &&& all_present(self.needs_of(pid@), self.data_view().dom())
                    &&& hands_over(
                        x,
                        self.params_view(),
                        self.data_view(),
                        self.req_params_of(pid@),
                        self.req_of(pid@),
                        self.creates_of(pid@),
                    )
                },
                Err(e) => if !self.names().contains(pid@) {
                    e@ == unknown_pass_message(pid@)
                } else if !all_present(self.req_params_of(pid@), self.params_view().dom()) {
                    exists|i: int|
                        first_missing_at(self.req_params_of(pid@), self.params_view().dom(), i) && e@
                            == missing_param_message(pid@, #[trigger] self.req_params_of(pid@)[i])
                } else {
                    exists|i: int|
                        first_missing_at(self.needs_of(pid@), self.data_view().dom(), i) && e@
                            == missing_data_message(pid@, #[trigger] self.needs_of(pid@)[i])
                },
            },
    {
        let meta = &self.pass_data.pass_meta_data;
        let params_and_data = &self.pass_data.pass_core_data.params_and_data;
        let p_req_res = match self.sched_state.p_res_state.pass_req_res.get(pid) {
            Some(req) => req,
            None => {
                let mut msg = "There is no pass named: ".to_owned();
                msg.append(pid.as_str());
                return Err(msg);
            },
        };
        let param_ids = list_or_empty(&meta.pass_mappings.pass_data_req_params, pid);
        match find_missing(&param_ids, &params_and_data.params) {
            Some(i) => {
                let mut msg = "Pass ".to_owned();
                msg.append(pid.as_str());
                msg.append(" requires a parameter that was not set: ");
                msg.append(param_ids[i].as_str());
                assert(first_missing_at(self.req_params_of(pid@), self.params_view().dom(), i as int));
                return Err(msg);
            },
            None => {},
        }
        let mut data_ids = list_or_empty(&meta.pass_mappings.pass_data_read_reqs, pid);
        let write_ids = list_or_empty(&meta.pass_mappings.pass_data_write_reqs, pid);
        extend_names(&mut data_ids, &write_ids);
        match find_missing(&data_ids, &params_and_data.data) {
            Some(i) => {
                let mut msg = "Pass ".to_owned();
                msg.append(pid.as_str());
                msg.append(" requests data that does not exist: ");
                msg.append(data_ids[i].as_str());
                assert(first_missing_at(self.needs_of(pid@), self.data_view().dom(), i as int));
                return Err(msg);
            },
            None => {},
        }
        proof {
            lemma_count_reads_of_req(self.reads(), self.writes(), pid@, pid@);
            assert forall|j: int| 0 <= j < p_req_res.reqs().len() implies params_and_data.data@.dom().contains(
                #[trigger] p_req_res.reqs()[j].0,
            ) by {
                assert(self.needs_of(pid@).contains(self.req_of(pid@)[j].0));
            }
        }
        Ok(get_data_req_by_pass(pid, Some(p_req_res), &meta.pass_mappings, params_and_data))
    }

    /// Stores in the run's data each datum that a pass created.
    pub fn store_created_data(&mut self, created: DataRequestedByPass<P, D>)
        requires
            old(self).wf(),
        ensures
            final(self).wf(),
            final(self).data_view() == with_created(old(self).data_view(), created.created_pairs()),
            final(self).params_view() == old(self).params_view(),
            final(self).run_funcs() == old(self).run_funcs(),
            old(self).same_run(*final(self)),
            final(self).waiting() == old(self).waiting(),
            final(self).ready() == old(self).ready(),
            final(self).running() == old(self).running(),
            final(self).usage() == old(self).usage(),
            final(self).threads_avail() == old(self).threads_avail(),
    {
        let ghost pairs = created.created_pairs();
        let mut rest = created.into_created();
        let n = rest.len();
        let mut i: usize = 0;
        proof {
            assert(pairs.take(0) =~= Seq::<(Seq<char>, Option<D>)>::empty());
            assert(created_vec_view(rest@) =~= pairs.skip(0));
        }
        while i < n
            invariant
                n == pairs.len(),
                i <= n,
                created_vec_view(rest@) == pairs.skip(i as int),
                self.pass_data.pass_core_data.params_and_data.data.wf(),
                self.data_view() == with_created(old(self).data_view(), pairs.take(i as int)),
                self.sched_state == old(self).sched_state,
                self.non_pass_data == old(self).non_pass_data,
                self.num_threads_avail == old(self).num_threads_avail,
                self.pass_data.pass_meta_data == old(self).pass_data.pass_meta_data,
                self.pass_data.pass_core_data.run_funcs == old(self).pass_data.pass_core_data.run_funcs,
                self.pass_data.pass_core_data.params_and_data.params == old(
                    self,
                ).pass_data.pass_core_data.params_and_data.params,
            decreases n - i,
        {
            assert(created_vec_view(rest@).len() == rest@.len());
            let ghost rest0 = rest@;
            let (did, value) = rest.remove(0);
            proof {
                assert(created_vec_view(rest0) == pairs.skip(i as int));
                assert forall|k: int| 0 <= k < rest@.len() implies #[trigger] created_vec_view(rest@)[k]
                    == pairs.skip(i + 1)[k] by {
                    assert(rest@[k] == rest0[k + 1]);
                    assert(created_vec_view(rest0)[k + 1] == pairs.skip(i as int)[k + 1]);
                }
                assert(pairs.skip(i as int)[0] == (did@, value));
                assert(pairs[i as int] == (did@, value));
                assert(pairs.take(i + 1).drop_last() =~= pairs.take(i as int));
                assert(pairs.take(i + 1).last() == pairs[i as int]);
                assert(created_vec_view(rest@) =~= pairs.skip(i + 1));
            }
            match value {
                Some(v) => {
                    self.pass_data.pass_core_data.params_and_data.data.insert(did, v);
                },
                None => {},
            }
            i = i + 1;
        }
        proof {
            assert(pairs.take(n as int) =~= pairs);
            Self::lemma_wf_same_schedule(*old(self), *self);
        }
    }

    /// Stores what a pass left: each datum it had write access to gets the
    /// value the pass left in it, then each datum it created gets its value.
    pub fn store_pass_output(&mut self, out: DataRequestedByPass<P, D>)
        requires
            old(self).wf(),
            out.wf(),
        ensures
            final(self).wf(),
            final(self).data_view() == with_created(
                with_written(old(self).data_view(), out.written_pairs()),
                out.created_pairs(),
            ),
            final(self).params_view() == old(self).params_view(),
            final(self).run_funcs() == old(self).run_funcs(),
            old(self).same_run(*final(self)),
            final(self).waiting() == old(self).waiting(),
            final(self).ready() == old(self).ready(),
            final(self).running() == old(self).running(),
            final(self).usage() == old(self).usage(),
            final(self).threads_avail() == old(self).threads_avail(),
    {
        let mut out = out;
        let ghost out0 = out;
        let mut rest = out.take_written();
        let ghost pairs = out0.written_pairs();
        let n = rest.len();
        let mut i: usize = 0;
        proof {
            assert(pairs.take(0) =~= Seq::<(Seq<char>, D)>::empty());
            assert(written_vec_view(rest@) =~= pairs.skip(0));
        }
        while i < n
            invariant
                n == pairs.len(),
                i <= n,
                written_vec_view(rest@) == pairs.skip(i as int),
                self.pass_data.pass_core_data.params_and_data.data.wf(),
                self.data_view() == with_written(old(self).data_view(), pairs.take(i as int)),
                self.sched_state == old(self).sched_state,
                self.non_pass_data == old(self).non_pass_data,
                self.num_threads_avail == old(self).num_threads_avail,
                self.pass_data.pass_meta_data == old(self).pass_data.pass_meta_data,
                self.pass_data.pass_core_data.run_funcs == old(self).pass_data.pass_core_data.run_funcs,
                self.pass_data.pass_core_data.params_and_data.params == old(
                    self,
                ).pass_data.pass_core_data.params_and_data.params,
            decreases n - i,
        {
            assert(written_vec_view(rest@).len() == rest@.len());
            let ghost rest0 = rest@;
            let (did, value) = rest.remove(0);
            proof {
                assert(written_vec_view(rest0) == pairs.skip(i as int));
                assert forall|k: int| 0 <= k < rest@.len() implies #[trigger] written_vec_view(rest@)[k]
                    == pairs.skip(i + 1)[k] by {
                    assert(rest@[k] == rest0[k + 1]);
                    assert(written_vec_view(rest0)[k + 1] == pairs.skip(i as int)[k + 1]);
                }
                assert(pairs.skip(i as int)[0] == (did@, value));
                assert(pairs[i as int] == (did@, value));
                assert(pairs.take(i + 1).drop_last() =~= pairs.take(i as int));
                assert(pairs.take(i + 1).last() == pairs[i as int]);
                assert(written_vec_view(rest@) =~= pairs.skip(i + 1));
            }
            self.pass_data.pass_core_data.params_and_data.data.insert(did, value);
            i = i + 1;
        }
        proof {
            assert(pairs.take(n as int) =~= pairs);
            Self::lemma_wf_same_schedule(*old(self), *self);
        }
        self.store_created_data(out);
    }

    /// Well-formedness depends on the scheduling state and the run's tables,
    /// not on the parameters, data and run functions held.
    proof fn lemma_wf_same_schedule(a: Self, b: Self)
        requires
            a.wf(),
            b.sched_state == a.sched_state,
            b.non_pass_data == a.non_pass_data,
            b.num_threads_avail == a.num_threads_avail,
            b.pass_data.pass_meta_data == a.pass_data.pass_meta_data,
            b.pass_data.wf(),
        ensures
            b.wf(),
    {
        assert(b.names() == a.names());
        assert(b.sched_state.p_stages.prereqs_of_passes.counts.entries() =~= b.names().map_values(
            |p: Seq<char>| (p, b.prereqs_of(p)),
        ));
        assert(b.sched_state.p_stages.passes_waiting_on_data_to_be_created.counts.entries() =~= b.names().map_values(
            |p: Seq<char>| (p, b.needs_of(p)),
        ));
        assert forall|p: Seq<char>| #[trigger] b.in_some_stage(p) == a.in_some_stage(p) by {}
        assert forall|p: Seq<char>| #[trigger] b.unblocked(p) == a.unblocked(p) by {}
        assert forall|p: Seq<char>| b.names().contains(p) implies req_in_domain(b.usage(), #[trigger] b.req_of(p)) by {
            assert(req_in_domain(a.usage(), a.req_of(p)));
        }
        assert forall|p: Seq<char>| b.names().contains(p) implies self_consistent(#[trigger] b.req_of(p)) by {
            assert(self_consistent(a.req_of(p)));
        }
        assert forall|p: Seq<char>| #[trigger] b.completed().contains(p) implies !b.waiting().contains(p)
            && !b.ready().contains(p) && !b.running().contains(p) by {
            assert(a.completed().contains(p));
        }
        assert forall|p: Seq<char>| #[trigger] b.sched_state.p_res_state.pass_req_res@.dom().contains(p)
            implies b.sched_state.p_res_state.pass_req_res@[p].reqs() == b.req_of(p) by {
            assert(a.sched_state.p_res_state.pass_req_res@.dom().contains(p));
        }
        assert forall|d: Seq<char>| #[trigger] b.created().contains(d) <==> exists|c: Seq<char>|
            b.completed().contains(c) && #[trigger] b.creates_of(c).contains(d) by {
            assert(a.created().contains(d) <==> exists|c: Seq<char>|
                a.completed().contains(c) && #[trigger] a.creates_of(c).contains(d));
            if b.created().contains(d) {
                let c = choose|c: Seq<char>| a.completed().contains(c) && #[trigger] a.creates_of(c).contains(d);
                assert(b.creates_of(c).contains(d));
            }
            if exists|c: Seq<char>| b.completed().contains(c) && #[trigger] b.creates_of(c).contains(d) {
                let c = choose|c: Seq<char>| b.completed().contains(c) && #[trigger] b.creates_of(c).contains(d);
                assert(a.creates_of(c).contains(d));
            }
        }
    }
}

} // verus!
