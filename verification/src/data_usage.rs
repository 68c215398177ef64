//! Which data passes hold for reading or writing while they run.
//!
//! A pass may start to read data that no running pass writes, and may start
//! to write data that no running pass reads. Starting a pass takes what it
//! requests; its completion gives it back.
use vstd::prelude::*;

use crate::id_map::IdMap;
use crate::report::names_of;

verus! {

/// How a pass requests a piece of data.
#[derive(Clone, Copy, PartialEq, Eq, Structural)]
#[allow(non_camel_case_types, clippy::upper_case_acronyms)]
pub enum DataReqType {
    READ,
    WRITE,
}

/// How a piece of data is held: by how many readers, and whether a writer holds it.
#[derive(Clone, Copy, PartialEq, Eq, Structural)]
pub struct DataUseState {
    pub num_readers: usize,
    pub write_active: bool,
}

impl DataUseState {
    pub fn new() -> (r: DataUseState)
        ensures
            r == (DataUseState { num_readers: 0, write_active: false }),
    {
        DataUseState { num_readers: 0, write_active: false }
    }
}

/// The data a pass requests, each with how it is requested.
pub struct PassRequiredRes {
    pub pid: String,
    pub did_and_req_types: Vec<(String, DataReqType)>,
}

/// The characters of each requested datum, with its request type.
pub open spec fn reqs_view(v: Seq<(String, DataReqType)>) -> Seq<(Seq<char>, DataReqType)> {
    v.map_values(|e: (String, DataReqType)| (e.0@, e.1))
}

impl PassRequiredRes {
    pub open spec fn reqs(&self) -> Seq<(Seq<char>, DataReqType)> {
        reqs_view(self.did_and_req_types@)
    }

    pub fn new(p_id: String, d_ids: Vec<(String, DataReqType)>) -> (r: PassRequiredRes)
        ensures
            r.pid == p_id,
            r.did_and_req_types == d_ids,
    {
        PassRequiredRes { pid: p_id, did_and_req_types: d_ids }
    }
}

/// How many times `req` asks to read `d`.
pub open spec fn count_reads(req: Seq<(Seq<char>, DataReqType)>, d: Seq<char>) -> nat
    decreases req.len(),
{
    if req.len() == 0 {
        0
    } else {
        count_reads(req.drop_last(), d) + if req.last() == (d, DataReqType::READ) {
            1nat
        } else {
            0nat
        }
    }
}

/// `req` asks to write `d`.
pub open spec fn has_write(req: Seq<(Seq<char>, DataReqType)>, d: Seq<char>) -> bool {
    exists|i: int| 0 <= i < req.len() && #[trigger] req[i] == (d, DataReqType::WRITE)
}

/// Every datum that `req` names is tracked in `state`.
pub open spec fn req_in_domain(
    state: Map<Seq<char>, DataUseState>,
    req: Seq<(Seq<char>, DataReqType)>,
) -> bool {
    forall|i: int| 0 <= i < req.len() ==> state.dom().contains(#[trigger] req[i].0)
}

/// Nothing `req` reads is being written, and nothing it writes is being read.
pub open spec fn req_available(
    state: Map<Seq<char>, DataUseState>,
    req: Seq<(Seq<char>, DataReqType)>,
) -> bool {
    forall|i: int|
        0 <= i < req.len() ==> match (#[trigger] req[i]).1 {
            DataReqType::READ => !state[req[i].0].write_active,
            DataReqType::WRITE => state[req[i].0].num_readers == 0,
        }
}

/// Taking the reads of `req` keeps every reader count within `usize`.
pub open spec fn req_fits(state: Map<Seq<char>, DataUseState>, req: Seq<(Seq<char>, DataReqType)>) -> bool {
    forall|i: int|
        0 <= i < req.len() && (#[trigger] req[i]).1 == DataReqType::READ ==> state[req[i].0].num_readers
            + count_reads(req, req[i].0) <= usize::MAX
}

/// `state` after the pass with requests `req` has taken them.
pub open spec fn acquired(
    state: Map<Seq<char>, DataUseState>,
    req: Seq<(Seq<char>, DataReqType)>,
) -> Map<Seq<char>, DataUseState> {
    Map::new(
        |d: Seq<char>| state.dom().contains(d),
        |d: Seq<char>|
            DataUseState {
                num_readers: (state[d].num_readers + count_reads(req, d)) as usize,
                write_active: state[d].write_active || has_write(req, d),
            },
    )
}

/// `state` after the pass with requests `req` has given them back. A reader
/// count never goes below zero.
pub open spec fn released(
    state: Map<Seq<char>, DataUseState>,
    req: Seq<(Seq<char>, DataReqType)>,
) -> Map<Seq<char>, DataUseState> {
    Map::new(
        |d: Seq<char>| state.dom().contains(d),
        |d: Seq<char>|
            DataUseState {
                num_readers: if state[d].num_readers >= count_reads(req, d) {
                    (state[d].num_readers - count_reads(req, d)) as usize
                } else {
                    0usize
                },
                write_active: state[d].write_active && !has_write(req, d),
            },
    )
}

/// No datum is both read and written.
pub open spec fn exclusive(state: Map<Seq<char>, DataUseState>) -> bool {
    forall|d: Seq<char>|
        state.dom().contains(d) && (#[trigger] state[d]).num_readers > 0 ==> !state[d].write_active
}

/// `req` never both reads and writes the same datum.
pub open spec fn self_consistent(req: Seq<(Seq<char>, DataReqType)>) -> bool {
    forall|d: Seq<char>| !(count_reads(req, d) > 0 && #[trigger] has_write(req, d))
}

proof fn lemma_count_reads_prefix(req: Seq<(Seq<char>, DataReqType)>, j: int, d: Seq<char>)
    requires
        0 <= j <= req.len(),
    ensures
        count_reads(req.take(j), d) <= count_reads(req, d),
    decreases req.len() - j,
{
    if j < req.len() {
        lemma_count_reads_prefix(req, j + 1, d);
        assert(req.take(j + 1).drop_last() =~= req.take(j));
    } else {
        assert(req.take(j) =~= req);
    }
}

/// A pass asks to read a datum no more times than it makes requests.
pub proof fn lemma_count_reads_le_len(req: Seq<(Seq<char>, DataReqType)>, d: Seq<char>)
    ensures
        count_reads(req, d) <= req.len(),
    decreases req.len(),
{
    if req.len() > 0 {
        lemma_count_reads_le_len(req.drop_last(), d);
    }
}

pub proof fn lemma_count_reads_member(req: Seq<(Seq<char>, DataReqType)>, d: Seq<char>)
    requires
        count_reads(req, d) > 0,
    ensures
        exists|i: int| 0 <= i < req.len() && #[trigger] req[i] == (d, DataReqType::READ),
    decreases req.len(),
{
    if req.last() == (d, DataReqType::READ) {
        assert(req[req.len() - 1] == (d, DataReqType::READ));
    } else {
        lemma_count_reads_member(req.drop_last(), d);
        let i = choose|i: int| 0 <= i < req.drop_last().len() && #[trigger] req.drop_last()[i] == (d, DataReqType::READ);
        assert(req[i] == req.drop_last()[i]);
    }
}

proof fn lemma_step(req: Seq<(Seq<char>, DataReqType)>, i: int, d: Seq<char>)
    requires
        0 <= i < req.len(),
    ensures
        count_reads(req.take(i + 1), d) == count_reads(req.take(i), d) + if req[i] == (
            d,
            DataReqType::READ,
        ) {
            1nat
        } else {
            0nat
        },
        has_write(req.take(i + 1), d) == (has_write(req.take(i), d) || req[i] == (
            d,
            DataReqType::WRITE,
        )),
{
    assert(req.take(i + 1).drop_last() =~= req.take(i));
    assert(req.take(i + 1).last() == req[i]);
    if has_write(req.take(i + 1), d) && !(req[i] == (d, DataReqType::WRITE)) {
        let j = choose|j: int| 0 <= j < req.take(i + 1).len() && #[trigger] req.take(i + 1)[j] == (d, DataReqType::WRITE);
        assert(req.take(i)[j] == req.take(i + 1)[j]);
    }
    if has_write(req.take(i), d) {
        let j = choose|j: int| 0 <= j < req.take(i).len() && #[trigger] req.take(i)[j] == (d, DataReqType::WRITE);
        assert(req.take(i + 1)[j] == req.take(i)[j]);
    }
    if req[i] == (d, DataReqType::WRITE) {
        assert(req.take(i + 1)[i] == req[i]);
    }
}

proof fn lemma_empty_req(state: Map<Seq<char>, DataUseState>, req: Seq<(Seq<char>, DataReqType)>)
    ensures
        acquired(state, req.take(0)) == state,
        released(state, req.take(0)) == state,
{
    assert forall|d: Seq<char>| !has_write(req.take(0), d) by {}
    assert(acquired(state, req.take(0)) =~= state);
    assert(released(state, req.take(0)) =~= state);
}

/// How each tracked datum is held.
pub struct DataUsageState {
    pub state: IdMap<DataUseState>,
}

impl DataUsageState {
    pub open spec fn view(&self) -> Map<Seq<char>, DataUseState> {
        self.state@
    }

    pub open spec fn wf(&self) -> bool {
        self.state.wf()
    }

    /// Every datum of `data_ids` tracked, none held.
    pub fn new(data_ids: &Vec<String>) -> (r: DataUsageState)
        ensures
            r.wf(),
            r@.dom() == names_of(data_ids@).to_set(),
            forall|d: Seq<char>|
                #[trigger] r@.dom().contains(d) ==> r@[d] == (DataUseState {
                    num_readers: 0,
                    write_active: false,
                }),
    {
        let mut state: IdMap<DataUseState> = IdMap::new();
        let n = data_ids.len();
        let mut i: usize = 0;
        while i < n
            invariant
                n == data_ids@.len(),
                i <= n,
                state.wf(),
                state@.dom() == names_of(data_ids@).take(i as int).to_set(),
                forall|d: Seq<char>|
                    #[trigger] state@.dom().contains(d) ==> state@[d] == (DataUseState {
                        num_readers: 0,
                        write_active: false,
                    }),
            decreases n - i,
        {
            state.insert(data_ids[i].clone(), DataUseState::new());
            proof {
                let s = names_of(data_ids@);
                assert(s.take(i + 1) =~= s.take(i as int).push(s[i as int]));
                s.take(i as int).lemma_push_to_set_commute(s[i as int]);
            }
            i = i + 1;
        }
        assert(names_of(data_ids@).take(n as int) =~= names_of(data_ids@));
        DataUsageState { state }
    }

    fn get_state(&self, did: &String) -> (r: DataUseState)
        requires
            self.wf(),
            self@.dom().contains(did@),
        ensures
            r == self@[did@],
    {
        match self.state.get(did) {
            Some(s) => *s,
            None => {
                proof {
                    assert(false);
                }
                DataUseState::new()
            },
        }
    }

    fn put_state(&mut self, did: &String, s: DataUseState)
        requires
            old(self).wf(),
            old(self)@.dom().contains(did@),
        ensures
            final(self).wf(),
            final(self)@ == old(self)@.insert(did@, s),
            final(self).state.keys() == old(self).state.keys(),
    {
        self.state.insert(did.clone(), s);
    }

    /// Whether the pass can take what `p_req_res` requests now.
    pub fn pass_req_res_are_avail(&self, p_req_res: &PassRequiredRes) -> (b: bool)
        requires
            self.wf(),
            req_in_domain(self@, p_req_res.reqs()),
        ensures
            b == req_available(self@, p_req_res.reqs()),
    {
        let reqs = &p_req_res.did_and_req_types;
        let n = reqs.len();
        let mut i: usize = 0;
        while i < n
            invariant
                n == reqs@.len(),
                self.wf(),
                req_in_domain(self@, p_req_res.reqs()),
                reqs == p_req_res.did_and_req_types,
                i <= n,
                forall|j: int|
                    0 <= j < i ==> match (#[trigger] p_req_res.reqs()[j]).1 {
                        DataReqType::READ => !self@[p_req_res.reqs()[j].0].write_active,
                        DataReqType::WRITE => self@[p_req_res.reqs()[j].0].num_readers == 0,
                    },
            decreases n - i,
        {
            let ghost e = p_req_res.reqs()[i as int];
            let did = &reqs[i].0;
            assert(e.0 == did@);
            let s = self.get_state(did);
            match reqs[i].1 {
                DataReqType::READ => {
                    if s.write_active == true {
                        return false;
                    }
                },
                DataReqType::WRITE => {
                    if s.num_readers > 0 {
                        return false;
                    }
                },
            }
            i = i + 1;
        }
        true
    }

    /// How many times `p_req_res` asks to read `did`.
    fn reads_of(p_req_res: &PassRequiredRes, did: &String) -> (c: usize)
        ensures
            c == count_reads(p_req_res.reqs(), did@),
    {
        let reqs = &p_req_res.did_and_req_types;
        let n = reqs.len();
        let mut c: usize = 0;
        let mut i: usize = 0;
        while i < n
            invariant
                n == reqs@.len(),
                reqs == p_req_res.did_and_req_types,
                i <= n,
                c <= i,
                c == count_reads(p_req_res.reqs().take(i as int), did@),
            decreases n - i,
        {
            proof {
                lemma_step(p_req_res.reqs(), i as int, did@);
            }
            if reqs[i].0 == *did && reqs[i].1 == DataReqType::READ {
                c = c + 1;
            }
            i = i + 1;
        }
        assert(p_req_res.reqs().take(n as int) =~= p_req_res.reqs());
        c
    }

    /// Whether taking the reads of `p_req_res` keeps every reader count within `usize`.
    pub fn reader_counts_fit(&self, p_req_res: &PassRequiredRes) -> (b: bool)
        requires
            self.wf(),
            req_in_domain(self@, p_req_res.reqs()),
        ensures
            b == req_fits(self@, p_req_res.reqs()),
    {
        let reqs = &p_req_res.did_and_req_types;
        let n = reqs.len();
        let mut i: usize = 0;
        while i < n
            invariant
                n == reqs@.len(),
                self.wf(),
                req_in_domain(self@, p_req_res.reqs()),
                reqs == p_req_res.did_and_req_types,
                i <= n,
                forall|j: int|
                    0 <= j < i && (#[trigger] p_req_res.reqs()[j]).1 == DataReqType::READ
                        ==> self@[p_req_res.reqs()[j].0].num_readers + count_reads(
                        p_req_res.reqs(),
                        p_req_res.reqs()[j].0,
                    ) <= usize::MAX,
            decreases n - i,
        {
            let ghost e = p_req_res.reqs()[i as int];
            assert(e.0 == reqs@[i as int].0@ && e.1 == reqs@[i as int].1);
            if reqs[i].1 == DataReqType::READ {
                let s = self.get_state(&reqs[i].0);
                let c = Self::reads_of(p_req_res, &reqs[i].0);
                if s.num_readers > usize::MAX - c {
                    return false;
                }
            }
            i = i + 1;
        }
        true
    }

    /// Takes what `p_req_res` requests: a reader more for each read, the
    /// writer flag for each write.
    pub fn acquire_req_res_for_pass(&mut self, p_req_res: &PassRequiredRes)
        requires
            old(self).wf(),
            req_in_domain(old(self)@, p_req_res.reqs()),
            req_fits(old(self)@, p_req_res.reqs()),
        ensures
            final(self).wf(),
            final(self)@ == acquired(old(self)@, p_req_res.reqs()),
            final(self).state.keys() == old(self).state.keys(),
    {
        let ghost req = p_req_res.reqs();
        let reqs = &p_req_res.did_and_req_types;
        let n = reqs.len();
        let mut i: usize = 0;
        proof {
            lemma_empty_req(old(self)@, req);
        }
        while i < n
            invariant
                n == req.len(),
                req == p_req_res.reqs(),
                reqs == p_req_res.did_and_req_types,
                self.wf(),
                req_in_domain(old(self)@, req),
                req_fits(old(self)@, req),
                self.state.keys() == old(self).state.keys(),
                i <= n,
                self@ == acquired(old(self)@, req.take(i as int)),
            decreases n - i,
        {
            let did = &reqs[i].0;
            let ghost d = did@;
            assert(req[i as int].0 == d);
            assert(old(self)@.dom().contains(d));
            let s = self.get_state(did);
            proof {
                lemma_step(req, i as int, d);
                lemma_count_reads_prefix(req, i + 1, d);
                assert forall|x: Seq<char>| x != d implies count_reads(req.take(i + 1), x)
                    == count_reads(req.take(i as int), x) && has_write(req.take(i + 1), x)
                    == has_write(req.take(i as int), x) by {
                    lemma_step(req, i as int, x);
                }
            }
            match reqs[i].1 {
                DataReqType::READ => {
                    let ns = DataUseState { num_readers: s.num_readers + 1, write_active: s.write_active };
                    self.put_state(did, ns);
                },
                DataReqType::WRITE => {
                    let ns = DataUseState { num_readers: s.num_readers, write_active: true };
                    self.put_state(did, ns);
                },
            }
            assert(self@ =~= acquired(old(self)@, req.take(i + 1)));
            i = i + 1;
        }
        assert(req.take(n as int) =~= req);
    }

    /// Gives back what `p_req_res` requested: a reader less for each read
    /// (never below zero), the writer flag cleared for each write.
    pub fn release_resources_of_completed_pass(&mut self, res_used_by_pass: &PassRequiredRes)
        requires
            old(self).wf(),
            req_in_domain(old(self)@, res_used_by_pass.reqs()),
        ensures
            final(self).wf(),
            final(self)@ == released(old(self)@, res_used_by_pass.reqs()),
            final(self).state.keys() == old(self).state.keys(),
    {
        let ghost req = res_used_by_pass.reqs();
        let reqs = &res_used_by_pass.did_and_req_types;
        let n = reqs.len();
        let mut i: usize = 0;
        proof {
            lemma_empty_req(old(self)@, req);
        }
        while i < n
            invariant
                n == req.len(),
                req == res_used_by_pass.reqs(),
                reqs == res_used_by_pass.did_and_req_types,
                self.wf(),
                req_in_domain(old(self)@, req),
                self.state.keys() == old(self).state.keys(),
                i <= n,
                self@ == released(old(self)@, req.take(i as int)),
            decreases n - i,
        {
            let did = &reqs[i].0;
            let ghost d = did@;
            assert(req[i as int].0 == d);
            assert(old(self)@.dom().contains(d));
            let s = self.get_state(did);
            proof {
                lemma_step(req, i as int, d);
                assert forall|x: Seq<char>| x != d implies count_reads(req.take(i + 1), x)
                    == count_reads(req.take(i as int), x) && has_write(req.take(i + 1), x)
                    == has_write(req.take(i as int), x) by {
                    lemma_step(req, i as int, x);
                }
            }
            match reqs[i].1 {
                DataReqType::READ => {
                    let left = if s.num_readers > 0 {
                        s.num_readers - 1
                    } else {
                        0
                    };
                    let ns = DataUseState { num_readers: left, write_active: s.write_active };
                    self.put_state(did, ns);
                },
                DataReqType::WRITE => {
                    let ns = DataUseState { num_readers: s.num_readers, write_active: false };
                    self.put_state(did, ns);
                },
            }
            assert(self@ =~= released(old(self)@, req.take(i + 1)));
            i = i + 1;
        }
        assert(req.take(n as int) =~= req);
    }
}

/// Giving back what was just taken restores how every datum was held, when
/// the counts fit and nothing the pass writes was being written.
pub proof fn lemma_release_undoes_acquire(
    state: Map<Seq<char>, DataUseState>,
    req: Seq<(Seq<char>, DataReqType)>,
)
    requires
        forall|d: Seq<char>|
            state.dom().contains(d) ==> state[d].num_readers + count_reads(req, d) <= usize::MAX,
        forall|d: Seq<char>| state.dom().contains(d) && #[trigger] has_write(req, d) ==> !state[d].write_active,
    ensures
        released(acquired(state, req), req) == state,
{
    let a = acquired(state, req);
    assert forall|d: Seq<char>| state.dom().contains(d) implies #[trigger] released(a, req)[d] == state[d] by {
        assert(a[d].num_readers == state[d].num_readers + count_reads(req, d));
    }
    assert(released(a, req) =~= state);
}

/// Taking what a pass requests, when it is available and the pass never both
/// reads and writes the same datum, keeps every datum from being both read
/// and written.
pub proof fn lemma_acquire_keeps_exclusive(
    state: Map<Seq<char>, DataUseState>,
    req: Seq<(Seq<char>, DataReqType)>,
)
    requires
        exclusive(state),
        req_available(state, req),
        self_consistent(req),
    ensures
        exclusive(acquired(state, req)),
{
    let a = acquired(state, req);
    assert forall|d: Seq<char>| a.dom().contains(d) && (#[trigger] a[d]).num_readers > 0 implies !a[d].write_active by {
        if count_reads(req, d) > 0 {
            lemma_count_reads_member(req, d);
            let i = choose|i: int| 0 <= i < req.len() && #[trigger] req[i] == (d, DataReqType::READ);
            assert(match req[i].1 {
                DataReqType::READ => !state[req[i].0].write_active,
                DataReqType::WRITE => state[req[i].0].num_readers == 0,
            });
            assert(!has_write(req, d));
        } else {
            if has_write(req, d) {
                let i = choose|i: int| 0 <= i < req.len() && #[trigger] req[i] == (d, DataReqType::WRITE);
                assert(match req[i].1 {
                    DataReqType::READ => !state[req[i].0].write_active,
                    DataReqType::WRITE => state[req[i].0].num_readers == 0,
                });
            }
        }
    }
}

/// Giving back what a pass holds keeps every datum from being both read and written.
pub proof fn lemma_release_keeps_exclusive(
    state: Map<Seq<char>, DataUseState>,
    req: Seq<(Seq<char>, DataReqType)>,
)
    requires
        exclusive(state),
    ensures
        exclusive(released(state, req)),
{
}


/// What a pass cannot take now, it cannot take either after another pass
/// has taken what it requests.
pub proof fn lemma_acquire_keeps_unavailable(
    state: Map<Seq<char>, DataUseState>,
    taken: Seq<(Seq<char>, DataReqType)>,
    req: Seq<(Seq<char>, DataReqType)>,
)
    requires
        req_in_domain(state, req),
        req_fits(state, taken),
        !(req_available(state, req) && req_fits(state, req)),
    ensures
        !(req_available(acquired(state, taken), req) && req_fits(acquired(state, taken), req)),
{
    let a = acquired(state, taken);
    assert forall|d: Seq<char>| state.dom().contains(d) implies #[trigger] a[d].num_readers >= state[d].num_readers
        && (state[d].write_active ==> a[d].write_active) by {
        if count_reads(taken, d) > 0 {
            lemma_count_reads_member(taken, d);
            let i = choose|i: int| 0 <= i < taken.len() && #[trigger] taken[i] == (d, DataReqType::READ);
            assert(taken[i].1 == DataReqType::READ);
        }
    }
    if !req_available(state, req) {
        let i = choose|i: int|
            0 <= i < req.len() && !match (#[trigger] req[i]).1 {
                DataReqType::READ => !state[req[i].0].write_active,
                DataReqType::WRITE => state[req[i].0].num_readers == 0,
            };
        assert(state.dom().contains(req[i].0));
        assert(a[req[i].0].num_readers >= state[req[i].0].num_readers);
    } else {
        let i = choose|i: int|
            0 <= i < req.len() && (#[trigger] req[i]).1 == DataReqType::READ && !(state[req[i].0].num_readers
                + count_reads(req, req[i].0) <= usize::MAX);
        assert(state.dom().contains(req[i].0));
        assert(a[req[i].0].num_readers >= state[req[i].0].num_readers);
    }
}

} // verus!
