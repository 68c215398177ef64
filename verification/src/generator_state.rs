//! Registration of generation passes: the raw registration builders,
//! the checks that a registration must pass, and the extraction of the
//! raw registration into the tables the scheduler works from.
use vstd::prelude::*;

use crate::id_map::IdMap;
use crate::report::{
    append_parent_and_child_elements_to_string, bullet_lines, names_of, pairs_view,
    parent_child_lines, write_strs_as_bullets,
};

verus! {

/// The kinds of single-valued information a pass can carry.
#[derive(PartialEq, Eq, Structural)]
pub enum PassInfoDataKeys {
    PassDesc,
}

/// The kinds of list-valued information a pass can carry.
#[derive(PartialEq, Eq, Structural, Clone, Copy)]
pub enum PassInfoGroupedDataKeys {
    ReqParm,
    ReadAcc,
    WriteAcc,
    CreateAcc,
    PrereqPass,
}

/// What a user registers about one pass. `F` is the pass's run function.
pub struct RawPassInfo<F> {
    name: String,
    run_func: F,
    pass_desc: Option<String>,
    req_params: Vec<String>,
    read_acc: Vec<String>,
    write_acc: Vec<String>,
    create_acc: Vec<String>,
    prereq_passes: Vec<String>,
}

impl<F> RawPassInfo<F> {
    pub closed spec fn name_view(&self) -> Seq<char> {
        self.name@
    }

    pub closed spec fn run_func_view(&self) -> F {
        self.run_func
    }

    pub closed spec fn desc_view(&self) -> Option<Seq<char>> {
        match self.pass_desc {
            Some(d) => Some(d@),
            None => None,
        }
    }

    /// The entries registered under `key`, in registration order.
    pub closed spec fn group(&self, key: PassInfoGroupedDataKeys) -> Seq<Seq<char>> {
        match key {
            PassInfoGroupedDataKeys::ReqParm => names_of(self.req_params@),
            PassInfoGroupedDataKeys::ReadAcc => names_of(self.read_acc@),
            PassInfoGroupedDataKeys::WriteAcc => names_of(self.write_acc@),
            PassInfoGroupedDataKeys::CreateAcc => names_of(self.create_acc@),
            PassInfoGroupedDataKeys::PrereqPass => names_of(self.prereq_passes@),
        }
    }

    /// A pass named `name` that runs `run_func`, with nothing else registered.
    pub fn new(name: &str, run_func: F) -> (r: RawPassInfo<F>)
        ensures
            r.name_view() == name@,
            r.run_func_view() == run_func,
            r.desc_view() == None::<Seq<char>>,
            forall|k: PassInfoGroupedDataKeys| #[trigger] r.group(k) == Seq::<Seq<char>>::empty(),
    {
        let r = RawPassInfo {
            name: name.to_owned(),
            run_func,
            pass_desc: None,
            req_params: Vec::new(),
            read_acc: Vec::new(),
            write_acc: Vec::new(),
            create_acc: Vec::new(),
            prereq_passes: Vec::new(),
        };
        assert forall|k: PassInfoGroupedDataKeys| #[trigger] r.group(k) == Seq::<Seq<char>>::empty() by {
            assert(r.group(k) =~= Seq::<Seq<char>>::empty());
        }
        r
    }

    /// Sets (or replaces) the pass's description.
    pub fn set_pass_desc(self, pass_desc: String) -> (r: Self)
        ensures
            r.name_view() == self.name_view(),
            r.run_func_view() == self.run_func_view(),
            r.desc_view() == Some(pass_desc@),
            forall|k: PassInfoGroupedDataKeys| #[trigger] r.group(k) == self.group(k),
    {
        self.add_data(PassInfoDataKeys::PassDesc, pass_desc)
    }

    /// Registers a parameter that the pass needs.
    pub fn add_req_param(self, param_key: &str) -> (r: Self)
        ensures
            r.same_except_group(self, PassInfoGroupedDataKeys::ReqParm, param_key@),
    {
        self.add_grouped_data(PassInfoGroupedDataKeys::ReqParm, param_key)
    }

    /// Registers data that the pass reads.
    pub fn add_data_read_access(self, data_key: &str) -> (r: Self)
        ensures
            r.same_except_group(self, PassInfoGroupedDataKeys::ReadAcc, data_key@),
    {
        self.add_grouped_data(PassInfoGroupedDataKeys::ReadAcc, data_key)
    }

    /// Registers data that the pass modifies.
    pub fn add_data_write_access(self, data_key: &str) -> (r: Self)
        ensures
            r.same_except_group(self, PassInfoGroupedDataKeys::WriteAcc, data_key@),
    {
        self.add_grouped_data(PassInfoGroupedDataKeys::WriteAcc, data_key)
    }

    /// Registers data that the pass creates.
    pub fn add_data_create_access(self, data_key: &str) -> (r: Self)
        ensures
            r.same_except_group(self, PassInfoGroupedDataKeys::CreateAcc, data_key@),
    {
        self.add_grouped_data(PassInfoGroupedDataKeys::CreateAcc, data_key)
    }

    /// Registers a pass that must have completed before this one runs.
    pub fn add_prereq_pass(self, prereq_pass_name: &str) -> (r: Self)
        ensures
            r.same_except_group(self, PassInfoGroupedDataKeys::PrereqPass, prereq_pass_name@),
    {
        self.add_grouped_data(PassInfoGroupedDataKeys::PrereqPass, prereq_pass_name)
    }

    /// `self` is `old` with `item` appended to the entries under `key`, and nothing else changed.
    pub open spec fn same_except_group(
        self,
        old: Self,
        key: PassInfoGroupedDataKeys,
        item: Seq<char>,
    ) -> bool {
        &&& self.name_view() == old.name_view()
        &&& self.run_func_view() == old.run_func_view()
        &&& self.desc_view() == old.desc_view()
        &&& self.group(key) == old.group(key).push(item)
        &&& forall|k: PassInfoGroupedDataKeys| k != key ==> #[trigger] self.group(k) == old.group(k)
    }

    fn add_data(self, info_type: PassInfoDataKeys, data: String) -> (r: Self)
        ensures
            r.name_view() == self.name_view(),
            r.run_func_view() == self.run_func_view(),
            r.desc_view() == Some(data@),
            forall|k: PassInfoGroupedDataKeys| #[trigger] r.group(k) == self.group(k),
    {
        let mut s = self;
        match info_type {
            PassInfoDataKeys::PassDesc => {
                s.pass_desc = Some(data);
            },
        }
        s
    }

    fn add_grouped_data(self, info_type: PassInfoGroupedDataKeys, data: &str) -> (r: Self)
        ensures
            r.same_except_group(self, info_type, data@),
    {
        let mut s = self;
        let item = data.to_owned();
        match info_type {
            PassInfoGroupedDataKeys::ReqParm => s.req_params.push(item),
            PassInfoGroupedDataKeys::ReadAcc => s.read_acc.push(item),
            PassInfoGroupedDataKeys::WriteAcc => s.write_acc.push(item),
            PassInfoGroupedDataKeys::CreateAcc => s.create_acc.push(item),
            PassInfoGroupedDataKeys::PrereqPass => s.prereq_passes.push(item),
        }
        assert(s.group(info_type) =~= self.group(info_type).push(data@));
        assert forall|k: PassInfoGroupedDataKeys| k != info_type implies #[trigger] s.group(k)
            == self.group(k) by {
            assert(s.group(k) =~= self.group(k));
        }
        s
    }
}

/// Everything registered for a generation run. `P` is a parameter value,
/// `F` a pass's run function.
pub struct RawRegistrationInfo<P, F> {
    parameters: IdMap<P>,
    info_for_passes: Vec<RawPassInfo<F>>,
    max_threads: usize,
}

impl<P, F> RawRegistrationInfo<P, F> {
    #[verifier::type_invariant]
    closed spec fn inv(&self) -> bool {
        self.parameters.wf()
    }

    pub closed spec fn params_view(&self) -> Map<Seq<char>, P> {
        self.parameters@
    }

    pub closed spec fn passes(&self) -> Seq<RawPassInfo<F>> {
        self.info_for_passes@
    }

    pub closed spec fn max_threads_view(&self) -> usize {
        self.max_threads
    }

    /// An empty registration for a run on at most `max_threads` threads.
    pub fn new(max_threads: usize) -> (r: RawRegistrationInfo<P, F>)
        ensures
            r.params_view() == Map::<Seq<char>, P>::empty(),
            r.passes() == Seq::<RawPassInfo<F>>::empty(),
            r.max_threads_view() == max_threads,
    {
        RawRegistrationInfo { parameters: IdMap::new(), info_for_passes: Vec::new(), max_threads }
    }

    /// Sets (or replaces) the parameter `p_key`.
    pub fn add_param(self, p_key: &str, p_val: P) -> (r: Self)
        ensures
            r.params_view() == self.params_view().insert(p_key@, p_val),
            r.passes() == self.passes(),
            r.max_threads_view() == self.max_threads_view(),
    {
        proof {
            use_type_invariant(&self);
        }
        let RawRegistrationInfo { mut parameters, info_for_passes, max_threads } = self;
        parameters.insert(p_key.to_owned(), p_val);
        RawRegistrationInfo { parameters, info_for_passes, max_threads }
    }

    /// Appends a pass to the registration.
    pub fn add_pass_reg_info(self, pass_info: RawPassInfo<F>) -> (r: Self)
        ensures
            r.params_view() == self.params_view(),
            r.passes() == self.passes().push(pass_info),
            r.max_threads_view() == self.max_threads_view(),
    {
        proof {
            use_type_invariant(&self);
        }
        let RawRegistrationInfo { parameters, mut info_for_passes, max_threads } = self;
        info_for_passes.push(pass_info);
        RawRegistrationInfo { parameters, info_for_passes, max_threads }
    }
}


// ---------------------------------------------------------------------------
// What a registration holds once it has been processed.

/// Settings of a run that belong to no pass.
pub struct NonPassData {
    pub max_threads: usize,
}

impl NonPassData {
    pub(crate) fn new(max_threads: usize) -> (r: NonPassData)
        ensures
            r.max_threads == max_threads,
    {
        NonPassData { max_threads }
    }
}

/// The parameters of a run, and the data that passes have created.
pub struct ParamsAndData<P, D> {
    pub params: IdMap<P>,
    pub data: IdMap<D>,
}

/// What the scheduler hands to passes: parameters, data, run functions.
pub struct PassCoreData<P, F, D> {
    pub params_and_data: ParamsAndData<P, D>,
    pub run_funcs: IdMap<F>,
}

/// For each pass, by name, the lists registered under each kind. A pass
/// has an entry in a table only if it registered something of that kind.
pub struct PassMappings {
    pub pass_data_req_params: IdMap<Vec<String>>,
    pub pass_data_read_reqs: IdMap<Vec<String>>,
    pub pass_data_write_reqs: IdMap<Vec<String>>,
    pub pass_data_create_reqs: IdMap<Vec<String>>,
    pub prereq_passes_of_passes: IdMap<Vec<String>>,
}

/// The names, descriptions and tables of the registered passes.
pub struct PassMetaData {
    pub pass_names: Vec<String>,
    pub pass_descs: IdMap<String>,
    pub pass_mappings: PassMappings,
}

pub struct PassData<P, F, D> {
    pub pass_core_data: PassCoreData<P, F, D>,
    pub pass_meta_data: PassMetaData,
}

/// A registration that has passed the checks.
pub struct RegisteredInfo<P, F, D> {
    pub pass_data: PassData<P, F, D>,
    pub non_pass_data: NonPassData,
}

/// A table of lists, viewed as a map to the lists' characters.
pub open spec fn group_view(m: IdMap<Vec<String>>) -> Map<Seq<char>, Seq<Seq<char>>> {
    m@.map_values(|v: Vec<String>| names_of(v@))
}

/// A table of lists as (key, list) pairs in the table's order.
pub open spec fn entries_view(m: IdMap<Vec<String>>) -> Seq<(Seq<char>, Seq<Seq<char>>)> {
    Seq::new(m.keys().len(), |i: int| (m.keys()[i], names_of(m.vals()[i]@)))
}

/// The descriptions, viewed as a map to their characters.
pub open spec fn desc_view(m: IdMap<String>) -> Map<Seq<char>, Seq<char>> {
    m@.map_values(|s: String| s@)
}

impl PassMappings {
    /// The table that holds the entries registered under `key`.
    pub open spec fn table(&self, key: PassInfoGroupedDataKeys) -> IdMap<Vec<String>> {
        match key {
            PassInfoGroupedDataKeys::ReqParm => self.pass_data_req_params,
            PassInfoGroupedDataKeys::ReadAcc => self.pass_data_read_reqs,
            PassInfoGroupedDataKeys::WriteAcc => self.pass_data_write_reqs,
            PassInfoGroupedDataKeys::CreateAcc => self.pass_data_create_reqs,
            PassInfoGroupedDataKeys::PrereqPass => self.prereq_passes_of_passes,
        }
    }

    pub open spec fn wf(&self) -> bool {
        &&& self.pass_data_req_params.wf()
        &&& self.pass_data_read_reqs.wf()
        &&& self.pass_data_write_reqs.wf()
        &&& self.pass_data_create_reqs.wf()
        &&& self.prereq_passes_of_passes.wf()
    }
}

impl PassMetaData {
    pub open spec fn wf(&self) -> bool {
        &&& self.pass_descs.wf()
        &&& self.pass_mappings.wf()
    }

    /// The names of the registered passes, in registration order.
    pub fn get_pass_ids(&self) -> (r: Vec<String>)
        ensures
            r@ == self.pass_names@,
    {
        self.pass_names.clone()
    }
}

impl<P, F, D> PassData<P, F, D> {
    pub open spec fn wf(&self) -> bool {
        &&& self.pass_core_data.params_and_data.params.wf()
        &&& self.pass_core_data.params_and_data.data.wf()
        &&& self.pass_core_data.run_funcs.wf()
        &&& self.pass_meta_data.wf()
    }

    pub(crate) fn new() -> (r: PassData<P, F, D>)
        ensures
            r.wf(),
            r.pass_core_data.params_and_data.params@ == Map::<Seq<char>, P>::empty(),
            r.pass_core_data.params_and_data.data@ == Map::<Seq<char>, D>::empty(),
            r.pass_core_data.run_funcs@ == Map::<Seq<char>, F>::empty(),
            r.pass_meta_data.pass_names@ == Seq::<String>::empty(),
            r.pass_meta_data.pass_descs@ == Map::<Seq<char>, String>::empty(),
            forall|k: PassInfoGroupedDataKeys|
                #[trigger] r.pass_meta_data.pass_mappings.table(k).keys() == Seq::<Seq<char>>::empty(),
    {
        PassData {
            pass_core_data: PassCoreData {
                params_and_data: ParamsAndData { params: IdMap::new(), data: IdMap::new() },
                run_funcs: IdMap::new(),
            },
            pass_meta_data: PassMetaData {
                pass_names: Vec::new(),
                pass_descs: IdMap::new(),
                pass_mappings: PassMappings {
                    pass_data_req_params: IdMap::new(),
                    pass_data_read_reqs: IdMap::new(),
                    pass_data_write_reqs: IdMap::new(),
                    pass_data_create_reqs: IdMap::new(),
                    prereq_passes_of_passes: IdMap::new(),
                },
            },
        }
    }
}

impl<P, F, D> RegisteredInfo<P, F, D> {
    pub open spec fn wf(&self) -> bool {
        self.pass_data.wf()
    }

    pub(crate) fn new(non_pass_data: NonPassData, params: IdMap<P>) -> (r: RegisteredInfo<P, F, D>)
        requires
            params.wf(),
        ensures
            r.wf(),
            r.non_pass_data == non_pass_data,
            r.pass_data.pass_core_data.params_and_data.params == params,
            r.pass_data.pass_core_data.params_and_data.data@ == Map::<Seq<char>, D>::empty(),
            r.pass_data.pass_core_data.run_funcs@ == Map::<Seq<char>, F>::empty(),
            r.pass_data.pass_meta_data.pass_names@ == Seq::<String>::empty(),
            r.pass_data.pass_meta_data.pass_descs@ == Map::<Seq<char>, String>::empty(),
            forall|k: PassInfoGroupedDataKeys|
                #[trigger] r.pass_data.pass_meta_data.pass_mappings.table(k).keys()
                    == Seq::<Seq<char>>::empty(),
    {
        let mut pass_data: PassData<P, F, D> = PassData::new();
        pass_data.pass_core_data.params_and_data.params = params;
        RegisteredInfo { pass_data, non_pass_data }
    }

    /// `self` is what extracting `raw` gives.
    pub open spec fn is_extraction_of(&self, raw: RawRegistrationInfo<P, F>) -> bool {
        let ps = raw.passes();
        let meta = self.pass_data.pass_meta_data;
        &&& self.wf()
        &&& self.non_pass_data.max_threads == raw.max_threads_view()
        &&& self.pass_data.pass_core_data.params_and_data.params@ == raw.params_view()
        &&& self.pass_data.pass_core_data.params_and_data.data@ == Map::<Seq<char>, D>::empty()
        &&& self.pass_data.pass_core_data.run_funcs@ == run_func_map_of(ps)
        &&& names_of(meta.pass_names@) == pass_names_of(ps)
        &&& desc_view(meta.pass_descs) == desc_map_of(ps)
        &&& forall|k: PassInfoGroupedDataKeys|
            #[trigger] group_view(meta.pass_mappings.table(k)) == group_map_of(ps, k)
        &&& pass_names_of(ps).no_duplicates() ==> forall|k: PassInfoGroupedDataKeys|
            #[trigger] entries_view(meta.pass_mappings.table(k)) == group_entries_of(ps, k)
    }
}

// ---------------------------------------------------------------------------
// The tables that the passes of a registration give, in registration order.

pub open spec fn pass_names_of<F>(ps: Seq<RawPassInfo<F>>) -> Seq<Seq<char>> {
    ps.map_values(|p: RawPassInfo<F>| p.name_view())
}

/// Each pass's entries under `key`, for the passes that have any; a later
/// pass of the same name replaces an earlier one.
pub open spec fn group_map_of<F>(ps: Seq<RawPassInfo<F>>, key: PassInfoGroupedDataKeys) -> Map<
    Seq<char>,
    Seq<Seq<char>>,
>
    decreases ps.len(),
{
    if ps.len() == 0 {
        Map::empty()
    } else {
        let m = group_map_of(ps.drop_last(), key);
        if ps.last().group(key).len() > 0 {
            m.insert(ps.last().name_view(), ps.last().group(key))
        } else {
            m
        }
    }
}

/// The (name, entries) pairs under `key` of the passes that have any, in order.
pub open spec fn group_entries_of<F>(ps: Seq<RawPassInfo<F>>, key: PassInfoGroupedDataKeys) -> Seq<
    (Seq<char>, Seq<Seq<char>>),
>
    decreases ps.len(),
{
    if ps.len() == 0 {
        Seq::empty()
    } else {
        let e = group_entries_of(ps.drop_last(), key);
        if ps.last().group(key).len() > 0 {
            e.push((ps.last().name_view(), ps.last().group(key)))
        } else {
            e
        }
    }
}

pub open spec fn desc_map_of<F>(ps: Seq<RawPassInfo<F>>) -> Map<Seq<char>, Seq<char>>
    decreases ps.len(),
{
    if ps.len() == 0 {
        Map::empty()
    } else {
        let m = desc_map_of(ps.drop_last());
        match ps.last().desc_view() {
            Some(d) => m.insert(ps.last().name_view(), d),
            None => m,
        }
    }
}

pub open spec fn run_func_map_of<F>(ps: Seq<RawPassInfo<F>>) -> Map<Seq<char>, F>
    decreases ps.len(),
{
    if ps.len() == 0 {
        Map::empty()
    } else {
        run_func_map_of(ps.drop_last()).insert(ps.last().name_view(), ps.last().run_func_view())
    }
}

proof fn lemma_group_entries_named<F>(ps: Seq<RawPassInfo<F>>, key: PassInfoGroupedDataKeys)
    ensures
        forall|i: int|
            0 <= i < group_entries_of(ps, key).len() ==> pass_names_of(ps).contains(
                #[trigger] group_entries_of(ps, key)[i].0,
            ),
    decreases ps.len(),
{
    if ps.len() > 0 {
        lemma_group_entries_named(ps.drop_last(), key);
        let e = group_entries_of(ps, key);
        let e0 = group_entries_of(ps.drop_last(), key);
        assert forall|i: int| 0 <= i < e.len() implies pass_names_of(ps).contains(#[trigger] e[i].0) by {
            if i < e0.len() {
                assert(e[i] == e0[i]);
                let j = choose|j: int|
                    0 <= j < pass_names_of(ps.drop_last()).len() && pass_names_of(ps.drop_last())[j]
                        == e0[i].0;
                assert(pass_names_of(ps)[j] == e0[i].0);
            } else {
                assert(pass_names_of(ps)[ps.len() - 1] == e[i].0);
            }
        }
    }
}

/// Inserts `v` under `name` if `v` is not empty.
fn insert_if_nonempty(m: &mut IdMap<Vec<String>>, name: &String, v: Vec<String>)
    requires
        old(m).wf(),
    ensures
        final(m).wf(),
        v@.len() > 0 ==> group_view(*final(m)) == group_view(*old(m)).insert(name@, names_of(v@)),
        v@.len() == 0 ==> *final(m) == *old(m),
        !old(m)@.dom().contains(name@) && v@.len() > 0 ==> entries_view(*final(m)) == entries_view(
            *old(m),
        ).push((name@, names_of(v@))),
{
    if v.len() > 0 {
        let ghost vv = v;
        proof {
            old(m).lemma_lens();
        }
        m.insert(name.clone(), v);
        proof {
            m.lemma_lens();
        }
        assert(group_view(*m) =~= group_view(*old(m)).insert(name@, names_of(vv@)));
        proof {
            if !old(m)@.dom().contains(name@) {
                assert(entries_view(*m) =~= entries_view(*old(m)).push((name@, names_of(vv@))));
            }
        }
    }
}

/// Moves what one pass registered into the tables of `p_data`.
fn extract_data_from_pass_info_into_reg_info<P, F, D>(
    raw_pass_info: RawPassInfo<F>,
    p_data: &mut PassData<P, F, D>,
)
    requires
        old(p_data).wf(),
    ensures
        final(p_data).wf(),
        final(p_data).pass_core_data.params_and_data == old(p_data).pass_core_data.params_and_data,
        final(p_data).pass_core_data.run_funcs@ == old(p_data).pass_core_data.run_funcs@.insert(
            raw_pass_info.name_view(),
            raw_pass_info.run_func_view(),
        ),
        names_of(final(p_data).pass_meta_data.pass_names@) == names_of(
            old(p_data).pass_meta_data.pass_names@,
        ).push(raw_pass_info.name_view()),
        desc_view(final(p_data).pass_meta_data.pass_descs) == match raw_pass_info.desc_view() {
            Some(d) => desc_view(old(p_data).pass_meta_data.pass_descs).insert(
                raw_pass_info.name_view(),
                d,
            ),
            None => desc_view(old(p_data).pass_meta_data.pass_descs),
        },
        forall|k: PassInfoGroupedDataKeys|
            #[trigger] group_view(final(p_data).pass_meta_data.pass_mappings.table(k)) == if raw_pass_info.group(
                k,
            ).len() > 0 {
                group_view(old(p_data).pass_meta_data.pass_mappings.table(k)).insert(
                    raw_pass_info.name_view(),
                    raw_pass_info.group(k),
                )
            } else {
                group_view(old(p_data).pass_meta_data.pass_mappings.table(k))
            },
        forall|k: PassInfoGroupedDataKeys|
            !(#[trigger] old(p_data).pass_meta_data.pass_mappings.table(k))@.dom().contains(
                raw_pass_info.name_view(),
            ) ==> entries_view(final(p_data).pass_meta_data.pass_mappings.table(k)) == if raw_pass_info.group(
                k,
            ).len() > 0 {
                entries_view(old(p_data).pass_meta_data.pass_mappings.table(k)).push(
                    (raw_pass_info.name_view(), raw_pass_info.group(k)),
                )
            } else {
                entries_view(old(p_data).pass_meta_data.pass_mappings.table(k))
            },
{
    let ghost raw = raw_pass_info;
    let RawPassInfo {
        name,
        run_func,
        pass_desc,
        req_params,
        read_acc,
        write_acc,
        create_acc,
        prereq_passes,
    } = raw_pass_info;
    p_data.pass_meta_data.pass_names.push(name.clone());
    p_data.pass_core_data.run_funcs.insert(name.clone(), run_func);
    match pass_desc {
        Some(desc) => {
            let ghost dv = desc@;
            p_data.pass_meta_data.pass_descs.insert(name.clone(), desc);
            assert(desc_view(p_data.pass_meta_data.pass_descs) =~= desc_view(
                old(p_data).pass_meta_data.pass_descs,
            ).insert(name@, dv));
        },
        None => {},
    }
    insert_if_nonempty(&mut p_data.pass_meta_data.pass_mappings.pass_data_req_params, &name, req_params);
    insert_if_nonempty(&mut p_data.pass_meta_data.pass_mappings.pass_data_read_reqs, &name, read_acc);
    insert_if_nonempty(&mut p_data.pass_meta_data.pass_mappings.pass_data_write_reqs, &name, write_acc);
    insert_if_nonempty(&mut p_data.pass_meta_data.pass_mappings.pass_data_create_reqs, &name, create_acc);
    insert_if_nonempty(&mut p_data.pass_meta_data.pass_mappings.prereq_passes_of_passes, &name, prereq_passes);
    assert(names_of(p_data.pass_meta_data.pass_names@) =~= names_of(
        old(p_data).pass_meta_data.pass_names@,
    ).push(raw.name_view()));
}

/// Builds the tables of a run from a raw registration, pass by pass in order.
fn extract_data_from_raw_reg_info_into_gen_state<P, F, D>(raw_reg_info: RawRegistrationInfo<P, F>) -> (r:
    RegisteredInfo<P, F, D>)
    ensures
        r.is_extraction_of(raw_reg_info),
{
    proof {
        use_type_invariant(&raw_reg_info);
    }
    let ghost raw = raw_reg_info;
    let ghost ps = raw_reg_info.passes();
    let RawRegistrationInfo { parameters, info_for_passes, max_threads } = raw_reg_info;
    let non_pass_data = NonPassData::new(max_threads);
    let mut reg_info: RegisteredInfo<P, F, D> = RegisteredInfo::new(non_pass_data, parameters);
    let mut rest = info_for_passes;
    let n = rest.len();
    let mut i: usize = 0;
    proof {
        assert forall|k: PassInfoGroupedDataKeys|
            #[trigger] group_view(reg_info.pass_data.pass_meta_data.pass_mappings.table(k))
                == group_map_of(ps.take(0), k) by {
            assert(group_view(reg_info.pass_data.pass_meta_data.pass_mappings.table(k)) =~= Map::empty());
        }
        assert forall|k: PassInfoGroupedDataKeys|
            #[trigger] entries_view(reg_info.pass_data.pass_meta_data.pass_mappings.table(k))
                == group_entries_of(ps.take(0), k) by {
            assert(entries_view(reg_info.pass_data.pass_meta_data.pass_mappings.table(k)) =~= Seq::empty());
        }
        assert(names_of(reg_info.pass_data.pass_meta_data.pass_names@) =~= pass_names_of(ps.take(0)));
        assert(desc_view(reg_info.pass_data.pass_meta_data.pass_descs) =~= desc_map_of(ps.take(0)));
        assert(reg_info.pass_data.pass_core_data.run_funcs@ =~= run_func_map_of(ps.take(0)));
        assert(rest@ =~= ps.skip(0));
    }
    while i < n
        invariant
            n == ps.len(),
            i <= n,
            rest@ == ps.skip(i as int),
            reg_info.wf(),
            reg_info.non_pass_data.max_threads == raw.max_threads_view(),
            reg_info.pass_data.pass_core_data.params_and_data.params@ == raw.params_view(),
            reg_info.pass_data.pass_core_data.params_and_data.data@ == Map::<Seq<char>, D>::empty(),
            reg_info.pass_data.pass_core_data.run_funcs@ == run_func_map_of(ps.take(i as int)),
            names_of(reg_info.pass_data.pass_meta_data.pass_names@) == pass_names_of(ps.take(i as int)),
            desc_view(reg_info.pass_data.pass_meta_data.pass_descs) == desc_map_of(ps.take(i as int)),
            forall|k: PassInfoGroupedDataKeys|
                #[trigger] group_view(reg_info.pass_data.pass_meta_data.pass_mappings.table(k))
                    == group_map_of(ps.take(i as int), k),
            pass_names_of(ps).no_duplicates() ==> forall|k: PassInfoGroupedDataKeys|
                #[trigger] entries_view(reg_info.pass_data.pass_meta_data.pass_mappings.table(k))
                    == group_entries_of(ps.take(i as int), k),
        decreases n - i,
    {
        let pass_info = rest.remove(0);
        proof {
            assert(pass_info == ps[i as int]);
            assert(ps.take(i + 1).drop_last() =~= ps.take(i as int));
            assert(ps.take(i + 1).last() == ps[i as int]);
            assert(rest@ =~= ps.skip(i + 1));
            assert(pass_names_of(ps.take(i + 1)) =~= pass_names_of(ps.take(i as int)).push(
                ps[i as int].name_view(),
            ));
            if pass_names_of(ps).no_duplicates() {
                assert forall|k: PassInfoGroupedDataKeys|
                    !(#[trigger] reg_info.pass_data.pass_meta_data.pass_mappings.table(k))@.dom().contains(
                        ps[i as int].name_view(),
                    ) by {
                    let m = reg_info.pass_data.pass_meta_data.pass_mappings.table(k);
                    lemma_group_entries_named(ps.take(i as int), k);
                    if m@.dom().contains(ps[i as int].name_view()) {
                        let j = choose|j: int| 0 <= j < m.keys().len() && m.keys()[j] == ps[i as int].name_view();
                        assert(entries_view(m)[j].0 == ps[i as int].name_view());
                        assert(group_entries_of(ps.take(i as int), k)[j].0 == ps[i as int].name_view());
                        let q = choose|q: int|
                            0 <= q < pass_names_of(ps.take(i as int)).len() && pass_names_of(
                                ps.take(i as int),
                            )[q] == ps[i as int].name_view();
                        assert(pass_names_of(ps)[q] == pass_names_of(ps)[i as int]);
                    }
                }
            }
        }
        let ghost old_pd = reg_info.pass_data;
        extract_data_from_pass_info_into_reg_info(pass_info, &mut reg_info.pass_data);
        proof {
            if pass_names_of(ps).no_duplicates() {
                assert forall|k: PassInfoGroupedDataKeys|
                    #[trigger] entries_view(reg_info.pass_data.pass_meta_data.pass_mappings.table(k))
                        == group_entries_of(ps.take(i + 1), k) by {
                    assert(!old_pd.pass_meta_data.pass_mappings.table(k)@.dom().contains(
                        ps[i as int].name_view()));
                }
            }
            assert(names_of(reg_info.pass_data.pass_meta_data.pass_names@) =~= pass_names_of(
                ps.take(i + 1),
            ));
        }
        i = i + 1;
    }
    proof {
        assert(ps.take(n as int) =~= ps);
    }
    reg_info
}


// ---------------------------------------------------------------------------
// The checks a registration must pass.

/// Each name that occurs again after its first occurrence, once per repeat, in order.
pub open spec fn dup_names(s: Seq<Seq<char>>) -> Seq<Seq<char>>
    decreases s.len(),
{
    if s.len() == 0 {
        Seq::empty()
    } else {
        let d = dup_names(s.drop_last());
        if s.drop_last().contains(s.last()) {
            d.push(s.last())
        } else {
            d
        }
    }
}

pub open spec fn duplicate_names_message(names: Seq<Seq<char>>) -> Seq<char> {
    "The following names we're given to one or more passes:\n"@ + bullet_lines(dup_names(names))
}

/// No name is listed as repeated exactly when no name occurs twice.
pub proof fn lemma_dup_names_empty(s: Seq<Seq<char>>)
    ensures
        (dup_names(s).len() == 0) == s.no_duplicates(),
    decreases s.len(),
{
    if s.len() > 0 {
        let t = s.drop_last();
        lemma_dup_names_empty(t);
        let n = s.len() - 1;
        if t.contains(s.last()) {
            let j = choose|j: int| 0 <= j < t.len() && t[j] == s.last();
            assert(s[j] == s[n]);
        } else {
            if t.no_duplicates() {
                assert forall|a: int, b: int|
                    0 <= a < s.len() && 0 <= b < s.len() && a != b implies s[a] != s[b] by {
                    if a == n {
                        assert(t[b] == s[b]);
                    } else if b == n {
                        assert(t[a] == s[a]);
                    } else {
                        assert(t[a] == s[a] && t[b] == s[b]);
                    }
                }
            } else {
                let (a, b) = choose|a: int, b: int|
                    0 <= a < t.len() && 0 <= b < t.len() && a != b && t[a] == t[b];
                assert(s[a] == s[b]);
            }
        }
    }
}

fn name_seen_before<F>(ps: &Vec<RawPassInfo<F>>, i: usize) -> (b: bool)
    requires
        i < ps@.len(),
    ensures
        b == pass_names_of(ps@).take(i as int).contains(ps@[i as int].name_view()),
{
    let mut j: usize = 0;
    while j < i
        invariant
            i < ps@.len(),
            j <= i,
            forall|q: int| 0 <= q < j ==> ps@[q].name_view() != ps@[i as int].name_view(),
        decreases i - j,
    {
        if ps[j].name == ps[i].name {
            assert(pass_names_of(ps@).take(i as int)[j as int] == ps@[i as int].name_view());
            return true;
        }
        j = j + 1;
    }
    proof {
        if pass_names_of(ps@).take(i as int).contains(ps@[i as int].name_view()) {
            let q = choose|q: int|
                0 <= q < i && pass_names_of(ps@).take(i as int)[q] == ps@[i as int].name_view();
            assert(ps@[q].name_view() == ps@[i as int].name_view());
        }
    }
    false
}

/// Fails, listing the repeated names, when two passes share a name.
fn validate_that_no_passes_have_duplicate_names<P, F>(reg_info: &RawRegistrationInfo<P, F>) -> (r:
    Result<(), String>)
    ensures
        match r {
            Ok(_) => dup_names(pass_names_of(reg_info.passes())).len() == 0,
            Err(e) => dup_names(pass_names_of(reg_info.passes())).len() > 0 && e@
                == duplicate_names_message(pass_names_of(reg_info.passes())),
        },
{
    let ghost names = pass_names_of(reg_info.passes());
    let mut duplicate_names: Vec<String> = Vec::new();
    let n = reg_info.info_for_passes.len();
    let mut i: usize = 0;
    while i < n
        invariant
            n == names.len(),
            names == pass_names_of(reg_info.info_for_passes@),
            i <= n,
            names_of(duplicate_names@) == dup_names(names.take(i as int)),
        decreases n - i,
    {
        let ghost before = duplicate_names@;
        if name_seen_before(&reg_info.info_for_passes, i) {
            duplicate_names.push(reg_info.info_for_passes[i].name.clone());
            assert(names_of(duplicate_names@) =~= names_of(before).push(names[i as int]));
        }
        assert(names.take(i + 1).drop_last() =~= names.take(i as int));
        assert(names.take(i + 1).last() == names[i as int]);
        i = i + 1;
    }
    assert(names.take(n as int) =~= names);
    if duplicate_names.len() > 0 {
        let mut err_str = "The following names we're given to one or more passes:\n".to_owned();
        write_strs_as_bullets(&duplicate_names, &mut err_str);
        return Err(err_str);
    }
    Ok(())
}

/// The names of the passes that have no description, in order.
pub open spec fn passes_without_desc<F>(ps: Seq<RawPassInfo<F>>) -> Seq<Seq<char>>
    decreases ps.len(),
{
    if ps.len() == 0 {
        Seq::empty()
    } else {
        let m = passes_without_desc(ps.drop_last());
        if ps.last().desc_view() is None {
            m.push(ps.last().name_view())
        } else {
            m
        }
    }
}

/// The `Debug` text of a string: the string in double quotes, with its
/// special characters escaped.
pub uninterp spec fn str_debug(s: Seq<char>) -> Seq<char>;

/// std's `Debug` formatting of a string slice (`format!("{:?}", s)`).
/// Trusted: the result is the `Debug` text of `s`, a function of `s` alone.
#[verifier::external_body]
fn debug_str(s: &str) -> (r: String)
    ensures
        r@ == str_debug(s@),
{
    format!("{:?}", s)
}

/// The items of a list printed with `{:#?}` one level deep: each on a line
/// of its own, indented by eight spaces and followed by a comma.
pub open spec fn debug_items(items: Seq<Seq<char>>) -> Seq<char>
    decreases items.len(),
{
    if items.len() == 0 {
        Seq::empty()
    } else {
        debug_items(items.drop_last()) + "        "@ + str_debug(items.last()) + ",\n"@
    }
}

/// One entry of a map printed with `{:#?}`, whose key is printed as `name`
/// and whose value is the list `items`; nothing when the list is empty,
/// since such an entry is never made.
pub open spec fn group_entry_text(name: Seq<char>, items: Seq<Seq<char>>) -> Seq<char> {
    if items.len() == 0 {
        Seq::empty()
    } else {
        "    "@ + name + ": [\n"@ + debug_items(items) + "    ],\n"@
    }
}

/// The single-valued information of pass `p` printed with `{:#?}`: `{}`
/// when it has none; a stored value prints as `Any { .. }`.
pub open spec fn data_text<F>(p: RawPassInfo<F>) -> Seq<char> {
    if p.desc_view() is Some {
        "{\n    PassDesc: Any { .. },\n}"@
    } else {
        "{}"@
    }
}

/// The list-valued information of pass `p` printed with `{:#?}`, the kinds
/// in the order they are declared: `{}` when it has none.
pub open spec fn grouped_text<F>(p: RawPassInfo<F>) -> Seq<char> {
    if p.group(PassInfoGroupedDataKeys::ReqParm).len() == 0 && p.group(PassInfoGroupedDataKeys::ReadAcc).len()
        == 0 && p.group(PassInfoGroupedDataKeys::WriteAcc).len() == 0 && p.group(
        PassInfoGroupedDataKeys::CreateAcc,
    ).len() == 0 && p.group(PassInfoGroupedDataKeys::PrereqPass).len() == 0 {
        "{}"@
    } else {
        "{\n"@ + group_entry_text("ReqParm"@, p.group(PassInfoGroupedDataKeys::ReqParm)) + group_entry_text(
            "ReadAcc"@,
            p.group(PassInfoGroupedDataKeys::ReadAcc),
        ) + group_entry_text("WriteAcc"@, p.group(PassInfoGroupedDataKeys::WriteAcc)) + group_entry_text(
            "CreateAcc"@,
            p.group(PassInfoGroupedDataKeys::CreateAcc),
        ) + group_entry_text("PrereqPass"@, p.group(PassInfoGroupedDataKeys::PrereqPass)) + "}"@
    }
}

/// The block that reports pass `p`: its data, then its grouped data.
pub open spec fn pass_info_text<F>(p: RawPassInfo<F>) -> Seq<char> {
    "data: "@ + data_text(p) + "\ngrouped data: "@ + grouped_text(p) + "\n\n"@
}

/// The blocks of the passes of `ps` that have no description, in order.
pub open spec fn missing_desc_text<F>(ps: Seq<RawPassInfo<F>>) -> Seq<char>
    decreases ps.len(),
{
    if ps.len() == 0 {
        Seq::empty()
    } else {
        let m = missing_desc_text(ps.drop_last());
        if ps.last().desc_view() is None {
            m + pass_info_text(ps.last())
        } else {
            m
        }
    }
}

fn append_debug_items(items: &Vec<String>, out: &mut String)
    ensures
        final(out)@ == old(out)@ + debug_items(names_of(items@)),
{
    let ghost names = names_of(items@);
    let n = items.len();
    let mut i: usize = 0;
    while i < n
        invariant
            n == items@.len(),
            names == names_of(items@),
            i <= n,
            out@ == old(out)@ + debug_items(names.take(i as int)),
        decreases n - i,
    {
        out.append("        ");
        let t = debug_str(items[i].as_str());
        out.append(t.as_str());
        out.append(",\n");
        assert(names.take(i + 1).drop_last() =~= names.take(i as int));
        assert(names.take(i + 1).last() == items@[i as int]@);
        i = i + 1;
    }
    assert(names.take(n as int) =~= names);
}

fn append_group_entry(name: &str, items: &Vec<String>, out: &mut String)
    ensures
        final(out)@ == old(out)@ + group_entry_text(name@, names_of(items@)),
{
    if items.len() > 0 {
        out.append("    ");
        out.append(name);
        out.append(": [\n");
        append_debug_items(items, out);
        out.append("    ],\n");
    } else {
        assert(out@ =~= old(out)@ + Seq::<char>::empty());
    }
}

impl<F> RawPassInfo<F> {
    fn append_data_text(&self, out: &mut String)
        ensures
            final(out)@ == old(out)@ + data_text(*self),
    {
        if self.pass_desc.is_some() {
            out.append("{\n    PassDesc: Any { .. },\n}");
        } else {
            out.append("{}");
        }
    }

    fn append_grouped_text(&self, out: &mut String)
        ensures
            final(out)@ == old(out)@ + grouped_text(*self),
    {
        if self.req_params.len() == 0 && self.read_acc.len() == 0 && self.write_acc.len() == 0
            && self.create_acc.len() == 0 && self.prereq_passes.len() == 0 {
            out.append("{}");
        } else {
            let ghost o0 = out@;
            out.append("{\n");
            let ghost o1 = out@;
            append_group_entry("ReqParm", &self.req_params, out);
            let ghost o2 = out@;
            append_group_entry("ReadAcc", &self.read_acc, out);
            let ghost o3 = out@;
            append_group_entry("WriteAcc", &self.write_acc, out);
            let ghost o4 = out@;
            append_group_entry("CreateAcc", &self.create_acc, out);
            let ghost o5 = out@;
            append_group_entry("PrereqPass", &self.prereq_passes, out);
            let ghost o6 = out@;
            out.append("}");
            proof {
                let t1 = group_entry_text("ReqParm"@, self.group(PassInfoGroupedDataKeys::ReqParm));
                let t2 = group_entry_text("ReadAcc"@, self.group(PassInfoGroupedDataKeys::ReadAcc));
                let t3 = group_entry_text("WriteAcc"@, self.group(PassInfoGroupedDataKeys::WriteAcc));
                let t4 = group_entry_text("CreateAcc"@, self.group(PassInfoGroupedDataKeys::CreateAcc));
                let t5 = group_entry_text("PrereqPass"@, self.group(PassInfoGroupedDataKeys::PrereqPass));
                assert(o2 == o1 + t1);
                assert(o3 == o2 + t2);
                assert(o4 == o3 + t3);
                assert(o5 == o4 + t4);
                assert(o6 == o5 + t5);
                assert(out@ =~= o0 + ("{\n"@ + t1 + t2 + t3 + t4 + t5 + "}"@));
            }
        }
    }

    /// Appends the block that reports this pass.
    fn append_info_text(&self, out: &mut String)
        ensures
            final(out)@ == old(out)@ + pass_info_text(*self),
    {
        let ghost o0 = out@;
        out.append("data: ");
        let ghost o1 = out@;
        self.append_data_text(out);
        let ghost o2 = out@;
        out.append("\ngrouped data: ");
        let ghost o3 = out@;
        self.append_grouped_text(out);
        let ghost o4 = out@;
        out.append("\n\n");
        proof {
            assert(out@ =~= o0 + ("data: "@ + data_text(*self) + "\ngrouped data: "@ + grouped_text(*self)
                + "\n\n"@));
        }
    }
}

/// Fails, reporting each pass concerned, when some pass has registered
/// nothing under `key`. Each pass is reported by a block that prints its
/// data and its grouped data.
pub fn validate_that_all_passes_have_key<P, F>(
    reg_info: &RawRegistrationInfo<P, F>,
    key: PassInfoDataKeys,
    missing_data_str: &str,
) -> (r: Result<(), String>)
    ensures
        match r {
            Ok(_) => passes_without_desc(reg_info.passes()).len() == 0,
            Err(e) => passes_without_desc(reg_info.passes()).len() > 0 && e@
                == "The following registered pass info do not have a corresponding registered "@
                + missing_data_str@ + ":\n"@ + missing_desc_text(reg_info.passes()),
        },
        r is Ok <==> forall|i: int|
            0 <= i < reg_info.passes().len() ==> (#[trigger] reg_info.passes()[i]).desc_view() is Some,
{
    proof {
        lemma_passes_without_desc_lists_each(reg_info.passes());
    }
    let ghost ps = reg_info.passes();
    let mut blocks = String::new();
    let mut any_missing = false;
    let n = reg_info.info_for_passes.len();
    let mut i: usize = 0;
    while i < n
        invariant
            n == ps.len(),
            ps == reg_info.info_for_passes@,
            i <= n,
            blocks@ == missing_desc_text(ps.take(i as int)),
            any_missing == (passes_without_desc(ps.take(i as int)).len() > 0),
        decreases n - i,
    {
        let has_key = match key {
            PassInfoDataKeys::PassDesc => reg_info.info_for_passes[i].pass_desc.is_some(),
        };
        assert(ps.take(i + 1).drop_last() =~= ps.take(i as int));
        assert(ps.take(i + 1).last() == ps[i as int]);
        if !has_key {
            reg_info.info_for_passes[i].append_info_text(&mut blocks);
            any_missing = true;
        }
        i = i + 1;
    }
    assert(ps.take(n as int) =~= ps);
    if any_missing {
        let mut err_str =
            "The following registered pass info do not have a corresponding registered ".to_owned();
        err_str.append(missing_data_str);
        err_str.append(":\n");
        err_str.append(blocks.as_str());
        return Err(err_str);
    }
    Ok(())
}

/// Whether `s` is among the strings of `v`.
pub fn vec_contains(v: &Vec<String>, s: &String) -> (b: bool)
    ensures
        b == names_of(v@).contains(s@),
{
    let n = v.len();
    let mut i: usize = 0;
    while i < n
        invariant
            n == v@.len(),
            i <= n,
            forall|q: int| 0 <= q < i ==> v@[q]@ != s@,
        decreases n - i,
    {
        if v[i] == *s {
            assert(names_of(v@)[i as int] == s@);
            return true;
        }
        i = i + 1;
    }
    proof {
        if names_of(v@).contains(s@) {
            let q = choose|q: int| 0 <= q < n && names_of(v@)[q] == s@;
            assert(v@[q]@ == s@);
        }
    }
    false
}

/// The entries of `writes` that also occur in `reads`, in the order of `writes`.
pub open spec fn common_keys(writes: Seq<Seq<char>>, reads: Seq<Seq<char>>) -> Seq<Seq<char>>
    decreases writes.len(),
{
    if writes.len() == 0 {
        Seq::empty()
    } else {
        let c = common_keys(writes.drop_last(), reads);
        if reads.contains(writes.last()) {
            c.push(writes.last())
        } else {
            c
        }
    }
}

/// For each (pass, reads) entry, in order, the pass and the data it both reads
/// and writes, where there is any.
pub open spec fn rw_conflicts(
    entries: Seq<(Seq<char>, Seq<Seq<char>>)>,
    writes: Map<Seq<char>, Seq<Seq<char>>>,
) -> Seq<(Seq<char>, Seq<Seq<char>>)>
    decreases entries.len(),
{
    if entries.len() == 0 {
        Seq::empty()
    } else {
        let c = rw_conflicts(entries.drop_last(), writes);
        let n = entries.last().0;
        if writes.dom().contains(n) && common_keys(writes[n], entries.last().1).len() > 0 {
            c.push((n, common_keys(writes[n], entries.last().1)))
        } else {
            c
        }
    }
}

pub open spec fn rw_conflict_message(c: Seq<(Seq<char>, Seq<Seq<char>>)>) -> Seq<char> {
    "The following passes have the same datatypes registered as both read and write:\n"@
        + parent_child_lines(c)
}

fn common_data_keys(writes: &Vec<String>, reads: &Vec<String>) -> (r: Vec<String>)
    ensures
        names_of(r@) == common_keys(names_of(writes@), names_of(reads@)),
{
    let mut r: Vec<String> = Vec::new();
    let n = writes.len();
    let mut i: usize = 0;
    while i < n
        invariant
            n == writes@.len(),
            i <= n,
            names_of(r@) == common_keys(names_of(writes@).take(i as int), names_of(reads@)),
        decreases n - i,
    {
        let ghost before = r@;
        if vec_contains(reads, &writes[i]) {
            r.push(writes[i].clone());
            assert(names_of(r@) =~= names_of(before).push(writes@[i as int]@));
        }
        assert(names_of(writes@).take(i + 1).drop_last() =~= names_of(writes@).take(i as int));
        i = i + 1;
    }
    assert(names_of(writes@).take(n as int) =~= names_of(writes@));
    r
}

/// Fails, listing the passes and data concerned, when a pass has registered
/// the same data for both reading and writing.
fn validate_that_no_passes_have_both_read_write_on_any_data(p_mappings: &PassMappings) -> (r: Result<
    (),
    String,
>)
    requires
        p_mappings.wf(),
    ensures
        ({
            let c = rw_conflicts(
                entries_view(p_mappings.pass_data_read_reqs),
                group_view(p_mappings.pass_data_write_reqs),
            );
            match r {
                Ok(_) => c.len() == 0,
                Err(e) => c.len() > 0 && e@ == rw_conflict_message(c),
            }
        }),
{
    let reads = &p_mappings.pass_data_read_reqs;
    let writes = &p_mappings.pass_data_write_reqs;
    let ghost entries = entries_view(*reads);
    let mut data_with_read_and_write: Vec<(String, Vec<String>)> = Vec::new();
    let n = reads.len();
    let mut i: usize = 0;
    while i < n
        invariant
            n == entries.len(),
            entries == entries_view(*reads),
            writes.wf(),
            i <= n,
            pairs_view(data_with_read_and_write@) == rw_conflicts(
                entries.take(i as int),
                group_view(*writes),
            ),
        decreases n - i,
    {
        let ghost before = data_with_read_and_write@;
        let pass_name = reads.key_at(i);
        let data_read_by_pass = reads.value_at(i);
        match writes.get(pass_name) {
            None => {},
            Some(write_data_keys) => {
                let common_keys_buf = common_data_keys(write_data_keys, data_read_by_pass);
                if common_keys_buf.len() > 0 {
                    let ghost cv = names_of(common_keys_buf@);
                    data_with_read_and_write.push((pass_name.clone(), common_keys_buf));
                    assert(pairs_view(data_with_read_and_write@) =~= pairs_view(before).push(
                        (pass_name@, cv),
                    ));
                }
            },
        }
        assert(entries.take(i + 1).drop_last() =~= entries.take(i as int));
        assert(entries.take(i + 1).last() == entries[i as int]);
        i = i + 1;
    }
    assert(entries.take(n as int) =~= entries);
    if data_with_read_and_write.len() > 0 {
        let mut err_str =
            "The following passes have the same datatypes registered as both read and write:\n".to_owned();
        append_parent_and_child_elements_to_string(&data_with_read_and_write, &mut err_str);
        return Err(err_str);
    }
    Ok(())
}

/// The entries of `s` that are not among `names`, in order.
pub open spec fn not_among(s: Seq<Seq<char>>, names: Seq<Seq<char>>) -> Seq<Seq<char>>
    decreases s.len(),
{
    if s.len() == 0 {
        Seq::empty()
    } else {
        let m = not_among(s.drop_last(), names);
        if names.contains(s.last()) {
            m
        } else {
            m.push(s.last())
        }
    }
}

/// For each (pass, prerequisites) entry, in order, the pass and the
/// prerequisites that name no pass, where there are any.
pub open spec fn undefined_prereqs(
    entries: Seq<(Seq<char>, Seq<Seq<char>>)>,
    names: Seq<Seq<char>>,
) -> Seq<(Seq<char>, Seq<Seq<char>>)>
    decreases entries.len(),
{
    if entries.len() == 0 {
        Seq::empty()
    } else {
        let u = undefined_prereqs(entries.drop_last(), names);
        let missing = not_among(entries.last().1, names);
        if missing.len() > 0 {
            u.push((entries.last().0, missing))
        } else {
            u
        }
    }
}

fn push_not_among(s: &Vec<String>, names: &Vec<String>, out: &mut Vec<String>)
    ensures
        names_of(final(out)@) == names_of(old(out)@) + not_among(names_of(s@), names_of(names@)),
{
    let n = s.len();
    let mut i: usize = 0;
    while i < n
        invariant
            n == s@.len(),
            i <= n,
            names_of(out@) == names_of(old(out)@) + not_among(
                names_of(s@).take(i as int),
                names_of(names@),
            ),
        decreases n - i,
    {
        let ghost before = out@;
        if !vec_contains(names, &s[i]) {
            out.push(s[i].clone());
            assert(names_of(out@) =~= names_of(before).push(s@[i as int]@));
        }
        assert(names_of(s@).take(i + 1).drop_last() =~= names_of(s@).take(i as int));
        i = i + 1;
    }
    assert(names_of(s@).take(n as int) =~= names_of(s@));
}

/// The passes whose prerequisites name passes that were not registered,
/// with those prerequisites.
fn undefined_prereq_passes(p_meta: &PassMetaData) -> (r: Vec<(String, Vec<String>)>)
    requires
        p_meta.wf(),
    ensures
        pairs_view(r@) == undefined_prereqs(
            entries_view(p_meta.pass_mappings.prereq_passes_of_passes),
            names_of(p_meta.pass_names@),
        ),
{
    let prereqs = &p_meta.pass_mappings.prereq_passes_of_passes;
    let ghost entries = entries_view(*prereqs);
    let mut undefined: Vec<(String, Vec<String>)> = Vec::new();
    let n = prereqs.len();
    let mut i: usize = 0;
    while i < n
        invariant
            n == entries.len(),
            entries == entries_view(*prereqs),
            i <= n,
            pairs_view(undefined@) == undefined_prereqs(
                entries.take(i as int),
                names_of(p_meta.pass_names@),
            ),
        decreases n - i,
    {
        let ghost before = undefined@;
        let mut buf: Vec<String> = Vec::new();
        push_not_among(prereqs.value_at(i), &p_meta.pass_names, &mut buf);
        assert(names_of(buf@) =~= not_among(entries[i as int].1, names_of(p_meta.pass_names@)));
        if buf.len() > 0 {
            let ghost bv = names_of(buf@);
            undefined.push((prereqs.key_at(i).clone(), buf));
            assert(pairs_view(undefined@) =~= pairs_view(before).push((entries[i as int].0, bv)));
        }
        assert(entries.take(i + 1).drop_last() =~= entries.take(i as int));
        assert(entries.take(i + 1).last() == entries[i as int]);
        i = i + 1;
    }
    assert(entries.take(n as int) =~= entries);
    undefined
}

/// Writes up the prerequisites that name no registered pass. The write-up is
/// not returned: this check always succeeds.
fn validate_that_all_prereq_passes_of_passes_exist(p_meta: &PassMetaData) -> (r: Result<(), String>)
    requires
        p_meta.wf(),
    ensures
        r is Ok,
{
    let undefined_prereqs = undefined_prereq_passes(p_meta);
    if undefined_prereqs.len() > 0 {
        let mut err_str =
            "The following passes have prerequisite passes that are not defined:".to_owned();
        append_parent_and_child_elements_to_string(&undefined_prereqs, &mut err_str);
    }
    Ok(())
}

/// Some pass registered `d` as data it creates.
pub open spec fn is_created(d: Seq<char>, creates: Map<Seq<char>, Seq<Seq<char>>>) -> bool {
    exists|p: Seq<char>| creates.dom().contains(p) && #[trigger] creates[p].contains(d)
}

/// The entries of `ds` that no pass creates, in order.
pub open spec fn not_created(ds: Seq<Seq<char>>, creates: Map<Seq<char>, Seq<Seq<char>>>) -> Seq<
    Seq<char>,
>
    decreases ds.len(),
{
    if ds.len() == 0 {
        Seq::empty()
    } else {
        let m = not_created(ds.drop_last(), creates);
        if is_created(ds.last(), creates) {
            m
        } else {
            m.push(ds.last())
        }
    }
}

/// The entries that `m` holds for `n`, or none.
pub open spec fn table_or_empty(m: Map<Seq<char>, Seq<Seq<char>>>, n: Seq<char>) -> Seq<Seq<char>> {
    if m.dom().contains(n) {
        m[n]
    } else {
        Seq::empty()
    }
}

/// The data that the pass `n` requests (reads, then writes) and no pass creates.
pub open spec fn uncreated_requests_of(
    n: Seq<char>,
    reads: Map<Seq<char>, Seq<Seq<char>>>,
    writes: Map<Seq<char>, Seq<Seq<char>>>,
    creates: Map<Seq<char>, Seq<Seq<char>>>,
) -> Seq<Seq<char>> {
    not_created(table_or_empty(reads, n), creates) + not_created(table_or_empty(writes, n), creates)
}

/// For each pass, in order, the pass and the data it requests that no pass
/// creates, where there is any.
pub open spec fn uncreated_requests(
    names: Seq<Seq<char>>,
    reads: Map<Seq<char>, Seq<Seq<char>>>,
    writes: Map<Seq<char>, Seq<Seq<char>>>,
    creates: Map<Seq<char>, Seq<Seq<char>>>,
) -> Seq<(Seq<char>, Seq<Seq<char>>)>
    decreases names.len(),
{
    if names.len() == 0 {
        Seq::empty()
    } else {
        let u = uncreated_requests(names.drop_last(), reads, writes, creates);
        let miss = uncreated_requests_of(names.last(), reads, writes, creates);
        if miss.len() > 0 {
            u.push((names.last(), miss))
        } else {
            u
        }
    }
}

pub open spec fn uncreated_request_message(u: Seq<(Seq<char>, Seq<Seq<char>>)>) -> Seq<char> {
    "The following passes request data that is not created by any pass:\n"@ + parent_child_lines(u)
}

fn is_created_by_a_pass(d: &String, creates: &IdMap<Vec<String>>) -> (b: bool)
    requires
        creates.wf(),
    ensures
        b == is_created(d@, group_view(*creates)),
{
    let n = creates.len();
    let mut i: usize = 0;
    while i < n
        invariant
            n == creates.keys().len(),
            creates.wf(),
            i <= n,
            forall|q: int| 0 <= q < i ==> !names_of(#[trigger] creates.vals()[q]@).contains(d@),
        decreases n - i,
    {
        if vec_contains(creates.value_at(i), d) {
            proof {
                creates.lemma_view_index(i as int);
                let p = creates.keys()[i as int];
                assert(group_view(*creates)[p].contains(d@));
            }
            return true;
        }
        i = i + 1;
    }
    proof {
        if is_created(d@, group_view(*creates)) {
            let p = choose|p: Seq<char>|
                group_view(*creates).dom().contains(p) && #[trigger] group_view(*creates)[p].contains(d@);
            let j = choose|j: int| 0 <= j < creates.keys().len() && creates.keys()[j] == p;
            creates.lemma_view_index(j);
            assert(!names_of(creates.vals()[j]@).contains(d@));
        }
    }
    false
}

fn push_not_created(ds: &Vec<String>, creates: &IdMap<Vec<String>>, out: &mut Vec<String>)
    requires
        creates.wf(),
    ensures
        names_of(final(out)@) == names_of(old(out)@) + not_created(names_of(ds@), group_view(*creates)),
{
    let n = ds.len();
    let mut i: usize = 0;
    while i < n
        invariant
            n == ds@.len(),
            creates.wf(),
            i <= n,
            names_of(out@) == names_of(old(out)@) + not_created(
                names_of(ds@).take(i as int),
                group_view(*creates),
            ),
        decreases n - i,
    {
        let ghost before = out@;
        if !is_created_by_a_pass(&ds[i], creates) {
            out.push(ds[i].clone());
            assert(names_of(out@) =~= names_of(before).push(ds@[i as int]@));
        }
        assert(names_of(ds@).take(i + 1).drop_last() =~= names_of(ds@).take(i as int));
        i = i + 1;
    }
    assert(names_of(ds@).take(n as int) =~= names_of(ds@));
}

/// Fails, listing the passes and data concerned, when a pass requests
/// (reads or writes) data that no pass creates.
fn validate_that_all_requested_data_is_written_by_a_pass<P, F, D>(
    gen_state: &RegisteredInfo<P, F, D>,
) -> (r: Result<(), String>)
    requires
        gen_state.wf(),
    ensures
        ({
            let meta = gen_state.pass_data.pass_meta_data;
            let u = uncreated_requests(
                names_of(meta.pass_names@),
                group_view(meta.pass_mappings.pass_data_read_reqs),
                group_view(meta.pass_mappings.pass_data_write_reqs),
                group_view(meta.pass_mappings.pass_data_create_reqs),
            );
            match r {
                Ok(_) => u.len() == 0,
                Err(e) => u.len() > 0 && e@ == uncreated_request_message(u),
            }
        }),
{
    let meta = &gen_state.pass_data.pass_meta_data;
    let reads = &meta.pass_mappings.pass_data_read_reqs;
    let writes = &meta.pass_mappings.pass_data_write_reqs;
    let creates = &meta.pass_mappings.pass_data_create_reqs;
    let ghost names = names_of(meta.pass_names@);
    let mut uncreated: Vec<(String, Vec<String>)> = Vec::new();
    let n = meta.pass_names.len();
    let mut i: usize = 0;
    while i < n
        invariant
            n == names.len(),
            names == names_of(meta.pass_names@),
            meta.wf(),
            reads == meta.pass_mappings.pass_data_read_reqs,
            writes == meta.pass_mappings.pass_data_write_reqs,
            creates == meta.pass_mappings.pass_data_create_reqs,
            i <= n,
            pairs_view(uncreated@) == uncreated_requests(
                names.take(i as int),
                group_view(*reads),
                group_view(*writes),
                group_view(*creates),
            ),
        decreases n - i,
    {
        let ghost before = uncreated@;
        let name = &meta.pass_names[i];
        let mut missing: Vec<String> = Vec::new();
        match reads.get(name) {
            Some(ds) => push_not_created(ds, creates, &mut missing),
            None => {},
        }
        match writes.get(name) {
            Some(ds) => push_not_created(ds, creates, &mut missing),
            None => {},
        }
        assert(names_of(missing@) =~= uncreated_requests_of(
            names[i as int],
            group_view(*reads),
            group_view(*writes),
            group_view(*creates),
        ));
        if missing.len() > 0 {
            let ghost mv = names_of(missing@);
            uncreated.push((name.clone(), missing));
            assert(pairs_view(uncreated@) =~= pairs_view(before).push((names[i as int], mv)));
        }
        assert(names.take(i + 1).drop_last() =~= names.take(i as int));
        assert(names.take(i + 1).last() == names[i as int]);
        i = i + 1;
    }
    assert(names.take(n as int) =~= names);
    if uncreated.len() > 0 {
        let mut err_str =
            "The following passes request data that is not created by any pass:\n".to_owned();
        append_parent_and_child_elements_to_string(&uncreated, &mut err_str);
        return Err(err_str);
    }
    Ok(())
}

// ---------------------------------------------------------------------------
// Processing a registration.

/// The error that processing `raw` gives, if any: the checks run in the
/// order duplicate names, data no pass creates, data both read and written.
pub open spec fn registration_error<P, F>(raw: RawRegistrationInfo<P, F>) -> Option<Seq<char>> {
    let ps = raw.passes();
    let names = pass_names_of(ps);
    let reads = group_map_of(ps, PassInfoGroupedDataKeys::ReadAcc);
    let writes = group_map_of(ps, PassInfoGroupedDataKeys::WriteAcc);
    let creates = group_map_of(ps, PassInfoGroupedDataKeys::CreateAcc);
    let u = uncreated_requests(names, reads, writes, creates);
    let c = rw_conflicts(group_entries_of(ps, PassInfoGroupedDataKeys::ReadAcc), writes);
    if dup_names(names).len() > 0 {
        Some(duplicate_names_message(names))
    } else if u.len() > 0 {
        Some(uncreated_request_message(u))
    } else if c.len() > 0 {
        Some(rw_conflict_message(c))
    } else {
        None
    }
}

/// Checks a registration and, when it passes, builds the tables of the run.
pub fn process_reg_info<P, F, D>(raw_reg_info: RawRegistrationInfo<P, F>) -> (r: Result<
    RegisteredInfo<P, F, D>,
    String,
>)
    ensures
        match r {
            Ok(info) => registration_error(raw_reg_info) is None && info.is_extraction_of(
                raw_reg_info,
            ) && pass_names_of(raw_reg_info.passes()).no_duplicates(),
            Err(e) => registration_error(raw_reg_info) == Some(e@),
        },
        r is Ok <==> (pass_names_of(raw_reg_info.passes()).no_duplicates() && (forall|i: int, d: Seq<char>|
            0 <= i < raw_reg_info.passes().len() && #[trigger] requests_datum(raw_reg_info.passes()[i], d)
                ==> exists|j: int|
                0 <= j < raw_reg_info.passes().len() && #[trigger] raw_reg_info.passes()[j].group(
                    PassInfoGroupedDataKeys::CreateAcc,
                ).contains(d)) && (forall|i: int, d: Seq<char>|
            0 <= i < raw_reg_info.passes().len() ==> !#[trigger] reads_and_writes(raw_reg_info.passes()[i], d))),
{
    proof {
        lemma_registration_accepted_exactly_when(raw_reg_info);
    }
    let ghost raw = raw_reg_info;
    match validate_that_no_passes_have_duplicate_names(&raw_reg_info) {
        Err(e) => {
            return Err(e);
        },
        Ok(_) => {},
    }
    proof {
        lemma_dup_names_empty(pass_names_of(raw.passes()));
    }
    let reg_info: RegisteredInfo<P, F, D> = extract_data_from_raw_reg_info_into_gen_state(raw_reg_info);
    proof {
        let m = reg_info.pass_data.pass_meta_data.pass_mappings;
        assert(group_view(m.table(PassInfoGroupedDataKeys::ReadAcc)) == group_view(m.pass_data_read_reqs));
        assert(group_view(m.table(PassInfoGroupedDataKeys::WriteAcc)) == group_view(m.pass_data_write_reqs));
        assert(group_view(m.table(PassInfoGroupedDataKeys::CreateAcc)) == group_view(m.pass_data_create_reqs));
        assert(entries_view(m.table(PassInfoGroupedDataKeys::ReadAcc)) == entries_view(m.pass_data_read_reqs));
    }
    match validate_that_all_requested_data_is_written_by_a_pass(&reg_info) {
        Err(e) => {
            return Err(e);
        },
        Ok(_) => {},
    }
    match validate_that_no_passes_have_both_read_write_on_any_data(
        &reg_info.pass_data.pass_meta_data.pass_mappings,
    ) {
        Err(e) => {
            return Err(e);
        },
        Ok(_) => {},
    }
    match validate_that_all_prereq_passes_of_passes_exist(&reg_info.pass_data.pass_meta_data) {
        Err(e) => {
            return Err(e);
        },
        Ok(_) => {},
    }
    Ok(reg_info)
}

// ---------------------------------------------------------------------------
// What the checks and tables of a registration mean.

/// The data that a pass both reads and writes are exactly the data its
/// write list and its read list have in common.
pub proof fn lemma_common_keys_are_shared(writes: Seq<Seq<char>>, reads: Seq<Seq<char>>)
    ensures
        forall|x: Seq<char>|
            #[trigger] common_keys(writes, reads).contains(x) <==> (writes.contains(x) && reads.contains(x)),
        common_keys(writes, reads).len() == 0 <==> forall|x: Seq<char>|
            !(#[trigger] writes.contains(x) && reads.contains(x)),
    decreases writes.len(),
{
    let c = common_keys(writes, reads);
    if writes.len() > 0 {
        let w0 = writes.drop_last();
        lemma_common_keys_are_shared(w0, reads);
        let c0 = common_keys(w0, reads);
        assert forall|x: Seq<char>| #[trigger] c.contains(x) <==> (writes.contains(x) && reads.contains(x)) by {
            if c.contains(x) {
                let i = choose|i: int| 0 <= i < c.len() && c[i] == x;
                if i < c0.len() {
                    assert(c0[i] == x);
                    assert(c0.contains(x));
                    let j = choose|j: int| 0 <= j < w0.len() && w0[j] == x;
                    assert(writes[j] == x);
                } else {
                    assert(writes[writes.len() - 1] == x);
                }
            }
            if writes.contains(x) && reads.contains(x) {
                let j = choose|j: int| 0 <= j < writes.len() && writes[j] == x;
                if j < writes.len() - 1 {
                    assert(w0[j] == x);
                    assert(c0.contains(x));
                    let k = choose|k: int| 0 <= k < c0.len() && c0[k] == x;
                    assert(c[k] == x);
                } else {
                    assert(c[c.len() - 1] == x);
                }
            }
        }
    }
    if c.len() > 0 {
        assert(c.contains(c[0]));
    }
    if exists|x: Seq<char>| #[trigger] writes.contains(x) && reads.contains(x) {
        let x = choose|x: Seq<char>| #[trigger] writes.contains(x) && reads.contains(x);
        assert(c.contains(x));
    }
}

/// The data of `ds` that no pass creates are exactly those that no entry of
/// `creates` lists.
pub proof fn lemma_not_created_are_uncreated(ds: Seq<Seq<char>>, creates: Map<Seq<char>, Seq<Seq<char>>>)
    ensures
        forall|x: Seq<char>|
            #[trigger] not_created(ds, creates).contains(x) <==> (ds.contains(x) && !is_created(x, creates)),
        not_created(ds, creates).len() == 0 <==> forall|x: Seq<char>|
            #[trigger] ds.contains(x) ==> is_created(x, creates),
    decreases ds.len(),
{
    let c = not_created(ds, creates);
    if ds.len() > 0 {
        let d0 = ds.drop_last();
        lemma_not_created_are_uncreated(d0, creates);
        let c0 = not_created(d0, creates);
        assert forall|x: Seq<char>| #[trigger] c.contains(x) <==> (ds.contains(x) && !is_created(x, creates)) by {
            if c.contains(x) {
                let i = choose|i: int| 0 <= i < c.len() && c[i] == x;
                if i < c0.len() {
                    assert(c0[i] == x);
                    assert(c0.contains(x));
                    let j = choose|j: int| 0 <= j < d0.len() && d0[j] == x;
                    assert(ds[j] == x);
                } else {
                    assert(ds[ds.len() - 1] == x);
                }
            }
            if ds.contains(x) && !is_created(x, creates) {
                let j = choose|j: int| 0 <= j < ds.len() && ds[j] == x;
                if j < ds.len() - 1 {
                    assert(d0[j] == x);
                    assert(c0.contains(x));
                    let k = choose|k: int| 0 <= k < c0.len() && c0[k] == x;
                    assert(c[k] == x);
                } else {
                    assert(c[c.len() - 1] == x);
                }
            }
        }
    }
    if c.len() > 0 {
        assert(c.contains(c[0]));
    }
    if exists|x: Seq<char>| #[trigger] ds.contains(x) && !is_created(x, creates) {
        let x = choose|x: Seq<char>| #[trigger] ds.contains(x) && !is_created(x, creates);
        assert(c.contains(x));
    }
}

/// Every datum that pass `n` reads or writes is listed by some entry of `creates`.
pub open spec fn requests_created(
    n: Seq<char>,
    reads: Map<Seq<char>, Seq<Seq<char>>>,
    writes: Map<Seq<char>, Seq<Seq<char>>>,
    creates: Map<Seq<char>, Seq<Seq<char>>>,
) -> bool {
    forall|d: Seq<char>|
        #![trigger table_or_empty(reads, n).contains(d)]
        #![trigger table_or_empty(writes, n).contains(d)]
        table_or_empty(reads, n).contains(d) || table_or_empty(writes, n).contains(d) ==> is_created(d, creates)
}

/// No pass of `names` requests data that no pass creates exactly when every
/// datum each of them reads or writes is listed by some entry of `creates`,
/// whatever the order of `names`.
pub proof fn lemma_uncreated_requests_empty(
    names: Seq<Seq<char>>,
    reads: Map<Seq<char>, Seq<Seq<char>>>,
    writes: Map<Seq<char>, Seq<Seq<char>>>,
    creates: Map<Seq<char>, Seq<Seq<char>>>,
)
    ensures
        uncreated_requests(names, reads, writes, creates).len() == 0 <==> forall|i: int|
            0 <= i < names.len() ==> #[trigger] requests_created(names[i], reads, writes, creates),
    decreases names.len(),
{
    if names.len() > 0 {
        let n0 = names.drop_last();
        lemma_uncreated_requests_empty(n0, reads, writes, creates);
        let last = names.last();
        let r = table_or_empty(reads, last);
        let w = table_or_empty(writes, last);
        lemma_not_created_are_uncreated(r, creates);
        lemma_not_created_are_uncreated(w, creates);
        let miss = uncreated_requests_of(last, reads, writes, creates);
        assert(miss.len() == not_created(r, creates).len() + not_created(w, creates).len());
        if requests_created(last, reads, writes, creates) {
            assert forall|x: Seq<char>| #[trigger] r.contains(x) implies is_created(x, creates) by {}
            assert forall|x: Seq<char>| #[trigger] w.contains(x) implies is_created(x, creates) by {}
        }
        if miss.len() == 0 {
            assert forall|d: Seq<char>|
                #![trigger table_or_empty(reads, last).contains(d)]
                #![trigger table_or_empty(writes, last).contains(d)]
                table_or_empty(reads, last).contains(d) || table_or_empty(writes, last).contains(d) implies is_created(
                    d,
                    creates,
                ) by {
                if r.contains(d) {
                    assert(not_created(r, creates).len() == 0);
                }
            }
        }
        assert(miss.len() == 0 <==> requests_created(last, reads, writes, creates));
        let u = uncreated_requests(names, reads, writes, creates);
        let u0 = uncreated_requests(n0, reads, writes, creates);
        assert(u.len() == 0 <==> (u0.len() == 0 && miss.len() == 0));
        if forall|i: int| 0 <= i < names.len() ==> #[trigger] requests_created(names[i], reads, writes, creates) {
            assert forall|i: int| 0 <= i < n0.len() implies #[trigger] requests_created(n0[i], reads, writes, creates) by {
                assert(names[i] == n0[i]);
            }
            assert(requests_created(names[names.len() - 1], reads, writes, creates));
        }
        if u.len() == 0 {
            assert forall|i: int| 0 <= i < names.len() implies #[trigger] requests_created(
                names[i],
                reads,
                writes,
                creates,
            ) by {
                if i < names.len() - 1 {
                    assert(names[i] == n0[i]);
                }
            }
        }
    }
}

/// In a registration whose passes have distinct names, the table of `key`
/// maps each pass that registered anything under `key` to what it
/// registered, and holds nothing else; the order of the passes plays no part.
pub proof fn lemma_group_map_of_holds_each_pass<F>(ps: Seq<RawPassInfo<F>>, key: PassInfoGroupedDataKeys)
    requires
        pass_names_of(ps).no_duplicates(),
    ensures
        forall|i: int|
            0 <= i < ps.len() && (#[trigger] ps[i]).group(key).len() > 0 ==> group_map_of(ps, key).dom().contains(
                ps[i].name_view(),
            ) && group_map_of(ps, key)[ps[i].name_view()] == ps[i].group(key),
        forall|x: Seq<char>|
            #[trigger] group_map_of(ps, key).dom().contains(x) ==> exists|i: int|
                0 <= i < ps.len() && (#[trigger] ps[i]).name_view() == x && ps[i].group(key).len() > 0,
    decreases ps.len(),
{
    if ps.len() > 0 {
        let p0 = ps.drop_last();
        assert(pass_names_of(p0) =~= pass_names_of(ps).drop_last());
        lemma_group_map_of_holds_each_pass(p0, key);
        let n = ps.len() - 1;
        let m = group_map_of(ps, key);
        let m0 = group_map_of(p0, key);
        assert forall|i: int|
            0 <= i < ps.len() && (#[trigger] ps[i]).group(key).len() > 0 implies m.dom().contains(
            ps[i].name_view(),
        ) && m[ps[i].name_view()] == ps[i].group(key) by {
            if i < n {
                assert(p0[i] == ps[i]);
                assert(pass_names_of(ps)[i] != pass_names_of(ps)[n]);
            }
        }
        assert forall|x: Seq<char>| #[trigger] m.dom().contains(x) implies exists|i: int|
            0 <= i < ps.len() && (#[trigger] ps[i]).name_view() == x && ps[i].group(key).len() > 0 by {
            if m0.dom().contains(x) && !(x == ps[n].name_view() && ps[n].group(key).len() > 0) {
                let i = choose|i: int| 0 <= i < p0.len() && (#[trigger] p0[i]).name_view() == x && p0[i].group(key).len() > 0;
                assert(ps[i] == p0[i]);
            } else {
                assert(ps[n].name_view() == x);
            }
        }
    }
}

/// A pass with no description is listed exactly when it is among the passes;
/// so the list is empty exactly when every pass has a description.
pub proof fn lemma_passes_without_desc_lists_each<F>(ps: Seq<RawPassInfo<F>>)
    ensures
        forall|x: Seq<char>|
            #[trigger] passes_without_desc(ps).contains(x) <==> exists|i: int|
                0 <= i < ps.len() && (#[trigger] ps[i]).name_view() == x && ps[i].desc_view() is None,
        passes_without_desc(ps).len() == 0 <==> forall|i: int| 0 <= i < ps.len() ==> (#[trigger] ps[i]).desc_view() is Some,
    decreases ps.len(),
{
    let c = passes_without_desc(ps);
    if ps.len() > 0 {
        let p0 = ps.drop_last();
        lemma_passes_without_desc_lists_each(p0);
        let c0 = passes_without_desc(p0);
        let n = ps.len() - 1;
        assert forall|x: Seq<char>| #[trigger] c.contains(x) <==> exists|i: int|
            0 <= i < ps.len() && (#[trigger] ps[i]).name_view() == x && ps[i].desc_view() is None by {
            if c.contains(x) {
                let k = choose|k: int| 0 <= k < c.len() && c[k] == x;
                if k < c0.len() {
                    assert(c0[k] == x);
                    assert(c0.contains(x));
                    let i = choose|i: int| 0 <= i < p0.len() && (#[trigger] p0[i]).name_view() == x && p0[i].desc_view() is None;
                    assert(ps[i] == p0[i]);
                } else {
                    assert(ps[n].name_view() == x);
                }
            }
            if exists|i: int| 0 <= i < ps.len() && (#[trigger] ps[i]).name_view() == x && ps[i].desc_view() is None {
                let i = choose|i: int| 0 <= i < ps.len() && (#[trigger] ps[i]).name_view() == x && ps[i].desc_view() is None;
                if i < n {
                    assert(p0[i] == ps[i]);
                    assert(c0.contains(x));
                    let k = choose|k: int| 0 <= k < c0.len() && c0[k] == x;
                    assert(c[k] == x);
                } else {
                    assert(c[c.len() - 1] == x);
                }
            }
        }
        if c.len() > 0 {
            assert(c.contains(c[0]));
        }
        if exists|i: int| 0 <= i < ps.len() && (#[trigger] ps[i]).desc_view() is None {
            let i = choose|i: int| 0 <= i < ps.len() && (#[trigger] ps[i]).desc_view() is None;
            assert(c.contains(ps[i].name_view()));
        }
    }
}

/// The report of the passes without a description is made pass by pass:
/// for two runs of passes one after the other it is the report of the first
/// followed by that of the second, and a single pass is reported by its
/// block exactly when it has no description.
pub proof fn lemma_missing_desc_text_is_per_pass<F>(ps: Seq<RawPassInfo<F>>, qs: Seq<RawPassInfo<F>>)
    ensures
        missing_desc_text(ps + qs) == missing_desc_text(ps) + missing_desc_text(qs),
        forall|p: RawPassInfo<F>|
            #[trigger] missing_desc_text(seq![p]) == if p.desc_view() is None {
                pass_info_text(p)
            } else {
                Seq::<char>::empty()
            },
    decreases qs.len(),
{
    if qs.len() == 0 {
        assert(ps + qs =~= ps);
        assert(missing_desc_text(ps) + missing_desc_text(qs) =~= missing_desc_text(ps));
    } else {
        lemma_missing_desc_text_is_per_pass(ps, qs.drop_last());
        assert((ps + qs).drop_last() =~= ps + qs.drop_last());
        assert((ps + qs).last() == qs.last());
        let a = missing_desc_text(ps);
        let b = missing_desc_text(qs.drop_last());
        if qs.last().desc_view() is None {
            assert(a + b + pass_info_text(qs.last()) =~= a + (b + pass_info_text(qs.last())));
        }
    }
    assert forall|p: RawPassInfo<F>|
        #[trigger] missing_desc_text(seq![p]) == if p.desc_view() is None {
            pass_info_text(p)
        } else {
            Seq::<char>::empty()
        } by {
        assert(seq![p].len() == 1);
        assert(seq![p].last() == p);
        assert(seq![p].drop_last() =~= Seq::<RawPassInfo<F>>::empty());
        assert(missing_desc_text(Seq::<RawPassInfo<F>>::empty()) == Seq::<char>::empty());
        assert(Seq::<char>::empty() + pass_info_text(p) =~= pass_info_text(p));
    }
}

/// In a registration whose passes have distinct names, what the table of
/// `key` holds for a pass is what that pass registered under `key`.
pub proof fn lemma_table_of_each_pass<F>(ps: Seq<RawPassInfo<F>>, key: PassInfoGroupedDataKeys)
    requires
        pass_names_of(ps).no_duplicates(),
    ensures
        forall|i: int|
            0 <= i < ps.len() ==> #[trigger] table_or_empty(group_map_of(ps, key), ps[i].name_view()) == ps[i].group(
                key,
            ),
{
    lemma_group_map_of_holds_each_pass(ps, key);
    let m = group_map_of(ps, key);
    assert forall|i: int| 0 <= i < ps.len() implies #[trigger] table_or_empty(m, ps[i].name_view()) == ps[i].group(
        key,
    ) by {
        if ps[i].group(key).len() == 0 && m.dom().contains(ps[i].name_view()) {
            let j = choose|j: int| 0 <= j < ps.len() && (#[trigger] ps[j]).name_view() == ps[i].name_view() && ps[j].group(key).len() > 0;
            assert(pass_names_of(ps)[i] == pass_names_of(ps)[j]);
        }
        if ps[i].group(key).len() == 0 {
            assert(ps[i].group(key) =~= Seq::<Seq<char>>::empty());
        }
    }
}

/// The (name, entries) list of `key` has one entry for each pass that
/// registered anything under `key`, holding what it registered, and no other.
pub proof fn lemma_group_entries_of_holds_each_pass<F>(ps: Seq<RawPassInfo<F>>, key: PassInfoGroupedDataKeys)
    ensures
        forall|j: int|
            0 <= j < group_entries_of(ps, key).len() ==> exists|i: int|
                0 <= i < ps.len() && (#[trigger] ps[i]).group(key).len() > 0 && #[trigger] group_entries_of(ps, key)[j]
                    == (ps[i].name_view(), ps[i].group(key)),
        forall|i: int|
            0 <= i < ps.len() && (#[trigger] ps[i]).group(key).len() > 0 ==> group_entries_of(ps, key).contains(
                (ps[i].name_view(), ps[i].group(key)),
            ),
    decreases ps.len(),
{
    if ps.len() > 0 {
        let p0 = ps.drop_last();
        lemma_group_entries_of_holds_each_pass(p0, key);
        let e = group_entries_of(ps, key);
        let e0 = group_entries_of(p0, key);
        let n = ps.len() - 1;
        assert forall|j: int| 0 <= j < e.len() implies exists|i: int|
            0 <= i < ps.len() && (#[trigger] ps[i]).group(key).len() > 0 && #[trigger] e[j] == (
                ps[i].name_view(),
                ps[i].group(key),
            ) by {
            if j < e0.len() {
                assert(e[j] == e0[j]);
                let i = choose|i: int|
                    0 <= i < p0.len() && (#[trigger] p0[i]).group(key).len() > 0 && #[trigger] e0[j] == (
                        p0[i].name_view(),
                        p0[i].group(key),
                    );
                assert(ps[i] == p0[i]);
            } else {
                assert(e[j] == (ps[n].name_view(), ps[n].group(key)));
            }
        }
        assert forall|i: int| 0 <= i < ps.len() && (#[trigger] ps[i]).group(key).len() > 0 implies e.contains(
            (ps[i].name_view(), ps[i].group(key)),
        ) by {
            if i < n {
                assert(p0[i] == ps[i]);
                let j = choose|j: int| 0 <= j < e0.len() && e0[j] == (p0[i].name_view(), p0[i].group(key));
                assert(e[j] == e0[j]);
            } else {
                assert(e[e.len() - 1] == (ps[n].name_view(), ps[n].group(key)));
            }
        }
    }
}

/// No read entry conflicts exactly when no pass of `entries` that has a
/// write list shares a datum between its write list and its read list.
pub proof fn lemma_rw_conflicts_empty(
    entries: Seq<(Seq<char>, Seq<Seq<char>>)>,
    writes: Map<Seq<char>, Seq<Seq<char>>>,
)
    ensures
        rw_conflicts(entries, writes).len() == 0 <==> forall|j: int|
            0 <= j < entries.len() ==> !(writes.dom().contains((#[trigger] entries[j]).0) && common_keys(
                writes[entries[j].0],
                entries[j].1,
            ).len() > 0),
    decreases entries.len(),
{
    if entries.len() > 0 {
        let e0 = entries.drop_last();
        lemma_rw_conflicts_empty(e0, writes);
        if rw_conflicts(entries, writes).len() == 0 {
            assert forall|j: int| 0 <= j < entries.len() implies !(writes.dom().contains(
                (#[trigger] entries[j]).0,
            ) && common_keys(writes[entries[j].0], entries[j].1).len() > 0) by {
                if j < entries.len() - 1 {
                    assert(entries[j] == e0[j]);
                }
            }
        }
        if forall|j: int|
            0 <= j < entries.len() ==> !(writes.dom().contains((#[trigger] entries[j]).0) && common_keys(
                writes[entries[j].0],
                entries[j].1,
            ).len() > 0) {
            assert forall|j: int| 0 <= j < e0.len() implies !(writes.dom().contains((#[trigger] e0[j]).0)
                && common_keys(writes[e0[j].0], e0[j].1).len() > 0) by {
                assert(entries[j] == e0[j]);
            }
            assert(entries[entries.len() - 1] == entries.last());
        }
    }
}

/// Pass `p` registered `d` for reading or for writing.
pub open spec fn requests_datum<F>(p: RawPassInfo<F>, d: Seq<char>) -> bool {
    p.group(PassInfoGroupedDataKeys::ReadAcc).contains(d) || p.group(PassInfoGroupedDataKeys::WriteAcc).contains(d)
}

/// Pass `p` registered `d` both for reading and for writing.
pub open spec fn reads_and_writes<F>(p: RawPassInfo<F>, d: Seq<char>) -> bool {
    p.group(PassInfoGroupedDataKeys::ReadAcc).contains(d) && p.group(PassInfoGroupedDataKeys::WriteAcc).contains(d)
}

/// A registration is refused when two passes share a name. One whose passes
/// have distinct names is accepted exactly when every datum a pass reads or
/// writes is created by some pass, wherever that pass stands, and no pass
/// both reads and writes one datum.
pub proof fn lemma_registration_accepted_exactly_when<P, F>(raw: RawRegistrationInfo<P, F>)
    ensures
        !pass_names_of(raw.passes()).no_duplicates() ==> registration_error(raw) is Some,
        pass_names_of(raw.passes()).no_duplicates() ==> (registration_error(raw) is None <==> (
        (forall|i: int, d: Seq<char>|
            0 <= i < raw.passes().len() && #[trigger] requests_datum(raw.passes()[i], d) ==> exists|j: int|
                0 <= j < raw.passes().len() && #[trigger] raw.passes()[j].group(
                    PassInfoGroupedDataKeys::CreateAcc,
                ).contains(d)) && (forall|i: int, d: Seq<char>|
            0 <= i < raw.passes().len() ==> !#[trigger] reads_and_writes(raw.passes()[i], d)))),
{
    let ps = raw.passes();
    let names = pass_names_of(ps);
    lemma_dup_names_empty(names);
    if names.no_duplicates() {
        let reads = group_map_of(ps, PassInfoGroupedDataKeys::ReadAcc);
        let writes = group_map_of(ps, PassInfoGroupedDataKeys::WriteAcc);
        let creates = group_map_of(ps, PassInfoGroupedDataKeys::CreateAcc);
        let entries = group_entries_of(ps, PassInfoGroupedDataKeys::ReadAcc);
        lemma_table_of_each_pass(ps, PassInfoGroupedDataKeys::ReadAcc);
        lemma_table_of_each_pass(ps, PassInfoGroupedDataKeys::WriteAcc);
        lemma_table_of_each_pass(ps, PassInfoGroupedDataKeys::CreateAcc);
        lemma_group_map_of_holds_each_pass(ps, PassInfoGroupedDataKeys::CreateAcc);
        lemma_group_map_of_holds_each_pass(ps, PassInfoGroupedDataKeys::WriteAcc);
        lemma_group_entries_of_holds_each_pass(ps, PassInfoGroupedDataKeys::ReadAcc);
        lemma_uncreated_requests_empty(names, reads, writes, creates);
        lemma_rw_conflicts_empty(entries, writes);
        // Being created, in the table's terms and in the passes' terms.
        assert forall|d: Seq<char>| is_created(d, creates) <==> exists|j: int|
            0 <= j < ps.len() && #[trigger] ps[j].group(PassInfoGroupedDataKeys::CreateAcc).contains(d) by {
            if is_created(d, creates) {
                let p = choose|p: Seq<char>| creates.dom().contains(p) && #[trigger] creates[p].contains(d);
                let j = choose|j: int|
                    0 <= j < ps.len() && (#[trigger] ps[j]).name_view() == p && ps[j].group(
                        PassInfoGroupedDataKeys::CreateAcc,
                    ).len() > 0;
                assert(ps[j].group(PassInfoGroupedDataKeys::CreateAcc).contains(d));
            }
            if exists|j: int| 0 <= j < ps.len() && #[trigger] ps[j].group(PassInfoGroupedDataKeys::CreateAcc).contains(d) {
                let j = choose|j: int| 0 <= j < ps.len() && #[trigger] ps[j].group(PassInfoGroupedDataKeys::CreateAcc).contains(d);
                assert(ps[j].group(PassInfoGroupedDataKeys::CreateAcc).len() > 0);
                assert(creates.dom().contains(ps[j].name_view()));
            }
        }
        let all_created = forall|i: int, d: Seq<char>|
            0 <= i < ps.len() && #[trigger] requests_datum(ps[i], d) ==> exists|j: int|
                0 <= j < ps.len() && #[trigger] ps[j].group(PassInfoGroupedDataKeys::CreateAcc).contains(d);
        let no_rw = forall|i: int, d: Seq<char>| 0 <= i < ps.len() ==> !#[trigger] reads_and_writes(ps[i], d);
        // Every pass's requests are created.
        assert(uncreated_requests(names, reads, writes, creates).len() == 0 <==> all_created) by {
            if all_created {
                assert forall|i: int| 0 <= i < names.len() implies #[trigger] requests_created(
                    names[i],
                    reads,
                    writes,
                    creates,
                ) by {
                    assert(names[i] == ps[i].name_view());
                    assert forall|d: Seq<char>|
                        #![trigger table_or_empty(reads, names[i]).contains(d)]
                        #![trigger table_or_empty(writes, names[i]).contains(d)]
                        table_or_empty(reads, names[i]).contains(d) || table_or_empty(writes, names[i]).contains(d)
                            implies is_created(d, creates) by {
                        assert(requests_datum(ps[i], d));
                    }
                }
            }
            if uncreated_requests(names, reads, writes, creates).len() == 0 {
                assert forall|i: int, d: Seq<char>| 0 <= i < ps.len() && #[trigger] requests_datum(ps[i], d) implies exists|j: int|
                    0 <= j < ps.len() && #[trigger] ps[j].group(PassInfoGroupedDataKeys::CreateAcc).contains(d) by {
                    assert(names[i] == ps[i].name_view());
                    assert(requests_created(names[i], reads, writes, creates));
                    if ps[i].group(PassInfoGroupedDataKeys::ReadAcc).contains(d) {
                        assert(table_or_empty(reads, names[i]).contains(d));
                    } else {
                        assert(table_or_empty(writes, names[i]).contains(d));
                    }
                    assert(is_created(d, creates));
                }
            }
        }
        // No pass reads and writes one datum.
        assert(rw_conflicts(entries, writes).len() == 0 <==> no_rw) by {
            if no_rw {
                assert forall|j: int| 0 <= j < entries.len() implies !(writes.dom().contains(
                    (#[trigger] entries[j]).0,
                ) && common_keys(writes[entries[j].0], entries[j].1).len() > 0) by {
                    let i = choose|i: int|
                        0 <= i < ps.len() && (#[trigger] ps[i]).group(PassInfoGroupedDataKeys::ReadAcc).len() > 0
                            && #[trigger] entries[j] == (ps[i].name_view(), ps[i].group(PassInfoGroupedDataKeys::ReadAcc));
                    if writes.dom().contains(entries[j].0) {
                        assert(table_or_empty(writes, ps[i].name_view()) == ps[i].group(PassInfoGroupedDataKeys::WriteAcc));
                        lemma_common_keys_are_shared(writes[entries[j].0], entries[j].1);
                        assert forall|x: Seq<char>| !(#[trigger] writes[entries[j].0].contains(x) && entries[j].1.contains(x)) by {
                            assert(!reads_and_writes(ps[i], x));
                        }
                    }
                }
            }
            if rw_conflicts(entries, writes).len() == 0 {
                assert forall|i: int, d: Seq<char>| 0 <= i < ps.len() implies !#[trigger] reads_and_writes(ps[i], d) by {
                    if reads_and_writes(ps[i], d) {
                        let r = ps[i].group(PassInfoGroupedDataKeys::ReadAcc);
                        let w = ps[i].group(PassInfoGroupedDataKeys::WriteAcc);
                        assert(r.len() > 0 && w.len() > 0);
                        assert(entries.contains((ps[i].name_view(), r)));
                        let j = choose|j: int| 0 <= j < entries.len() && entries[j] == (ps[i].name_view(), r);
                        assert(writes.dom().contains(ps[i].name_view()));
                        assert(writes[ps[i].name_view()] == w);
                        lemma_common_keys_are_shared(w, r);
                        assert(w.contains(d) && r.contains(d));
                        assert(!(writes.dom().contains((entries[j]).0) && common_keys(
                            writes[entries[j].0],
                            entries[j].1,
                        ).len() > 0));
                    }
                }
            }
        }
    }
}

} // verus!
