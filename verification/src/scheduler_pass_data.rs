//! What the scheduler hands to a running pass: the parameters and data it
//! requested, and room for the data it creates.
use vstd::prelude::*;

use crate::id_map::IdMap;

verus! {

/// The characters of each created datum's name, with its value.
pub open spec fn created_vec_view<D>(v: Seq<(String, Option<D>)>) -> Seq<(Seq<char>, Option<D>)> {
    v.map_values(|e: (String, Option<D>)| (e.0@, e.1))
}

/// The characters of each written datum's name, with its value.
pub open spec fn written_vec_view<D>(v: Seq<(String, D)>) -> Seq<(Seq<char>, D)> {
    v.map_values(|e: (String, D)| (e.0@, e.1))
}

/// The inputs of one run of a pass. `P` is a parameter value, `D` a datum.
pub struct DataRequestedByPass<P, D> {
    req_params: IdMap<P>,
    req_data_read: IdMap<D>,
    req_data_write: IdMap<D>,
    new_data_created_by_pass: IdMap<Option<D>>,
}

impl<P, D> DataRequestedByPass<P, D> {
    pub closed spec fn params_view(&self) -> Map<Seq<char>, P> {
        self.req_params@
    }

    pub closed spec fn read_view(&self) -> Map<Seq<char>, D> {
        self.req_data_read@
    }

    pub closed spec fn write_view(&self) -> Map<Seq<char>, D> {
        self.req_data_write@
    }

    /// The data the pass may create, each with what it created, if anything yet.
    pub closed spec fn created_view(&self) -> Map<Seq<char>, Option<D>> {
        self.new_data_created_by_pass@
    }

    /// The created-data table as (datum, value) pairs in order.
    pub closed spec fn created_pairs(&self) -> Seq<(Seq<char>, Option<D>)> {
        self.new_data_created_by_pass.pairs()
    }

    /// The write table as (datum, value) pairs in order.
    pub closed spec fn written_pairs(&self) -> Seq<(Seq<char>, D)> {
        self.req_data_write.pairs()
    }

    pub closed spec fn wf(&self) -> bool {
        &&& self.req_params.wf()
        &&& self.req_data_read.wf()
        &&& self.req_data_write.wf()
        &&& self.new_data_created_by_pass.wf()
    }

    /// The created-data pairs name each datum once, and are exactly what
    /// `created_view` maps.
    pub proof fn lemma_created_pairs(&self)
        requires
            self.wf(),
        ensures
            forall|a: int, b: int|
                0 <= a < b < self.created_pairs().len() ==> self.created_pairs()[a].0 != self.created_pairs()[b].0,
            forall|i: int|
                0 <= i < self.created_pairs().len() ==> self.created_view().dom().contains(
                    #[trigger] self.created_pairs()[i].0,
                ) && self.created_view()[self.created_pairs()[i].0] == self.created_pairs()[i].1,
            forall|k: Seq<char>|
                #[trigger] self.created_view().dom().contains(k) ==> exists|i: int|
                    0 <= i < self.created_pairs().len() && self.created_pairs()[i].0 == k,
    {
        let m = self.new_data_created_by_pass;
        m.lemma_lens();
        assert forall|i: int| 0 <= i < self.created_pairs().len() implies self.created_view().dom().contains(
            #[trigger] self.created_pairs()[i].0,
        ) && self.created_view()[self.created_pairs()[i].0] == self.created_pairs()[i].1 by {
            m.lemma_view_index(i);
        }
        assert forall|k: Seq<char>| #[trigger] self.created_view().dom().contains(k) implies exists|i: int|
            0 <= i < self.created_pairs().len() && self.created_pairs()[i].0 == k by {
            let i = choose|i: int| 0 <= i < m.keys().len() && m.keys()[i] == k;
            assert(self.created_pairs()[i].0 == k);
        }
    }

    /// The written-data pairs name each datum once, and are exactly what
    /// `write_view` maps.
    pub proof fn lemma_written_pairs(&self)
        requires
            self.wf(),
        ensures
            forall|a: int, b: int|
                0 <= a < b < self.written_pairs().len() ==> self.written_pairs()[a].0 != self.written_pairs()[b].0,
            forall|i: int|
                0 <= i < self.written_pairs().len() ==> self.write_view().dom().contains(
                    #[trigger] self.written_pairs()[i].0,
                ) && self.write_view()[self.written_pairs()[i].0] == self.written_pairs()[i].1,
            forall|k: Seq<char>|
                #[trigger] self.write_view().dom().contains(k) ==> exists|i: int|
                    0 <= i < self.written_pairs().len() && self.written_pairs()[i].0 == k,
    {
        let m = self.req_data_write;
        m.lemma_lens();
        assert forall|i: int| 0 <= i < self.written_pairs().len() implies self.write_view().dom().contains(
            #[trigger] self.written_pairs()[i].0,
        ) && self.write_view()[self.written_pairs()[i].0] == self.written_pairs()[i].1 by {
            m.lemma_view_index(i);
        }
        assert forall|k: Seq<char>| #[trigger] self.write_view().dom().contains(k) implies exists|i: int|
            0 <= i < self.written_pairs().len() && self.written_pairs()[i].0 == k by {
            let i = choose|i: int| 0 <= i < m.keys().len() && m.keys()[i] == k;
            assert(self.written_pairs()[i].0 == k);
        }
    }

    pub(crate) fn new() -> (r: DataRequestedByPass<P, D>)
        ensures
            r.wf(),
            r.params_view() == Map::<Seq<char>, P>::empty(),
            r.read_view() == Map::<Seq<char>, D>::empty(),
            r.write_view() == Map::<Seq<char>, D>::empty(),
            r.created_view() == Map::<Seq<char>, Option<D>>::empty(),
    {
        DataRequestedByPass {
            req_params: IdMap::new(),
            req_data_read: IdMap::new(),
            req_data_write: IdMap::new(),
            new_data_created_by_pass: IdMap::new(),
        }
    }

    pub(crate) fn add_req_param(&mut self, p_key: String, param: P)
        requires
            old(self).wf(),
        ensures
            final(self).wf(),
            final(self).params_view() == old(self).params_view().insert(p_key@, param),
            final(self).read_view() == old(self).read_view(),
            final(self).write_view() == old(self).write_view(),
            final(self).created_view() == old(self).created_view(),
    {
        self.req_params.insert(p_key, param);
    }

    pub(crate) fn add_req_read_data(&mut self, d_key: String, data: D)
        requires
            old(self).wf(),
        ensures
            final(self).wf(),
            final(self).params_view() == old(self).params_view(),
            final(self).read_view() == old(self).read_view().insert(d_key@, data),
            final(self).write_view() == old(self).write_view(),
            final(self).created_view() == old(self).created_view(),
    {
        self.req_data_read.insert(d_key, data);
    }

    pub(crate) fn add_req_write_data(&mut self, d_key: String, data: D)
        requires
            old(self).wf(),
        ensures
            final(self).wf(),
            final(self).params_view() == old(self).params_view(),
            final(self).read_view() == old(self).read_view(),
            final(self).write_view() == old(self).write_view().insert(d_key@, data),
            final(self).created_view() == old(self).created_view(),
    {
        self.req_data_write.insert(d_key, data);
    }

    pub(crate) fn add_req_create_data(&mut self, d_key: String)
        requires
            old(self).wf(),
        ensures
            final(self).wf(),
            final(self).params_view() == old(self).params_view(),
            final(self).read_view() == old(self).read_view(),
            final(self).write_view() == old(self).write_view(),
            final(self).created_view() == old(self).created_view().insert(d_key@, None),
    {
        self.new_data_created_by_pass.insert(d_key, None);
    }

    /// The parameter `p_key`, which the pass requested.
    pub fn get_param(&self, p_key: &str) -> (r: &P)
        requires
            self.wf(),
            self.params_view().dom().contains(p_key@),
        ensures
            *r == self.params_view()[p_key@],
    {
        let key = p_key.to_owned();
        match self.req_params.get(&key) {
            Some(p) => p,
            None => {
                proof {
                    assert(false);
                }
                self.req_params.value_at(0)
            },
        }
    }

    /// Whether the pass requested the parameter `p_key`.
    pub fn has_param(&self, p_key: &str) -> (b: bool)
        requires
            self.wf(),
        ensures
            b == self.params_view().dom().contains(p_key@),
    {
        self.req_params.contains_key(&p_key.to_owned())
    }

    /// The datum `d_key`, which the pass requested to read.
    pub fn get_data_ref(&self, d_key: &str) -> (r: &D)
        requires
            self.wf(),
            self.read_view().dom().contains(d_key@),
        ensures
            *r == self.read_view()[d_key@],
    {
        let key = d_key.to_owned();
        match self.req_data_read.get(&key) {
            Some(d) => d,
            None => {
                proof {
                    assert(false);
                }
                self.req_data_read.value_at(0)
            },
        }
    }

    /// Whether the pass requested to read `d_key`.
    pub fn has_data_ref(&self, d_key: &str) -> (b: bool)
        requires
            self.wf(),
        ensures
            b == self.read_view().dom().contains(d_key@),
    {
        self.req_data_read.contains_key(&d_key.to_owned())
    }

    /// The datum `d_key`, which the pass requested to write, to be changed in
    /// place: what it holds when the borrow ends is what the pass wrote.
    pub fn get_data_mut(&mut self, d_key: &str) -> (r: &mut D)
        requires
            old(self).wf(),
            old(self).write_view().dom().contains(d_key@),
        ensures
            *r == old(self).write_view()[d_key@],
            final(self).wf(),
            final(self).params_view() == old(self).params_view(),
            final(self).read_view() == old(self).read_view(),
            final(self).write_view() == old(self).write_view().insert(d_key@, *final(r)),
            final(self).created_view() == old(self).created_view(),
            final(self).created_pairs() == old(self).created_pairs(),
    {
        let key = d_key.to_owned();
        let i = match self.req_data_write.find(&key) {
            Some(i) => i,
            None => {
                proof {
                    assert(false);
                }
                0
            },
        };
        self.req_data_write.value_at_mut(i)
    }

    /// Whether the pass requested to write `d_key`.
    pub fn has_data_mut(&self, d_key: &str) -> (b: bool)
        requires
            self.wf(),
        ensures
            b == self.write_view().dom().contains(d_key@),
    {
        self.req_data_write.contains_key(&d_key.to_owned())
    }

    /// Records `data` as what the pass created under `d_key`, which it
    /// registered as data it creates.
    pub fn write_data(&mut self, d_key: &str, data: D)
        requires
            old(self).wf(),
            old(self).created_view().dom().contains(d_key@),
        ensures
            final(self).wf(),
            final(self).params_view() == old(self).params_view(),
            final(self).read_view() == old(self).read_view(),
            final(self).write_view() == old(self).write_view(),
            final(self).created_view() == old(self).created_view().insert(d_key@, Some(data)),
    {
        self.new_data_created_by_pass.insert(d_key.to_owned(), Some(data));
    }

    /// Whether the pass registered `d_key` as data it creates.
    pub fn may_create(&self, d_key: &str) -> (b: bool)
        requires
            self.wf(),
        ensures
            b == self.created_view().dom().contains(d_key@),
    {
        self.new_data_created_by_pass.contains_key(&d_key.to_owned())
    }

    /// Takes out the write table, in order, leaving it empty.
    pub fn take_written(&mut self) -> (r: Vec<(String, D)>)
        requires
            old(self).wf(),
        ensures
            written_vec_view(r@) == old(self).written_pairs(),
            final(self).wf(),
            final(self).params_view() == old(self).params_view(),
            final(self).read_view() == old(self).read_view(),
            final(self).write_view() == Map::<Seq<char>, D>::empty(),
            final(self).created_view() == old(self).created_view(),
            final(self).created_pairs() == old(self).created_pairs(),
    {
        let mut w = IdMap::new();
        std::mem::swap(&mut w, &mut self.req_data_write);
        let r = w.into_vec();
        assert(written_vec_view(r@) =~= w.pairs());
        r
    }

    /// The created-data table, in order.
    pub fn into_created(self) -> (r: Vec<(String, Option<D>)>)
        ensures
            created_vec_view(r@) == self.created_pairs(),
    {
        self.new_data_created_by_pass.into_vec()
    }
}

} // verus!
