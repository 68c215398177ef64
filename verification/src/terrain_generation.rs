//! Registration builders for chunk-based generation: the passes and data
//! that a chunked generation run knows of, and the size of its base chunk.
use vstd::prelude::*;

use crate::pass_dependencies::DataAccessType;
use crate::report::names_of;

verus! {

/// A pass's declared access to one piece of data, by the data's name.
pub struct PassDataAccessReg {
    d_str: String,
    access_type: DataAccessType,
}

impl PassDataAccessReg {
    /// The access as a plain value: the data's name and how it is accessed.
    pub closed spec fn view(&self) -> (Seq<char>, DataAccessType) {
        (self.d_str@, self.access_type)
    }

    /// An access of kind `access_type` to the data named `d_str`.
    pub fn new(d_str: String, access_type: DataAccessType) -> (r: PassDataAccessReg)
        ensures
            r@ == (d_str@, access_type),
    {
        PassDataAccessReg { d_str, access_type }
    }
}

/// The accesses in `v`, as plain values, in order.
pub open spec fn accesses_view(v: Seq<PassDataAccessReg>) -> Seq<(Seq<char>, DataAccessType)> {
    v.map_values(|a: PassDataAccessReg| a@)
}

/// What is registered of one pass of a chunked run.
pub struct PassInfoBuilder {
    name: String,
    data_deps: Vec<PassDataAccessReg>,
    prereq_passes: Vec<String>,
}

impl PassInfoBuilder {
    pub closed spec fn name_view(&self) -> Seq<char> {
        self.name@
    }

    /// The pass's data accesses, in registration order.
    pub closed spec fn deps_view(&self) -> Seq<(Seq<char>, DataAccessType)> {
        accesses_view(self.data_deps@)
    }

    /// The names of the passes that must run first, in registration order.
    pub closed spec fn prereqs_view(&self) -> Seq<Seq<char>> {
        names_of(self.prereq_passes@)
    }

    /// A pass named `name` with no data accesses and no prerequisite passes.
    pub fn new(name: String) -> (r: PassInfoBuilder)
        ensures
            r.name_view() == name@,
            r.deps_view() == Seq::<(Seq<char>, DataAccessType)>::empty(),
            r.prereqs_view() == Seq::<Seq<char>>::empty(),
    {
        let r = PassInfoBuilder { name, data_deps: Vec::new(), prereq_passes: Vec::new() };
        assert(r.deps_view() =~= Seq::<(Seq<char>, DataAccessType)>::empty());
        assert(r.prereqs_view() =~= Seq::<Seq<char>>::empty());
        r
    }

    pub fn get_name(&self) -> (r: &String)
        ensures
            r@ == self.name_view(),
    {
        &self.name
    }

    pub fn num_data_deps(&self) -> (n: usize)
        ensures
            n == self.deps_view().len(),
    {
        self.data_deps.len()
    }

    pub fn num_prereq_passes(&self) -> (n: usize)
        ensures
            n == self.prereqs_view().len(),
    {
        self.prereq_passes.len()
    }

    /// Adds a data access to the pass.
    pub fn add_data_dep(self, d_reg: PassDataAccessReg) -> (r: Self)
        ensures
            r.name_view() == self.name_view(),
            r.deps_view() == self.deps_view().push(d_reg@),
            r.prereqs_view() == self.prereqs_view(),
    {
        let ghost reg = d_reg@;
        let PassInfoBuilder { name, mut data_deps, prereq_passes } = self;
        let ghost before = data_deps@;
        data_deps.push(d_reg);
        proof {
            assert(data_deps@ == before.push(data_deps@.last()));
            assert(accesses_view(data_deps@) =~= accesses_view(before).push(reg));
        }
        PassInfoBuilder { name, data_deps, prereq_passes }
    }

    /// Adds a pass that must complete before this one runs.
    pub fn add_prereq_pass(self, p_name: String) -> (r: Self)
        ensures
            r.name_view() == self.name_view(),
            r.deps_view() == self.deps_view(),
            r.prereqs_view() == self.prereqs_view().push(p_name@),
    {
        let PassInfoBuilder { name, data_deps, mut prereq_passes } = self;
        let ghost before = prereq_passes@;
        let ghost added = p_name@;
        prereq_passes.push(p_name);
        proof {
            assert(names_of(prereq_passes@) =~= names_of(before).push(added));
        }
        PassInfoBuilder { name, data_deps, prereq_passes }
    }
}

/// What is registered of one piece of data of a chunked run.
pub struct DataInfoBuilder {
    name: String,
}

impl DataInfoBuilder {
    pub closed spec fn name_view(&self) -> Seq<char> {
        self.name@
    }

    pub fn get_name(&self) -> (r: &String)
        ensures
            r@ == self.name_view(),
    {
        &self.name
    }

    /// A piece of data named `name`.
    pub fn new(name: String) -> (r: DataInfoBuilder)
        ensures
            r.name_view() == name@,
    {
        DataInfoBuilder { name }
    }
}

/// Everything registered for a chunked generation run.
pub struct GenerationStateBuilder {
    reged_passes: Vec<PassInfoBuilder>,
    reged_data: Vec<DataInfoBuilder>,
    base_chunk_dim: usize,
}

impl GenerationStateBuilder {
    /// The registered passes, in registration order.
    pub closed spec fn passes(&self) -> Seq<PassInfoBuilder> {
        self.reged_passes@
    }

    /// The names of the registered data, in registration order.
    pub closed spec fn data_names(&self) -> Seq<Seq<char>> {
        self.reged_data@.map_values(|d: DataInfoBuilder| d.name_view())
    }

    /// The side length of a base chunk.
    pub closed spec fn chunk_size(&self) -> usize {
        self.base_chunk_dim
    }

    /// A run with nothing registered and a base chunk of side one.
    pub fn new() -> (r: GenerationStateBuilder)
        ensures
            r.passes() == Seq::<PassInfoBuilder>::empty(),
            r.data_names() == Seq::<Seq<char>>::empty(),
            r.chunk_size() == 1,
    {
        let r = GenerationStateBuilder { reged_passes: Vec::new(), reged_data: Vec::new(), base_chunk_dim: 1 };
        assert(r.passes() =~= Seq::<PassInfoBuilder>::empty());
        assert(r.data_names() =~= Seq::<Seq<char>>::empty());
        r
    }

    /// Registers a pass.
    pub fn add_pass(self, pass: PassInfoBuilder) -> (r: Self)
        ensures
            r.passes() == self.passes().push(pass),
            r.data_names() == self.data_names(),
            r.chunk_size() == self.chunk_size(),
    {
        let GenerationStateBuilder { mut reged_passes, reged_data, base_chunk_dim } = self;
        reged_passes.push(pass);
        GenerationStateBuilder { reged_passes, reged_data, base_chunk_dim }
    }

    /// Registers a piece of data.
    pub fn add_data(self, data: DataInfoBuilder) -> (r: Self)
        ensures
            r.passes() == self.passes(),
            r.data_names() == self.data_names().push(data.name_view()),
            r.chunk_size() == self.chunk_size(),
    {
        let GenerationStateBuilder { reged_passes, mut reged_data, base_chunk_dim } = self;
        let ghost before = reged_data@;
        let ghost added = data.name_view();
        reged_data.push(data);
        proof {
            assert(reged_data@.map_values(|d: DataInfoBuilder| d.name_view()) =~= before.map_values(
                |d: DataInfoBuilder| d.name_view(),
            ).push(added));
        }
        GenerationStateBuilder { reged_passes, reged_data, base_chunk_dim }
    }

    pub fn get_chunk_size(&self) -> (n: usize)
        ensures
            n == self.chunk_size(),
    {
        self.base_chunk_dim
    }

    pub fn num_passes(&self) -> (n: usize)
        ensures
            n == self.passes().len(),
    {
        self.reged_passes.len()
    }

    pub fn num_data(&self) -> (n: usize)
        ensures
            n == self.data_names().len(),
    {
        self.reged_data.len()
    }

    /// Sets the side length of a base chunk, keeping everything registered.
    pub fn set_chunk_size(self, c_size: usize) -> (r: Self)
        ensures
            r.passes() == self.passes(),
            r.data_names() == self.data_names(),
            r.chunk_size() == c_size,
    {
        let GenerationStateBuilder { reged_passes, reged_data, base_chunk_dim: _ } = self;
        GenerationStateBuilder { reged_passes, reged_data, base_chunk_dim: c_size }
    }
}

} // verus!
