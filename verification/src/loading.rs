//! Loading a module, section by section.
//!
//! Loading stops where it needs the kernel: to create a map, and to learn the version of the
//! kernel that is running. [`Loading::advance`] says what is needed; the answer goes to
//! [`Loading::map_created`] or [`Loading::running_kernel`]. When all sections are read,
//! [`Loading::link`] patches the programs and hands out the module.
use crate::bpf_map::{created_map, BpfMap, BpfMapView, MapCreate, MapCreateView};
use crate::elf::{Object, ObjectView};
use crate::error::{outcome, Failure, LoadError};
use crate::link::{
    apply_rels, check_rels, link_rels, linking_patches_only, patched_only, rels_in_bounds,
};
use crate::module::{Module, ModuleView};
use crate::program::{Program, ProgramView};
use crate::rel::{map_views, program_views, Rel};
use crate::section::{Item, ItemView};
use std::collections::HashMap;
use vstd::prelude::*;
use vstd::string::*;

verus! {

broadcast use {vstd::std_specs::hash::group_hash_axioms, vstd::string::group_string_axioms};

/// What has been read so far: all sections before `next`. Programs and maps are filed under the
/// indices of their sections.
#[verifier::ext_equal]
pub struct LoadState {
    pub next: nat,
    pub rels: Seq<Rel>,
    pub programs: Map<usize, ProgramView>,
    pub maps: Map<usize, BpfMapView>,
    pub license: Seq<char>,
    pub version: u32,
}

impl LoadState {
    /// Before the first section.
    pub open spec fn start() -> LoadState {
        LoadState {
            next: 0,
            rels: Seq::empty(),
            programs: Map::empty(),
            maps: Map::empty(),
            license: Seq::empty(),
            version: 0,
        }
    }

    /// After a section that needs nothing of the kernel.
    pub open spec fn absorb(self, item: ItemView) -> LoadState {
        let passed = LoadState { next: self.next + 1, ..self };
        match item {
            ItemView::Rels(rels) => LoadState { rels: self.rels + rels, ..passed },
            ItemView::Version(version) => LoadState { version, ..passed },
            ItemView::License(license) => LoadState { license, ..passed },
            ItemView::Program(program) => LoadState {
                programs: self.programs.insert(self.next as usize, program),
                ..passed
            },
            _ => passed,
        }
    }

    /// After a section whose map was created.
    pub open spec fn with_map(self, map: BpfMapView) -> LoadState {
        LoadState { next: self.next + 1, maps: self.maps.insert(self.next as usize, map), ..self }
    }

    /// After a section that asks for the version of the running kernel.
    pub open spec fn with_version(self, version: u32) -> LoadState {
        LoadState { next: self.next + 1, version, ..self }
    }
}

/// What has to be done before loading can go on.
pub enum Step {
    /// The kernel has to create a map.
    CreateMap(MapCreate),
    /// The version of the running kernel is needed.
    RunningKernel,
    /// All sections are read: the module can be linked.
    Link,
}

/// The mathematical content of a [`Step`].
pub enum StepView {
    CreateMap(MapCreateView),
    RunningKernel,
    Link,
}

impl View for Step {
    type V = StepView;

    open spec fn view(&self) -> StepView {
        match self {
            Step::CreateMap(request) => StepView::CreateMap(request@),
            Step::RunningKernel => StepView::RunningKernel,
            Step::Link => StepView::Link,
        }
    }
}

/// Reading on from `state`: what is needed next, or the failure of a section, and the state in
/// which reading stops.
pub open spec fn run(object: ObjectView, bytes: Seq<u8>, state: LoadState) -> (
    Result<StepView, Failure>,
    LoadState,
)
    decreases object.sections.len() - state.next,
{
    if state.next >= object.sections.len() {
        (Ok(StepView::Link), state)
    } else {
        match object.item(bytes, state.next as int) {
            Err(failure) => (Err(failure), state),
            Ok(ItemView::BpfMap(request)) => (Ok(StepView::CreateMap(request)), state),
            Ok(ItemView::RunningKernel) => (Ok(StepView::RunningKernel), state),
            Ok(item) => run(object, bytes, state.absorb(item)),
        }
    }
}

/// Whether a section of this meaning is where reading stops: it fails, or it needs the kernel.
pub open spec fn stops_reading(item: Result<ItemView, Failure>) -> bool {
    item is Err || item matches Ok(ItemView::BpfMap(_)) || item matches Ok(ItemView::RunningKernel)
}

/// Whether all sections from `from` on, up to the first that fails or needs the kernel, can be
/// read.
pub open spec fn readable_from(object: ObjectView, bytes: Seq<u8>, from: int) -> bool
    decreases object.sections.len() - from,
{
    from >= object.sections.len() || {
        &&& object.readable(bytes, from)
        &&& stops_reading(object.item(bytes, from)) || readable_from(object, bytes, from + 1)
    }
}

/// The relocations of the first `upto` sections.
pub open spec fn rels_upto(object: ObjectView, bytes: Seq<u8>, upto: nat) -> Seq<Rel>
    decreases upto,
{
    if upto == 0 {
        Seq::empty()
    } else {
        let before = rels_upto(object, bytes, (upto - 1) as nat);
        match object.item(bytes, upto - 1) {
            Ok(ItemView::Rels(rels)) => before + rels,
            _ => before,
        }
    }
}

/// The license that the last license section among the first `upto` sections holds.
pub open spec fn license_upto(object: ObjectView, bytes: Seq<u8>, upto: nat) -> Seq<char>
    decreases upto,
{
    if upto == 0 {
        Seq::empty()
    } else {
        match object.item(bytes, upto - 1) {
            Ok(ItemView::License(license)) => license,
            _ => license_upto(object, bytes, (upto - 1) as nat),
        }
    }
}

/// The version that the last version section among the first `upto` sections holds, or `None`
/// where it asks for that of the running kernel.
pub open spec fn version_upto(object: ObjectView, bytes: Seq<u8>, upto: nat) -> Option<u32>
    decreases upto,
{
    if upto == 0 {
        Some(0)
    } else {
        match object.item(bytes, upto - 1) {
            Ok(ItemView::Version(version)) => Some(version),
            Ok(ItemView::RunningKernel) => None,
            _ => version_upto(object, bytes, (upto - 1) as nat),
        }
    }
}

/// Whether section `k` is one of the first `upto` sections and holds this program.
pub open spec fn holds_program(
    object: ObjectView,
    bytes: Seq<u8>,
    upto: nat,
    k: usize,
    program: ProgramView,
) -> bool {
    k < upto && object.item(bytes, k as int) == Ok::<ItemView, Failure>(ItemView::Program(program))
}

/// Whether section `k` is one of the first `upto` sections and defines a map of this name and
/// kind.
pub open spec fn defines_map(
    object: ObjectView,
    bytes: Seq<u8>,
    upto: nat,
    k: usize,
    map: BpfMapView,
) -> bool {
    &&& k < upto
    &&& object.item(bytes, k as int) matches Ok(ItemView::BpfMap(request))
    &&& request.name == map.name
    &&& request.kind == map.kind
}

/// Whether `state` holds what the sections before `state.next` say, no less and no more.
#[verifier::opaque]
pub open spec fn consistent(object: ObjectView, bytes: Seq<u8>, state: LoadState) -> bool {
    let n = state.next;
    &&& n <= object.sections.len() <= usize::MAX
    &&& forall|k: int| 0 <= k < n ==> (#[trigger] object.item(bytes, k)) is Ok
    &&& state.rels == rels_upto(object, bytes, n)
    &&& state.license == license_upto(object, bytes, n)
    &&& version_upto(object, bytes, n) matches Some(version) ==> state.version == version
    &&& forall|k: usize| #[trigger] state.programs.contains_key(k) ==> holds_program(
        object,
        bytes,
        n,
        k,
        state.programs[k],
    )
    &&& forall|k: usize|
        k < n && (#[trigger] object.item(bytes, k as int) matches Ok(ItemView::Program(_)))
            ==> state.programs.contains_key(k)
    &&& forall|k: usize| #[trigger] state.maps.contains_key(k) ==> defines_map(
        object,
        bytes,
        n,
        k,
        state.maps[k],
    ) && state.maps[k].fd >= 0
    &&& forall|k: usize|
        k < n && (#[trigger] object.item(bytes, k as int) matches Ok(ItemView::BpfMap(_)))
            ==> state.maps.contains_key(k)
}

/// The values that are filed under indices below `upto`, in the order of the indices.
pub open spec fn in_order<V>(filed: Map<usize, V>, upto: nat) -> Seq<V>
    decreases upto,
{
    if upto == 0 {
        Seq::empty()
    } else {
        let before = in_order(filed, (upto - 1) as nat);
        if filed.contains_key((upto - 1) as usize) {
            before.push(filed[(upto - 1) as usize])
        } else {
            before
        }
    }
}

/// The module that comes of linking in this state. Programs and maps stand in the order of their
/// sections.
pub open spec fn linked(object: ObjectView, state: LoadState) -> Result<ModuleView, Failure> {
    match link_rels(state.programs, state.maps, object.symtab, state.rels) {
        Ok(programs) => Ok(
            ModuleView {
                programs: in_order(programs, object.sections.len()),
                maps: in_order(state.maps, object.sections.len()),
                license: state.license,
                version: state.version,
            },
        ),
        Err(failure) => Err(failure),
    }
}

/// A module that is being loaded.
pub struct Loading<'a> {
    bytes: &'a [u8],
    object: Object,
    next: usize,
    rels: Vec<Rel>,
    programs: HashMap<usize, Program>,
    maps: HashMap<usize, BpfMap>,
    license: String,
    version: u32,
}

impl<'a> View for Loading<'a> {
    type V = LoadState;

    closed spec fn view(&self) -> LoadState {
        LoadState {
            next: self.next as nat,
            rels: self.rels@,
            programs: program_views(self.programs@),
            maps: map_views(self.maps@),
            license: self.license@,
            version: self.version,
        }
    }
}

impl<'a> Loading<'a> {
    /// The object that is being loaded.
    pub closed spec fn object(&self) -> ObjectView {
        self.object@
    }

    /// The bytes of the file.
    pub closed spec fn bytes(&self) -> Seq<u8> {
        self.bytes@
    }

    /// What is held is what the sections read so far say.
    pub open spec fn wf(&self) -> bool {
        consistent(self.object(), self.bytes(), self@)
    }

    /// Whether the sections still to be read, up to the first that fails or needs the kernel, can
    /// be read.
    pub open spec fn sound(&self) -> bool {
        readable_from(self.object(), self.bytes(), self@.next as int)
    }

    /// Whether the relocations found so far are in bounds.
    pub open spec fn linkable(&self) -> bool {
        rels_in_bounds(self@.programs, self@.maps, self.object().symtab, self@.rels)
    }

    /// Begins to load the module that is made of this object, which was read from these bytes.
    pub fn new(bytes: &'a [u8], object: Object) -> (r: Loading<'a>)
        ensures
            r.wf(),
            r.object() == object@,
            r.bytes() == bytes@,
            r@ == LoadState::start(),
    {
        let r = Loading {
            bytes,
            object,
            next: 0,
            rels: Vec::new(),
            programs: HashMap::new(),
            maps: HashMap::new(),
            license: String::new(),
            version: 0,
        };
        proof {
            assert(r@ =~= LoadState::start());
            assert(object.sections@.len() == object.sections.len());
            lemma_start(r.object(), r.bytes());
        }
        r
    }

    /// Whether [`Loading::advance`] can read the sections that it would read next.
    pub fn is_sound(&self) -> (r: bool)
        requires
            self.wf(),
        ensures
            r == self.sound(),
    {
        proof {
            lemma_next_in_range(self.object(), self.bytes(), self@);
        }
        for i in self.next..self.object.sections.len()
            invariant
                self.sound() == readable_from(self.object(), self.bytes(), i as int),
        {
            if !self.object.is_readable(self.bytes, i) {
                return false;
            }
            match self.object.read_section(self.bytes, i) {
                Err(_) | Ok(Item::BpfMap(_)) | Ok(Item::RunningKernel) => {
                    return true;
                },
                Ok(_) => {},
            }
        }
        true
    }

    /// Reads on, until the kernel is needed or all sections are read. Called again without an
    /// answer, it says the same again.
    pub fn advance(&mut self) -> (r: Result<Step, LoadError>)
        requires
            old(self).wf(),
            old(self).sound(),
        ensures
            final(self).wf(),
            final(self).sound(),
            final(self).object() == old(self).object(),
            final(self).bytes() == old(self).bytes(),
            (outcome(r), final(self)@) == run(old(self).object(), old(self).bytes(), old(self)@),
            (outcome(r), final(self)@) == run(old(self).object(), old(self).bytes(), final(self)@),
    {
        while self.next < self.object.sections.len()
            invariant
                self.wf(),
                self.sound(),
                self.object() == old(self).object(),
                self.bytes() == old(self).bytes(),
                run(self.object(), self.bytes(), self@) == run(
                    old(self).object(),
                    old(self).bytes(),
                    old(self)@,
                ),
            decreases self.object.sections.len() - self.next,
        {
            let ghost before = self@;
            let ghost object = self.object();
            let item = match self.object.read_section(self.bytes, self.next) {
                Ok(item) => item,
                Err(e) => {
                    return Err(e);
                },
            };
            let ghost read = item@;
            match item {
                Item::BpfMap(request) => {
                    return Ok(Step::CreateMap(request));
                },
                Item::RunningKernel => {
                    return Ok(Step::RunningKernel);
                },
                Item::Rels(rels) => {
                    let mut rels = rels;
                    self.rels.append(&mut rels);
                },
                Item::Version(version) => {
                    self.version = version;
                },
                Item::License(license) => {
                    self.license = license;
                },
                Item::Program(program) => {
                    self.programs.insert(self.next, program);
                },
                Item::Skip => {},
            }
            self.next = self.next + 1;
            proof {
                assert(self@ =~= before.absorb(read));
                lemma_absorb(object, self.bytes(), before, read);
            }
        }
        Ok(Step::Link)
    }

    /// Takes the kernel's answer to the request that [`Loading::advance`] made for a map: the
    /// descriptor of the map, or a negative number.
    pub fn map_created(&mut self, request: MapCreate, fd: i32) -> (r: Result<(), LoadError>)
        requires
            old(self).wf(),
            run(old(self).object(), old(self).bytes(), old(self)@) == (
                Ok::<StepView, Failure>(StepView::CreateMap(request@)),
                old(self)@,
            ),
        ensures
            final(self).wf(),
            final(self).object() == old(self).object(),
            final(self).bytes() == old(self).bytes(),
            match created_map(request@, fd) {
                Ok(map) => r is Ok && final(self)@ == old(self)@.with_map(map),
                Err(failure) => {
                    &&& r matches Err(e) && e@ == failure
                    &&& final(self)@ == old(self)@
                },
            },
    {
        proof {
            reading_stops_where_the_kernel_is_needed(self.object(), self.bytes(), self@);
            lemma_next_in_range(self.object(), self.bytes(), self@);
        }
        match BpfMap::load_reply(request, fd) {
            Ok(map) => {
                let ghost before = self@;
                self.maps.insert(self.next, map);
                self.next = self.next + 1;
                proof {
                    assert(self@ =~= before.with_map(map@));
                    lemma_with_map(self.object(), self.bytes(), before, map@);
                }
                Ok(())
            },
            Err(e) => Err(e),
        }
    }

    /// Takes the version of the running kernel, for which [`Loading::advance`] asked.
    pub fn running_kernel(&mut self, version: u32)
        requires
            old(self).wf(),
            run(old(self).object(), old(self).bytes(), old(self)@) == (
                Ok::<StepView, Failure>(StepView::RunningKernel),
                old(self)@,
            ),
        ensures
            final(self).wf(),
            final(self).object() == old(self).object(),
            final(self).bytes() == old(self).bytes(),
            final(self)@ == old(self)@.with_version(version),
    {
        proof {
            reading_stops_where_the_kernel_is_needed(self.object(), self.bytes(), self@);
            lemma_next_in_range(self.object(), self.bytes(), self@);
        }
        let ghost before = self@;
        self.version = version;
        self.next = self.next + 1;
        proof {
            assert(self@ =~= before.with_version(version));
            lemma_with_version(self.object(), self.bytes(), before, version);
        }
    }

    /// Whether [`Loading::link`] can apply the relocations.
    pub fn is_linkable(&self) -> (r: bool)
        ensures
            r == self.linkable(),
    {
        check_rels(&self.programs, &self.maps, &self.object.symtab, &self.rels)
    }

    /// Applies the relocations and hands out the module, when all sections are read.
    pub fn link(self) -> (r: Result<Module, LoadError>)
        requires
            self.wf(),
            self.linkable(),
            self@.next == self.object().sections.len(),
        ensures
            outcome(r) == linked(self.object(), self@),
    {
        let Loading { bytes: _, object, next, rels, programs, maps, license, version } = self;
        let mut programs = programs;
        match apply_rels(&mut programs, &maps, &object.symtab, &rels) {
            Ok(()) => {},
            Err(e) => {
                return Err(e);
            },
        }
        proof {
            lemma_in_order_map_values(programs@, |p: Program| p@, next as nat);
            lemma_in_order_map_values(maps@, |m: BpfMap| m@, next as nat);
        }
        let programs = take_in_order(programs, next);
        let maps = take_in_order(maps, next);
        Ok(Module { programs, maps, license, version })
    }
}

/// The values that are filed under indices below `upto`, in the order of the indices.
fn take_in_order<T>(filed: HashMap<usize, T>, upto: usize) -> (r: Vec<T>)
    ensures
        r@ == in_order(filed@, upto as nat),
{
    let mut filed = filed;
    let ghost start = filed@;
    let mut taken: Vec<T> = Vec::new();
    for i in 0..upto
        invariant
            taken@ == in_order(start, i as nat),
            forall|k: usize|
                i <= k < upto ==> (#[trigger] filed@.contains_key(k) <==> start.contains_key(k)),
            forall|k: usize|
                i <= k < upto && #[trigger] filed@.contains_key(k) ==> filed@[k] == start[k],
    {
        if let Some(value) = filed.remove(&i) {
            taken.push(value);
        }
    }
    taken
}

/// Taking values in order and looking at their contents can be done in either order.
proof fn lemma_in_order_map_values<V, W>(filed: Map<usize, V>, f: spec_fn(V) -> W, upto: nat)
    requires
        upto <= usize::MAX,
    ensures
        in_order(filed.map_values(f), upto) == in_order(filed, upto).map_values(f),
    decreases upto,
{
    if upto > 0 {
        lemma_in_order_map_values(filed, f, (upto - 1) as nat);
    }
    assert(in_order(filed.map_values(f), upto) =~= in_order(filed, upto).map_values(f));
}

/// Reading never goes back. It stops for the kernel before the section that needs it, and else
/// only when all sections are read or one fails. Read on from where it stopped, it says the same
/// again. It leaves the maps alone.
pub proof fn reading_stops_where_the_kernel_is_needed(
    object: ObjectView,
    bytes: Seq<u8>,
    state: LoadState,
)
    ensures
        ({
            let (step, stop) = run(object, bytes, state);
            &&& stop.next >= state.next
            &&& stop.maps == state.maps
            &&& run(object, bytes, stop) == (step, stop)
            &&& match step {
                Ok(StepView::Link) => stop.next >= object.sections.len(),
                Ok(StepView::CreateMap(request)) => {
                    &&& stop.next < object.sections.len()
                    &&& object.item(bytes, stop.next as int) == Ok::<ItemView, Failure>(
                        ItemView::BpfMap(request),
                    )
                },
                Ok(StepView::RunningKernel) => {
                    &&& stop.next < object.sections.len()
                    &&& object.item(bytes, stop.next as int) == Ok::<ItemView, Failure>(
                        ItemView::RunningKernel,
                    )
                },
                Err(failure) => {
                    &&& stop.next < object.sections.len()
                    &&& object.item(bytes, stop.next as int) == Err::<ItemView, Failure>(failure)
                },
            }
        }),
    decreases object.sections.len() - state.next,
{
    if state.next < object.sections.len() {
        match object.item(bytes, state.next as int) {
            Err(_) | Ok(ItemView::BpfMap(_)) | Ok(ItemView::RunningKernel) => {},
            Ok(item) => {
                reading_stops_where_the_kernel_is_needed(object, bytes, state.absorb(item));
            },
        }
    }
}

/// Before the first section, nothing is held.
pub(crate) proof fn lemma_start(object: ObjectView, bytes: Seq<u8>)
    requires
        object.sections.len() <= usize::MAX,
    ensures
        consistent(object, bytes, LoadState::start()),
{
    reveal(consistent);
}

/// No more sections are read than there are.
pub(crate) proof fn lemma_next_in_range(object: ObjectView, bytes: Seq<u8>, state: LoadState)
    requires
        consistent(object, bytes, state),
    ensures
        state.next <= object.sections.len() <= usize::MAX,
{
    reveal(consistent);
}

/// A section that needs nothing of the kernel keeps the state consistent.
pub(crate) proof fn lemma_absorb(
    object: ObjectView,
    bytes: Seq<u8>,
    state: LoadState,
    item: ItemView,
)
    requires
        consistent(object, bytes, state),
        state.next < object.sections.len(),
        object.item(bytes, state.next as int) == Ok::<ItemView, Failure>(item),
        !(item is BpfMap),
        !(item is RunningKernel),
    ensures
        consistent(object, bytes, state.absorb(item)),
{
    reveal(consistent);
}

/// A map that the kernel created keeps the state consistent.
pub(crate) proof fn lemma_with_map(
    object: ObjectView,
    bytes: Seq<u8>,
    state: LoadState,
    map: BpfMapView,
)
    requires
        consistent(object, bytes, state),
        state.next < object.sections.len(),
        object.item(bytes, state.next as int) matches Ok(ItemView::BpfMap(request)) && request.name
            == map.name && request.kind == map.kind,
        map.fd >= 0,
    ensures
        consistent(object, bytes, state.with_map(map)),
{
    reveal(consistent);
}

/// The version of the running kernel keeps the state consistent.
pub(crate) proof fn lemma_with_version(
    object: ObjectView,
    bytes: Seq<u8>,
    state: LoadState,
    version: u32,
)
    requires
        consistent(object, bytes, state),
        state.next < object.sections.len(),
        object.item(bytes, state.next as int) == Ok::<ItemView, Failure>(ItemView::RunningKernel),
    ensures
        consistent(object, bytes, state.with_version(version)),
{
    reveal(consistent);
}

/// Reading on keeps the state consistent.
pub proof fn reading_keeps_to_the_file(object: ObjectView, bytes: Seq<u8>, state: LoadState)
    requires
        consistent(object, bytes, state),
    ensures
        consistent(object, bytes, run(object, bytes, state).1),
    decreases object.sections.len() - state.next,
{
    if state.next < object.sections.len() {
        match object.item(bytes, state.next as int) {
            Err(_) | Ok(ItemView::BpfMap(_)) | Ok(ItemView::RunningKernel) => {},
            Ok(item) => {
                lemma_absorb(object, bytes, state, item);
                reading_keeps_to_the_file(object, bytes, state.absorb(item));
            },
        }
    }
}

/// Where values are taken in order, the one filed under `k` comes after those filed under lower
/// indices.
pub(crate) proof fn lemma_taken<V>(filed: Map<usize, V>, k: usize, upto: nat)
    requires
        filed.contains_key(k),
        k < upto <= usize::MAX,
    ensures
        in_order(filed, k as nat).len() < in_order(filed, upto).len(),
        in_order(filed, upto)[in_order(filed, k as nat).len() as int] == filed[k],
    decreases upto,
{
    if k < upto - 1 {
        lemma_taken(filed, k, (upto - 1) as nat);
    }
}

/// Every value that is taken in order was filed under some index.
proof fn lemma_taken_from<V>(filed: Map<usize, V>, upto: nat, j: int) -> (k: usize)
    requires
        0 <= j < in_order(filed, upto).len(),
        upto <= usize::MAX,
    ensures
        k < upto,
        filed.contains_key(k),
        j == in_order(filed, k as nat).len(),
    decreases upto,
{
    let before = in_order(filed, (upto - 1) as nat);
    if j < before.len() {
        lemma_taken_from(filed, (upto - 1) as nat, j)
    } else {
        (upto - 1) as usize
    }
}

/// How many of the first `upto` sections hold a program.
pub open spec fn programs_upto(object: ObjectView, bytes: Seq<u8>, upto: nat) -> nat
    decreases upto,
{
    if upto == 0 {
        0
    } else {
        let before = programs_upto(object, bytes, (upto - 1) as nat);
        match object.item(bytes, upto - 1) {
            Ok(ItemView::Program(_)) => before + 1,
            _ => before,
        }
    }
}

/// How many of the first `upto` sections define a map.
pub open spec fn maps_upto(object: ObjectView, bytes: Seq<u8>, upto: nat) -> nat
    decreases upto,
{
    if upto == 0 {
        0
    } else {
        let before = maps_upto(object, bytes, (upto - 1) as nat);
        match object.item(bytes, upto - 1) {
            Ok(ItemView::BpfMap(_)) => before + 1,
            _ => before,
        }
    }
}

/// Whether `module` holds what the sections of the file say: the license and the version of the
/// last sections that give one; a program for each section that holds one, in the order of the
/// sections, neither loaded nor attached and changed in nothing but what relocations patch; and a
/// map for each section that defines one, in the order of the sections.
pub open spec fn comes_from(object: ObjectView, bytes: Seq<u8>, module: ModuleView) -> bool {
    let n = object.sections.len();
    &&& forall|k: int| 0 <= k < n ==> (#[trigger] object.item(bytes, k)) is Ok
    &&& module.license == license_upto(object, bytes, n)
    &&& version_upto(object, bytes, n) matches Some(version) ==> module.version == version
    &&& module.programs.len() == programs_upto(object, bytes, n)
    &&& forall|j: int|
        0 <= j < module.programs.len() ==> (#[trigger] module.programs[j]).fd is None
            && module.programs[j].pfd is None
    &&& forall|k: usize, p: ProgramView| #[trigger]
        holds_program(object, bytes, n, k, p) ==> {
            let j = programs_upto(object, bytes, k as nat) as int;
            j < module.programs.len() && patched_only(p, module.programs[j])
        }
    &&& module.maps.len() == maps_upto(object, bytes, n)
    &&& forall|k: usize|
        k < n && (#[trigger] object.item(bytes, k as int) matches Ok(ItemView::BpfMap(_))) ==> {
            let j = maps_upto(object, bytes, k as nat) as int;
            &&& j < module.maps.len()
            &&& defines_map(object, bytes, n, k, module.maps[j])
            &&& module.maps[j].fd >= 0
        }
}

/// As many values are taken in order as there are sections of the sort.
pub(crate) proof fn lemma_counts<V>(
    object: ObjectView,
    bytes: Seq<u8>,
    state: LoadState,
    programs: Map<usize, V>,
    upto: nat,
)
    requires
        consistent(object, bytes, state),
        upto <= state.next,
        forall|k: usize| programs.contains_key(k) == state.programs.contains_key(k),
    ensures
        in_order(programs, upto).len() == programs_upto(object, bytes, upto),
        in_order(state.maps, upto).len() == maps_upto(object, bytes, upto),
    decreases upto,
{
    reveal(consistent);
    if upto > 0 {
        lemma_counts(object, bytes, state, programs, (upto - 1) as nat);
        let k = (upto - 1) as usize;
        assert(object.item(bytes, k as int) == object.item(bytes, upto - 1));
        if state.programs.contains_key(k) {
            assert(holds_program(object, bytes, state.next, k, state.programs[k]));
        }
        if state.maps.contains_key(k) {
            assert(defines_map(object, bytes, state.next, k, state.maps[k]));
        }
    }
}

/// A module that comes of linking, when all sections are read, holds what the file says.
pub proof fn linking_gives_what_the_file_says(
    object: ObjectView,
    bytes: Seq<u8>,
    state: LoadState,
    module: ModuleView,
)
    requires
        consistent(object, bytes, state),
        state.next == object.sections.len(),
        rels_in_bounds(state.programs, state.maps, object.symtab, state.rels),
        linked(object, state) == Ok::<ModuleView, Failure>(module),
    ensures
        comes_from(object, bytes, module),
{
    reveal(consistent);
    let n = object.sections.len();
    let programs = link_rels(state.programs, state.maps, object.symtab, state.rels)->Ok_0;
    linking_patches_only(state.programs, state.maps, object.symtab, state.rels);
    lemma_counts(object, bytes, state, programs, n);
    assert forall|j: int| 0 <= j < module.programs.len() implies (#[trigger] module.programs[j]).fd
        is None && module.programs[j].pfd is None by {
        let k = lemma_taken_from(programs, n, j);
        lemma_taken(programs, k, n);
        assert(state.programs.contains_key(k));
        assert(holds_program(object, bytes, n, k, state.programs[k]));
        assert(patched_only(state.programs[k], programs[k]));
    }
    assert forall|k: usize, p: ProgramView| #[trigger]
        holds_program(object, bytes, n, k, p) implies {
        let j = programs_upto(object, bytes, k as nat) as int;
        j < module.programs.len() && patched_only(p, module.programs[j])
    } by {
        assert(object.item(bytes, k as int) matches Ok(ItemView::Program(_)));
        assert(state.programs.contains_key(k));
        assert(holds_program(object, bytes, n, k, state.programs[k]));
        assert(patched_only(state.programs[k], programs[k]));
        lemma_counts(object, bytes, state, programs, k as nat);
        lemma_taken(programs, k, n);
    }
    assert forall|k: usize|
        k < n && (#[trigger] object.item(bytes, k as int) matches Ok(
            ItemView::BpfMap(_),
        )) implies {
        let j = maps_upto(object, bytes, k as nat) as int;
        &&& j < module.maps.len()
        &&& defines_map(object, bytes, n, k, module.maps[j])
        &&& module.maps[j].fd >= 0
    } by {
        assert(state.maps.contains_key(k));
        lemma_counts(object, bytes, state, programs, k as nat);
        lemma_taken(state.maps, k, n);
    }
}

} // verus!
