//! Modules: the programs and maps of one object file.
use crate::bpf_map::{created_map, BpfMap, BpfMapView, MapCreate, MapCreateView};
use crate::elf::{elf_object, parse_elf, Object, ObjectView};
use crate::error::{outcome, Failure, LoadError};
use crate::link::rels_in_bounds;
use crate::loading::{
    lemma_next_in_range, linked, readable_from, reading_stops_where_the_kernel_is_needed, run,
    LoadState, Loading, Step, StepView,
};
use crate::program::{ProgLoad, Program, ProgramView};
use vstd::prelude::*;
use vstd::string::*;

verus! {

/// The programs and maps of an object file, its license, and the version of the kernel that it is
/// meant for.
pub struct Module {
    pub programs: Vec<Program>,
    pub maps: Vec<BpfMap>,
    pub license: String,
    pub version: u32,
}

/// The mathematical content of a [`Module`].
pub struct ModuleView {
    pub programs: Seq<ProgramView>,
    pub maps: Seq<BpfMapView>,
    pub license: Seq<char>,
    pub version: u32,
}

impl View for Module {
    type V = ModuleView;

    open spec fn view(&self) -> ModuleView {
        ModuleView {
            programs: self.programs@.map_values(|p: Program| p@),
            maps: self.maps@.map_values(|m: BpfMap| m@),
            license: self.license@,
            version: self.version,
        }
    }
}

/// An answer of the kernel while a module is loaded.
pub enum Reply {
    /// The descriptor of a map that was to be created, or a negative number.
    Descriptor(i32),
    /// The version of the running kernel.
    Version(u32),
}

/// The outcome of loading on from `state` when the kernel answers with `replies` in turn: a
/// module or a failure. `None` where a section cannot be read, where a relocation is out of
/// bounds, and where an answer is missing or of the wrong sort.
pub open spec fn load_all(
    object: ObjectView,
    bytes: Seq<u8>,
    state: LoadState,
    replies: Seq<Reply>,
) -> Option<Result<ModuleView, Failure>>
    decreases replies.len(),
{
    let (step, stop) = run(object, bytes, state);
    if !readable_from(object, bytes, state.next as int) {
        None
    } else {
        match step {
            Err(failure) => Some(Err(failure)),
            Ok(StepView::Link) => {
                if rels_in_bounds(stop.programs, stop.maps, object.symtab, stop.rels) {
                    Some(linked(object, stop))
                } else {
                    None
                }
            },
            Ok(StepView::CreateMap(request)) => {
                if replies.len() == 0 {
                    None
                } else {
                    match replies[0] {
                        Reply::Descriptor(fd) => match created_map(request, fd) {
                            Ok(map) => load_all(
                                object,
                                bytes,
                                stop.with_map(map),
                                replies.drop_first(),
                            ),
                            Err(failure) => Some(Err(failure)),
                        },
                        _ => None,
                    }
                }
            },
            Ok(StepView::RunningKernel) => {
                if replies.len() == 0 {
                    None
                } else {
                    match replies[0] {
                        Reply::Version(version) => load_all(
                            object,
                            bytes,
                            stop.with_version(version),
                            replies.drop_first(),
                        ),
                        _ => None,
                    }
                }
            },
        }
    }
}

/// Whether `create_map`, called with the handle `kernel` and a request of this content, may give
/// back the handle `after` and answer with `fd`.
pub open spec fn may_create<S, F: Fn(S, &MapCreate) -> (S, i32)>(
    create_map: F,
    kernel: S,
    request: MapCreateView,
    after: S,
    fd: i32,
) -> bool {
    exists|q: MapCreate|
        q@ == request && #[trigger] call_ensures(create_map, (kernel, &q), (after, fd))
}

/// The answers in a talk with the kernel, in which each answer stands with the handle that was
/// given back with it.
pub open spec fn replies_of<S>(talk: Seq<(Reply, S)>) -> Seq<Reply> {
    talk.map_values(|turn: (Reply, S)| turn.0)
}

/// The handle that a talk, begun with the handle `kernel`, ends with.
pub open spec fn end_of<S>(kernel: S, talk: Seq<(Reply, S)>) -> S {
    if talk.len() == 0 {
        kernel
    } else {
        talk.last().1
    }
}

/// Whether loading on from `state`, with the handle `kernel`, may lead to this talk: one call of
/// `create_map` or `kernel_version` for each question that arises, in turn, each with the handle
/// that the call before it gave back, and no other call.
pub open spec fn answers<S, F: Fn(S, &MapCreate) -> (S, i32), K: Fn(S) -> (S, u32)>(
    create_map: F,
    kernel_version: K,
    object: ObjectView,
    bytes: Seq<u8>,
    state: LoadState,
    kernel: S,
    talk: Seq<(Reply, S)>,
) -> bool
    decreases talk.len(),
{
    let (step, stop) = run(object, bytes, state);
    if !readable_from(object, bytes, state.next as int) {
        talk.len() == 0
    } else {
        match step {
            Ok(StepView::CreateMap(request)) => talk.len() > 0 && match talk[0].0 {
                Reply::Descriptor(fd) => {
                    &&& may_create(create_map, kernel, request, talk[0].1, fd)
                    &&& match created_map(request, fd) {
                        Ok(map) => answers(
                            create_map,
                            kernel_version,
                            object,
                            bytes,
                            stop.with_map(map),
                            talk[0].1,
                            talk.drop_first(),
                        ),
                        Err(_) => talk.len() == 1,
                    }
                },
                _ => false,
            },
            Ok(StepView::RunningKernel) => talk.len() > 0 && match talk[0].0 {
                Reply::Version(version) => {
                    &&& call_ensures(kernel_version, (kernel,), (talk[0].1, version))
                    &&& answers(
                        create_map,
                        kernel_version,
                        object,
                        bytes,
                        stop.with_version(version),
                        talk[0].1,
                        talk.drop_first(),
                    )
                },
                _ => false,
            },
            _ => talk.len() == 0,
        }
    }
}

/// Whether loading on from `state`, with the handle `kernel` and the help of `create_map` and
/// `kernel_version`, may come to this end and give back the handle `after`.
#[verifier::opaque]
pub open spec fn may_load<S, F: Fn(S, &MapCreate) -> (S, i32), K: Fn(S) -> (S, u32)>(
    create_map: F,
    kernel_version: K,
    object: ObjectView,
    bytes: Seq<u8>,
    state: LoadState,
    kernel: S,
    after: S,
    end: Option<Result<ModuleView, Failure>>,
) -> bool {
    exists|talk: Seq<(Reply, S)>|
        {
            &&& #[trigger] answers(create_map, kernel_version, object, bytes, state, kernel, talk)
            &&& end == load_all(object, bytes, state, replies_of(talk))
            &&& after == end_of(kernel, talk)
        }
}

/// The mathematical content of what [`Module::parse`] returns beside the handle.
pub open spec fn parsed(r: Option<Result<Module, LoadError>>) -> Option<
    Result<ModuleView, Failure>,
> {
    match r {
        Some(r) => Some(outcome(r)),
        None => None,
    }
}

impl Module {
    /// Begins to load the module that an object file of these bytes holds, given what reading the
    /// file as an ELF object came to.
    pub fn begin(bytes: &[u8], read: Result<Object, goblin::error::Error>) -> (r: Result<
        Loading<'_>,
        LoadError,
    >)
        ensures
            match read {
                Ok(object) => {
                    &&& r matches Ok(loading)
                    &&& loading.wf()
                    &&& loading.object() == object@
                    &&& loading.bytes() == bytes@
                    &&& loading@ == LoadState::start()
                },
                Err(e) => r == Err::<Loading<'_>, LoadError>(LoadError::Parse(e)),
            },
    {
        match read {
            Ok(object) => Ok(Loading::new(bytes, object)),
            Err(e) => Err(LoadError::Parse(e)),
        }
    }

    /// Begins to load the module that an object file of these bytes holds.
    pub fn open(bytes: &[u8]) -> (r: Result<Loading<'_>, LoadError>)
        requires
            usize::BITS == 64,
        ensures
            match elf_object(bytes@) {
                Some(object) => {
                    &&& r matches Ok(loading)
                    &&& loading.wf()
                    &&& loading.object() == object
                    &&& loading.bytes() == bytes@
                    &&& loading@ == LoadState::start()
                },
                None => r matches Err(e) && e@ == Failure::Parse,
            },
    {
        Module::begin(bytes, parse_elf(bytes))
    }

    /// Loads the module that an object file of these bytes holds. `create_map` asks the kernel to
    /// create a map and returns its answer; `kernel_version` returns the version of the running
    /// kernel. Both take the handle `kernel` that the call before gave back, and give it back in
    /// turn: so each map is asked for once, in the order of the sections.
    ///
    /// The result is `None` where damage to the file is come upon: a section that is too short or
    /// lies outside the file, a license that is not text, a relocation out of bounds. What stands
    /// before the damage has been read by then, and its maps have been created.
    pub fn parse<S, F: Fn(S, &MapCreate) -> (S, i32), K: Fn(S) -> (S, u32)>(
        bytes: &[u8],
        kernel: S,
        create_map: F,
        kernel_version: K,
    ) -> (r: (S, Option<Result<Module, LoadError>>))
        requires
            usize::BITS == 64,
            forall|k: S, request: &MapCreate| call_requires(create_map, (k, request)),
            forall|k: S| call_requires(kernel_version, (k,)),
        ensures
            match elf_object(bytes@) {
                Some(object) => may_load(
                    create_map,
                    kernel_version,
                    object,
                    bytes@,
                    LoadState::start(),
                    kernel,
                    r.0,
                    parsed(r.1),
                ),
                None => {
                    &&& r.0 == kernel
                    &&& parsed(r.1) == Some(Err::<ModuleView, Failure>(Failure::Parse))
                },
            },
    {
        match Module::open(bytes) {
            Ok(loading) => loading.finish(kernel, &create_map, &kernel_version),
            Err(e) => (kernel, Some(Err(e))),
        }
    }

    /// The request to load program `i`, for the kernel and under the license of the module.
    pub fn load(&self, i: usize) -> (r: Result<ProgLoad<'_>, LoadError>)
        requires
            i < self@.programs.len(),
        ensures
            outcome(r) == self@.programs[i as int].load_request(self@.version, self@.license),
    {
        self.programs[i].load(self.version, self.license.clone())
    }
}

impl<'a> Loading<'a> {
    /// Loads on, with the help of the kernel, to the end. The result is `None` where damage to
    /// the file is come upon.
    pub fn finish<S, F: Fn(S, &MapCreate) -> (S, i32), K: Fn(S) -> (S, u32)>(
        self,
        kernel: S,
        create_map: &F,
        kernel_version: &K,
    ) -> (r: (S, Option<Result<Module, LoadError>>))
        requires
            self.wf(),
            forall|k: S, request: &MapCreate| call_requires(*create_map, (k, request)),
            forall|k: S| call_requires(*kernel_version, (k,)),
        ensures
            may_load(
                *create_map,
                *kernel_version,
                self.object(),
                self.bytes(),
                self@,
                kernel,
                r.0,
                parsed(r.1),
            ),
    {
        let ghost object = self.object();
        let ghost bytes = self.bytes();
        let ghost start = self@;
        let mut loading = self;
        let mut handle = kernel;
        loop
            invariant
                loading.wf(),
                loading.object() == object,
                loading.bytes() == bytes,
                forall|k: S, request: &MapCreate| call_requires(*create_map, (k, request)),
                forall|k: S| call_requires(*kernel_version, (k,)),
                object == self.object(),
                bytes == self.bytes(),
                start == self@,
                goes_on(
                    *create_map,
                    *kernel_version,
                    object,
                    bytes,
                    start,
                    kernel,
                    loading@,
                    handle,
                ),
            decreases object.sections.len() - loading@.next,
        {
            let ghost state = loading@;
            let ghost asked = handle;
            if !loading.is_sound() {
                proof {
                    lemma_end(*create_map, *kernel_version, object, bytes, state, handle);
                }
                return (handle, None);
            }
            let advanced = loading.advance();
            proof {
                reading_stops_where_the_kernel_is_needed(object, bytes, state);
                lemma_next_in_range(object, bytes, loading@);
            }
            match advanced {
                Err(e) => {
                    proof {
                        lemma_end(*create_map, *kernel_version, object, bytes, state, handle);
                    }
                    return (handle, Some(Err(e)));
                },
                Ok(Step::Link) => {
                    proof {
                        lemma_end(*create_map, *kernel_version, object, bytes, state, handle);
                    }
                    if loading.is_linkable() {
                        return (handle, Some(loading.link()));
                    } else {
                        return (handle, None);
                    }
                },
                Ok(Step::CreateMap(request)) => {
                    let (given_back, fd): (S, i32) = create_map(handle, &request);
                    handle = given_back;
                    assert(may_create(*create_map, asked, request@, handle, fd));
                    match loading.map_created(request, fd) {
                        Ok(()) => {
                            proof {
                                lemma_after_map(
                                    *create_map,
                                    *kernel_version,
                                    object,
                                    bytes,
                                    state,
                                    asked,
                                    handle,
                                    fd,
                                );
                            }
                        },
                        Err(e) => {
                            proof {
                                lemma_map(
                                    *create_map,
                                    *kernel_version,
                                    object,
                                    bytes,
                                    state,
                                    asked,
                                    handle,
                                    fd,
                                    handle,
                                    Some(Err(e@)),
                                );
                            }
                            return (handle, Some(Err(e)));
                        },
                    }
                },
                Ok(Step::RunningKernel) => {
                    let (given_back, version): (S, u32) = kernel_version(handle);
                    handle = given_back;
                    loading.running_kernel(version);
                    proof {
                        lemma_after_version(
                            *create_map,
                            *kernel_version,
                            object,
                            bytes,
                            state,
                            asked,
                            handle,
                            version,
                        );
                    }
                },
            }
        }
    }
}

/// Whether all that loading may come to from `next` on, it may come to from `state` on.
spec fn goes_on<S, F: Fn(S, &MapCreate) -> (S, i32), K: Fn(S) -> (S, u32)>(
    create_map: F,
    kernel_version: K,
    object: ObjectView,
    bytes: Seq<u8>,
    state: LoadState,
    kernel: S,
    next: LoadState,
    given_back: S,
) -> bool {
    forall|after: S, end: Option<Result<ModuleView, Failure>>| #[trigger]
        may_load(create_map, kernel_version, object, bytes, next, given_back, after, end)
            ==> may_load(create_map, kernel_version, object, bytes, state, kernel, after, end)
}

/// Loading that needs nothing of the kernel any more, or comes upon damage, comes to one end.
proof fn lemma_end<S, F: Fn(S, &MapCreate) -> (S, i32), K: Fn(S) -> (S, u32)>(
    create_map: F,
    kernel_version: K,
    object: ObjectView,
    bytes: Seq<u8>,
    state: LoadState,
    kernel: S,
)
    requires
        ({
            ||| !readable_from(object, bytes, state.next as int)
            ||| run(object, bytes, state).0 is Err
            ||| run(object, bytes, state).0 == Ok::<StepView, Failure>(StepView::Link)
        }),
    ensures
        may_load(
            create_map,
            kernel_version,
            object,
            bytes,
            state,
            kernel,
            kernel,
            load_all(object, bytes, state, Seq::empty()),
        ),
{
    reveal(may_load);
    let talk = Seq::<(Reply, S)>::empty();
    assert(replies_of(talk) =~= Seq::empty());
    assert(answers(create_map, kernel_version, object, bytes, state, kernel, talk));
}

/// A talk that begins with this turn.
proof fn lemma_first_turn<S>(turn: (Reply, S), rest: Seq<(Reply, S)>) -> (talk: Seq<(Reply, S)>)
    ensures
        talk.len() == rest.len() + 1,
        talk[0] == turn,
        talk.drop_first() == rest,
        replies_of(talk)[0] == turn.0,
        replies_of(talk).drop_first() == replies_of(rest),
        forall|kernel: S| #[trigger] end_of(kernel, talk) == end_of(turn.1, rest),
{
    let talk = seq![turn] + rest;
    assert(talk.drop_first() =~= rest);
    assert(replies_of(talk).drop_first() =~= replies_of(rest));
    talk
}

/// Loading goes on from the answer to a request for a map.
proof fn lemma_map<S, F: Fn(S, &MapCreate) -> (S, i32), K: Fn(S) -> (S, u32)>(
    create_map: F,
    kernel_version: K,
    object: ObjectView,
    bytes: Seq<u8>,
    state: LoadState,
    kernel: S,
    given_back: S,
    fd: i32,
    after: S,
    end: Option<Result<ModuleView, Failure>>,
)
    requires
        readable_from(object, bytes, state.next as int),
        run(object, bytes, state).0 matches Ok(StepView::CreateMap(request)) && {
            &&& may_create(create_map, kernel, request, given_back, fd)
            &&& match created_map(request, fd) {
                Ok(map) => may_load(
                    create_map,
                    kernel_version,
                    object,
                    bytes,
                    run(object, bytes, state).1.with_map(map),
                    given_back,
                    after,
                    end,
                ),
                Err(failure) => {
                    &&& end == Some(Err::<ModuleView, Failure>(failure))
                    &&& after == given_back
                },
            }
        },
    ensures
        may_load(create_map, kernel_version, object, bytes, state, kernel, after, end),
{
    reveal(may_load);
    let (step, stop) = run(object, bytes, state);
    let request = step->Ok_0->CreateMap_0;
    let rest = match created_map(request, fd) {
        Ok(map) => {
            let next = stop.with_map(map);
            choose|rest: Seq<(Reply, S)>|
                {
                    &&& #[trigger] answers(
                        create_map,
                        kernel_version,
                        object,
                        bytes,
                        next,
                        given_back,
                        rest,
                    )
                    &&& end == load_all(object, bytes, next, replies_of(rest))
                    &&& after == end_of(given_back, rest)
                }
        },
        Err(_) => Seq::empty(),
    };
    let talk = lemma_first_turn((Reply::Descriptor(fd), given_back), rest);
    assert(answers(create_map, kernel_version, object, bytes, state, kernel, talk));
    assert(after == end_of(kernel, talk));
}

/// Loading goes on from the version of the running kernel.
proof fn lemma_version<S, F: Fn(S, &MapCreate) -> (S, i32), K: Fn(S) -> (S, u32)>(
    create_map: F,
    kernel_version: K,
    object: ObjectView,
    bytes: Seq<u8>,
    state: LoadState,
    kernel: S,
    given_back: S,
    version: u32,
    after: S,
    end: Option<Result<ModuleView, Failure>>,
)
    requires
        readable_from(object, bytes, state.next as int),
        run(object, bytes, state).0 == Ok::<StepView, Failure>(StepView::RunningKernel),
        call_ensures(kernel_version, (kernel,), (given_back, version)),
        may_load(
            create_map,
            kernel_version,
            object,
            bytes,
            run(object, bytes, state).1.with_version(version),
            given_back,
            after,
            end,
        ),
    ensures
        may_load(create_map, kernel_version, object, bytes, state, kernel, after, end),
{
    reveal(may_load);
    let next = run(object, bytes, state).1.with_version(version);
    let rest = choose|rest: Seq<(Reply, S)>|
        {
            &&& #[trigger] answers(
                create_map,
                kernel_version,
                object,
                bytes,
                next,
                given_back,
                rest,
            )
            &&& end == load_all(object, bytes, next, replies_of(rest))
            &&& after == end_of(given_back, rest)
        };
    let talk = lemma_first_turn((Reply::Version(version), given_back), rest);
    assert(answers(create_map, kernel_version, object, bytes, state, kernel, talk));
    assert(after == end_of(kernel, talk));
}

/// What loading may come to after a map was created, it may come to from the request on.
proof fn lemma_after_map<S, F: Fn(S, &MapCreate) -> (S, i32), K: Fn(S) -> (S, u32)>(
    create_map: F,
    kernel_version: K,
    object: ObjectView,
    bytes: Seq<u8>,
    state: LoadState,
    kernel: S,
    given_back: S,
    fd: i32,
)
    requires
        readable_from(object, bytes, state.next as int),
        run(object, bytes, state).0 matches Ok(StepView::CreateMap(request)) && {
            &&& may_create(create_map, kernel, request, given_back, fd)
            &&& created_map(request, fd) is Ok
        },
    ensures
        ({
            let (step, stop) = run(object, bytes, state);
            let next = stop.with_map(created_map(step->Ok_0->CreateMap_0, fd)->Ok_0);
            goes_on(
                create_map,
                kernel_version,
                object,
                bytes,
                state,
                kernel,
                next,
                given_back,
            )
        }),
{
    let (step, stop) = run(object, bytes, state);
    let next = stop.with_map(created_map(step->Ok_0->CreateMap_0, fd)->Ok_0);
    assert forall|after: S, end: Option<Result<ModuleView, Failure>>| #[trigger]
        may_load(
            create_map,
            kernel_version,
            object,
            bytes,
            next,
            given_back,
            after,
            end,
        ) implies may_load(
        create_map,
        kernel_version,
        object,
        bytes,
        state,
        kernel,
        after,
        end,
    ) by {
        lemma_map(
            create_map,
            kernel_version,
            object,
            bytes,
            state,
            kernel,
            given_back,
            fd,
            after,
            end,
        );
    }
}

/// What loading may come to once the version is known, it may come to from the question on.
proof fn lemma_after_version<S, F: Fn(S, &MapCreate) -> (S, i32), K: Fn(S) -> (S, u32)>(
    create_map: F,
    kernel_version: K,
    object: ObjectView,
    bytes: Seq<u8>,
    state: LoadState,
    kernel: S,
    given_back: S,
    version: u32,
)
    requires
        readable_from(object, bytes, state.next as int),
        run(object, bytes, state).0 == Ok::<StepView, Failure>(StepView::RunningKernel),
        call_ensures(kernel_version, (kernel,), (given_back, version)),
    ensures
        goes_on(
            create_map,
            kernel_version,
            object,
            bytes,
            state,
            kernel,
            run(object, bytes, state).1.with_version(version),
            given_back,
        ),
{
    let next = run(object, bytes, state).1.with_version(version);
    assert forall|after: S, end: Option<Result<ModuleView, Failure>>| #[trigger]
        may_load(
            create_map,
            kernel_version,
            object,
            bytes,
            next,
            given_back,
            after,
            end,
        ) implies may_load(
        create_map,
        kernel_version,
        object,
        bytes,
        state,
        kernel,
        after,
        end,
    ) by {
        lemma_version(
            create_map,
            kernel_version,
            object,
            bytes,
            state,
            kernel,
            given_back,
            version,
            after,
            end,
        );
    }
}

} // verus!
