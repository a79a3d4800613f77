//! What holds of every module that comes of loading, whatever the kernel answers.
use crate::bpf_map::{created_map, MapCreate};
use crate::elf::ObjectView;
use crate::error::{outcome, Failure, LoadError};
use crate::insn::BPF_PSEUDO_MAP_FD;
use crate::link::{
    lemma_each_in_bounds, link_rels, linked_instruction_loads_its_map, linking_fails_without_a_map,
    linking_leaves_the_rest, linking_patches_only, names_insn, patched_only, refers_to_no_map,
    relocations_in_bounds_are_in_bounds_together, rels_in_bounds,
};
use crate::loading::{
    comes_from, consistent, defines_map, holds_program, in_order, lemma_absorb, lemma_counts,
    lemma_next_in_range, lemma_start, lemma_taken, lemma_with_map, lemma_with_version, linked,
    linking_gives_what_the_file_says, maps_upto, programs_upto, readable_from,
    reading_keeps_to_the_file, reading_stops_where_the_kernel_is_needed, rels_upto, run,
    version_upto, LoadState, Step, StepView,
};
use crate::module::{
    answers, end_of, load_all, may_create, may_load, parsed, replies_of, Module, ModuleView, Reply,
};
use crate::move_law::{lemma_all_read, lemma_pass};
use crate::program::{
    a_new_program_holds_its_section, the_kernel_is_asked_for_all_of_a_program, ProgramView,
};
use crate::rel::Rel;
use crate::section::{a_section_is_a_piece_of_the_file, ItemView};
use crate::text::split_at_slash;
use vstd::prelude::*;

verus! {

/// A state in which all sections are read, and of which linking makes the module, is where
/// loading ends.
proof fn lemma_last_state(
    object: ObjectView,
    bytes: Seq<u8>,
    state: LoadState,
    replies: Seq<Reply>,
    module: ModuleView,
) -> (last: LoadState)
    requires
        consistent(object, bytes, state),
        load_all(object, bytes, state, replies) == Some(Ok::<ModuleView, Failure>(module)),
    ensures
        consistent(object, bytes, last),
        last.next == object.sections.len(),
        rels_in_bounds(last.programs, last.maps, object.symtab, last.rels),
        linked(object, last) == Ok::<ModuleView, Failure>(module),
    decreases replies.len(),
{
    let (step, stop) = run(object, bytes, state);
    reading_keeps_to_the_file(object, bytes, state);
    reading_stops_where_the_kernel_is_needed(object, bytes, state);
    lemma_next_in_range(object, bytes, stop);
    match step->Ok_0 {
        StepView::Link => stop,
        StepView::CreateMap(request) => {
            let map = created_map(request, replies[0]->Descriptor_0)->Ok_0;
            lemma_with_map(object, bytes, stop, map);
            lemma_last_state(object, bytes, stop.with_map(map), replies.drop_first(), module)
        },
        StepView::RunningKernel => {
            let version = replies[0]->Version_0;
            lemma_with_version(object, bytes, stop, version);
            lemma_last_state(
                object,
                bytes,
                stop.with_version(version),
                replies.drop_first(),
                module,
            )
        },
    }
}

/// Whatever the kernel answers: where loading comes to a module, the module holds what the
/// sections of the file say, in their order, with every program neither loaded nor attached.
pub proof fn loading_gives_what_the_file_says(
    object: ObjectView,
    bytes: Seq<u8>,
    replies: Seq<Reply>,
    module: ModuleView,
)
    requires
        object.sections.len() <= usize::MAX,
        load_all(object, bytes, LoadState::start(), replies) == Some(
            Ok::<ModuleView, Failure>(module),
        ),
    ensures
        comes_from(object, bytes, module),
{
    lemma_start(object, bytes);
    let last = lemma_last_state(object, bytes, LoadState::start(), replies, module);
    linking_gives_what_the_file_says(object, bytes, last, module);
}

/// The programs of a module are those that linking leaves, in the order of their sections.
proof fn lemma_program_of(
    object: ObjectView,
    bytes: Seq<u8>,
    last: LoadState,
    module: ModuleView,
    k: usize,
    p: ProgramView,
)
    requires
        consistent(object, bytes, last),
        last.next == object.sections.len(),
        rels_in_bounds(last.programs, last.maps, object.symtab, last.rels),
        linked(object, last) == Ok::<ModuleView, Failure>(module),
        holds_program(object, bytes, object.sections.len(), k, p),
    ensures
        last.rels == rels_upto(object, bytes, object.sections.len()),
        last.programs.contains_key(k),
        last.programs[k] == p,
        ({
            let programs = link_rels(last.programs, last.maps, object.symtab, last.rels)->Ok_0;
            let j = programs_upto(object, bytes, k as nat) as int;
            &&& patched_only(p, programs[k])
            &&& j < module.programs.len()
            &&& module.programs[j] == programs[k]
        }),
{
    let n = object.sections.len();
    let programs = link_rels(last.programs, last.maps, object.symtab, last.rels)->Ok_0;
    reveal(consistent);
    assert(object.item(bytes, k as int) matches Ok(ItemView::Program(_)));
    assert(last.programs.contains_key(k));
    assert(holds_program(object, bytes, n, k, last.programs[k]));
    linking_patches_only(last.programs, last.maps, object.symtab, last.rels);
    assert(patched_only(last.programs[k], programs[k]));
    lemma_counts(object, bytes, last, programs, k as nat);
    lemma_taken(programs, k, n);
}

/// In a module, the instruction of a program that a relocation of the file names, if no later
/// relocation names it too, loads the map that the relocation refers to: it is marked as such a
/// load and holds the descriptor of that map of the module.
pub proof fn loaded_instruction_loads_its_map(
    object: ObjectView,
    bytes: Seq<u8>,
    replies: Seq<Reply>,
    module: ModuleView,
    j: int,
    p: ProgramView,
)
    requires
        object.sections.len() <= usize::MAX,
        load_all(object, bytes, LoadState::start(), replies) == Some(
            Ok::<ModuleView, Failure>(module),
        ),
        0 <= j < rels_upto(object, bytes, object.sections.len()).len(),
        ({
            let rels = rels_upto(object, bytes, object.sections.len());
            &&& holds_program(object, bytes, object.sections.len(), rels[j].target, p)
            &&& !names_insn(rels, j + 1, rels[j].target, rels[j].insn_idx())
        }),
    ensures
        ({
            let rel = rels_upto(object, bytes, object.sections.len())[j];
            let section = object.symtab[rel.sym as int].st_shndx;
            let program = programs_upto(object, bytes, rel.target as nat) as int;
            let map = maps_upto(object, bytes, section as nat) as int;
            &&& rel.sym < object.symtab.len()
            &&& rel.insn_idx() < p.code.len()
            &&& map < module.maps.len()
            &&& defines_map(object, bytes, object.sections.len(), section, module.maps[map])
            &&& program < module.programs.len()
            &&& module.programs[program].code[rel.insn_idx()].src() == BPF_PSEUDO_MAP_FD
            &&& module.programs[program].code[rel.insn_idx()].imm == module.maps[map].fd
        }),
{
    let n = object.sections.len();
    lemma_start(object, bytes);
    let last = lemma_last_state(object, bytes, LoadState::start(), replies, module);
    let rel = rels_upto(object, bytes, n)[j];
    let section = object.symtab[rel.sym as int].st_shndx;
    lemma_program_of(object, bytes, last, module, rel.target, p);
    linking_fails_without_a_map(last.programs, last.maps, object.symtab, last.rels);
    assert(!refers_to_no_map(last.programs, last.maps, object.symtab, last.rels[j]));
    lemma_each_in_bounds(last.programs, last.maps, object.symtab, last.rels, j);
    linked_instruction_loads_its_map(last.programs, last.maps, object.symtab, last.rels, j);
    assert(last.maps.contains_key(section));
    assert(defines_map(object, bytes, n, section, last.maps[section])) by {
        reveal(consistent);
    }
    lemma_counts(object, bytes, last, last.programs, section as nat);
    lemma_taken(last.maps, section, n);
}

/// In a module, an instruction of a program that no relocation of the file names is the one that
/// stands in the file.
pub proof fn other_instructions_are_those_of_the_file(
    object: ObjectView,
    bytes: Seq<u8>,
    replies: Seq<Reply>,
    module: ModuleView,
    k: usize,
    p: ProgramView,
    at: int,
)
    requires
        object.sections.len() <= usize::MAX,
        load_all(object, bytes, LoadState::start(), replies) == Some(
            Ok::<ModuleView, Failure>(module),
        ),
        holds_program(object, bytes, object.sections.len(), k, p),
        0 <= at < p.code.len(),
        !names_insn(rels_upto(object, bytes, object.sections.len()), 0, k, at),
    ensures
        ({
            let program = programs_upto(object, bytes, k as nat) as int;
            &&& program < module.programs.len()
            &&& module.programs[program].code[at] == p.code[at]
        }),
{
    lemma_start(object, bytes);
    let last = lemma_last_state(object, bytes, LoadState::start(), replies, module);
    lemma_program_of(object, bytes, last, module, k, p);
    linking_leaves_the_rest(last.programs, last.maps, object.symtab, last.rels, k, at);
}

/// The descriptors among the answers, in turn.
pub open spec fn descriptors(replies: Seq<Reply>) -> Seq<i32>
    decreases replies.len(),
{
    if replies.len() == 0 {
        Seq::empty()
    } else {
        let rest = descriptors(replies.drop_first());
        match replies[0] {
            Reply::Descriptor(fd) => seq![fd] + rest,
            Reply::Version(_) => rest,
        }
    }
}

/// Where nothing is filed under the indices from `low` on, nothing more is taken up to `high`.
proof fn lemma_none_above<V>(filed: Map<usize, V>, low: nat, high: nat)
    requires
        low <= high <= usize::MAX,
        forall|k: usize| #[trigger] filed.contains_key(k) ==> k < low,
    ensures
        in_order(filed, high) == in_order(filed, low),
    decreases high,
{
    if low < high {
        lemma_none_above(filed, low, (high - 1) as nat);
    }
}

/// What is filed under a higher index changes nothing of what is taken up to `upto`.
proof fn lemma_insert_above<V>(filed: Map<usize, V>, k: usize, value: V, upto: nat)
    requires
        upto <= k,
    ensures
        in_order(filed.insert(k, value), upto) == in_order(filed, upto),
    decreases upto,
{
    if upto > 0 {
        lemma_insert_above(filed, k, value, (upto - 1) as nat);
    }
}

/// The maps of a module begin with those of the state from which it was loaded; the others carry
/// the descriptors among the answers.
proof fn lemma_descriptors(
    object: ObjectView,
    bytes: Seq<u8>,
    state: LoadState,
    replies: Seq<Reply>,
    module: ModuleView,
)
    requires
        consistent(object, bytes, state),
        load_all(object, bytes, state, replies) == Some(Ok::<ModuleView, Failure>(module)),
    ensures
        ({
            let held = in_order(state.maps, state.next);
            &&& held.len() <= module.maps.len() <= held.len() + descriptors(replies).len()
            &&& forall|i: int| 0 <= i < held.len() ==> module.maps[i] == held[i]
            &&& forall|i: int|
                held.len() <= i < module.maps.len() ==> (#[trigger] module.maps[i]).fd
                    == descriptors(replies)[i - held.len()]
        }),
    decreases replies.len(),
{
    let (step, stop) = run(object, bytes, state);
    reading_keeps_to_the_file(object, bytes, state);
    reading_stops_where_the_kernel_is_needed(object, bytes, state);
    lemma_next_in_range(object, bytes, state);
    lemma_next_in_range(object, bytes, stop);
    assert forall|k: usize| #[trigger] state.maps.contains_key(k) implies k < state.next by {
        reveal(consistent);
    }
    lemma_none_above(state.maps, state.next, stop.next);
    match step->Ok_0 {
        StepView::Link => {},
        StepView::CreateMap(request) => {
            let map = created_map(request, replies[0]->Descriptor_0)->Ok_0;
            let next = stop.with_map(map);
            lemma_with_map(object, bytes, stop, map);
            lemma_insert_above(stop.maps, stop.next as usize, map, stop.next);
            lemma_descriptors(object, bytes, next, replies.drop_first(), module);
            let held = in_order(state.maps, state.next);
            assert(in_order(next.maps, next.next) == held.push(map));
            let fds = descriptors(replies);
            assert(fds == seq![map.fd] + descriptors(replies.drop_first()));
            assert forall|i: int| 0 <= i < held.len() implies module.maps[i] == held[i] by {
                assert(held.push(map)[i] == held[i]);
            }
            assert forall|i: int| held.len() <= i < module.maps.len() implies (
            #[trigger] module.maps[i]).fd == fds[i - held.len()] by {
                if i == held.len() {
                    assert(module.maps[i] == held.push(map)[i]);
                }
            }
        },
        StepView::RunningKernel => {
            let version = replies[0]->Version_0;
            let next = stop.with_version(version);
            lemma_with_version(object, bytes, stop, version);
            lemma_none_above(stop.maps, stop.next, next.next);
            lemma_descriptors(object, bytes, next, replies.drop_first(), module);
        },
    }
}

/// Each map of a module carries the descriptor that the kernel gave in answer to the request for
/// it: the first map the first one, and so on.
pub proof fn maps_carry_the_descriptors_of_the_kernel(
    object: ObjectView,
    bytes: Seq<u8>,
    replies: Seq<Reply>,
    module: ModuleView,
)
    requires
        object.sections.len() <= usize::MAX,
        load_all(object, bytes, LoadState::start(), replies) == Some(
            Ok::<ModuleView, Failure>(module),
        ),
    ensures
        module.maps.len() <= descriptors(replies).len(),
        forall|i: int|
            0 <= i < module.maps.len() ==> (#[trigger] module.maps[i]).fd == descriptors(
                replies,
            )[i],
{
    lemma_start(object, bytes);
    lemma_descriptors(object, bytes, LoadState::start(), replies, module);
}

/// A version that stands after reading on, and was not read from a section, stood before.
proof fn lemma_version_kept(object: ObjectView, bytes: Seq<u8>, state: LoadState)
    ensures
        ({
            let stop = run(object, bytes, state).1;
            version_upto(object, bytes, stop.next) is None ==> {
                &&& version_upto(object, bytes, state.next) is None
                &&& stop.version == state.version
            }
        }),
    decreases object.sections.len() - state.next,
{
    if state.next < object.sections.len() {
        match object.item(bytes, state.next as int) {
            Err(_) | Ok(ItemView::BpfMap(_)) | Ok(ItemView::RunningKernel) => {},
            Ok(item) => {
                lemma_version_kept(object, bytes, state.absorb(item));
            },
        }
    }
}

/// A version that no section gives stood in the state from which the module was loaded, or is
/// among the answers.
proof fn lemma_version_answered(
    object: ObjectView,
    bytes: Seq<u8>,
    state: LoadState,
    replies: Seq<Reply>,
    module: ModuleView,
)
    requires
        consistent(object, bytes, state),
        load_all(object, bytes, state, replies) == Some(Ok::<ModuleView, Failure>(module)),
        version_upto(object, bytes, object.sections.len()) is None,
    ensures
        replies.contains(Reply::Version(module.version)) || (version_upto(
            object,
            bytes,
            state.next,
        ) is None && module.version == state.version),
    decreases replies.len(),
{
    let (step, stop) = run(object, bytes, state);
    reading_keeps_to_the_file(object, bytes, state);
    reading_stops_where_the_kernel_is_needed(object, bytes, state);
    lemma_next_in_range(object, bytes, stop);
    lemma_version_kept(object, bytes, state);
    let rest = replies.drop_first();
    match step->Ok_0 {
        StepView::Link => {},
        StepView::CreateMap(request) => {
            let map = created_map(request, replies[0]->Descriptor_0)->Ok_0;
            lemma_with_map(object, bytes, stop, map);
            lemma_version_answered(object, bytes, stop.with_map(map), rest, module);
        },
        StepView::RunningKernel => {
            let version = replies[0]->Version_0;
            lemma_with_version(object, bytes, stop, version);
            lemma_version_answered(object, bytes, stop.with_version(version), rest, module);
        },
    }
    if replies.len() > 0 && rest.contains(Reply::Version(module.version)) {
        let i = choose|i: int|
            0 <= i < rest.len() && rest[i] == Reply::Version(module.version);
        assert(replies[i + 1] == rest[i]);
    }
}

/// Where the last version section asks for the version of the running kernel, the version of the
/// module is one that the kernel answered.
pub proof fn version_of_the_running_kernel_is_taken_over(
    object: ObjectView,
    bytes: Seq<u8>,
    replies: Seq<Reply>,
    module: ModuleView,
)
    requires
        object.sections.len() <= usize::MAX,
        load_all(object, bytes, LoadState::start(), replies) == Some(
            Ok::<ModuleView, Failure>(module),
        ),
        version_upto(object, bytes, object.sections.len()) is None,
    ensures
        replies.contains(Reply::Version(module.version)),
{
    lemma_start(object, bytes);
    lemma_version_answered(object, bytes, LoadState::start(), replies, module);
}

/// When the kernel refuses a map, loading ends there, whatever the rest of the file holds.
pub proof fn refused_map_ends_loading(
    object: ObjectView,
    bytes: Seq<u8>,
    state: LoadState,
    replies: Seq<Reply>,
    fd: i32,
)
    requires
        readable_from(object, bytes, state.next as int),
        run(object, bytes, state).0 matches Ok(StepView::CreateMap(_)),
        replies.len() > 0,
        replies[0] == Reply::Descriptor(fd),
        fd < 0,
    ensures
        load_all(object, bytes, state, replies) == Some(Err::<ModuleView, Failure>(Failure::BPF)),
{
}

/// How many of the first `upto` sections ask for the version of the running kernel.
pub open spec fn kernel_questions_upto(object: ObjectView, bytes: Seq<u8>, upto: nat) -> nat
    decreases upto,
{
    if upto == 0 {
        0
    } else {
        let before = kernel_questions_upto(object, bytes, (upto - 1) as nat);
        match object.item(bytes, upto - 1) {
            Ok(ItemView::RunningKernel) => before + 1,
            _ => before,
        }
    }
}

/// Reading on passes no section that needs the kernel.
proof fn lemma_none_passed(object: ObjectView, bytes: Seq<u8>, state: LoadState)
    ensures
        ({
            let stop = run(object, bytes, state).1;
            &&& maps_upto(object, bytes, stop.next) == maps_upto(object, bytes, state.next)
            &&& kernel_questions_upto(object, bytes, stop.next) == kernel_questions_upto(
                object,
                bytes,
                state.next,
            )
        }),
    decreases object.sections.len() - state.next,
{
    if state.next < object.sections.len() {
        match object.item(bytes, state.next as int) {
            Err(_) | Ok(ItemView::BpfMap(_)) | Ok(ItemView::RunningKernel) => {},
            Ok(item) => {
                lemma_none_passed(object, bytes, state.absorb(item));
            },
        }
    }
}

/// What is left to ask from `state` on is asked once.
proof fn lemma_turns<S, F: Fn(S, &MapCreate) -> (S, i32), K: Fn(S) -> (S, u32)>(
    create_map: F,
    kernel_version: K,
    object: ObjectView,
    bytes: Seq<u8>,
    state: LoadState,
    kernel: S,
    talk: Seq<(Reply, S)>,
)
    requires
        state.next <= object.sections.len(),
        answers(create_map, kernel_version, object, bytes, state, kernel, talk),
        load_all(object, bytes, state, replies_of(talk)) matches Some(Ok(_)),
    ensures
        ({
            let n = object.sections.len();
            let fds = descriptors(replies_of(talk)).len();
            &&& fds + maps_upto(object, bytes, state.next) == maps_upto(object, bytes, n)
            &&& talk.len() - fds + kernel_questions_upto(object, bytes, state.next)
                == kernel_questions_upto(object, bytes, n)
        }),
    decreases talk.len(),
{
    let (step, stop) = run(object, bytes, state);
    reading_stops_where_the_kernel_is_needed(object, bytes, state);
    lemma_none_passed(object, bytes, state);
    if talk.len() > 0 {
        let rest = talk.drop_first();
        assert(replies_of(talk).drop_first() =~= replies_of(rest));
        assert(replies_of(talk)[0] == talk[0].0);
        match talk[0].0 {
            Reply::Descriptor(fd) => {
                let map = created_map(step->Ok_0->CreateMap_0, fd)->Ok_0;
                lemma_turns(
                    create_map,
                    kernel_version,
                    object,
                    bytes,
                    stop.with_map(map),
                    talk[0].1,
                    rest,
                );
            },
            Reply::Version(version) => {
                lemma_turns(
                    create_map,
                    kernel_version,
                    object,
                    bytes,
                    stop.with_version(version),
                    talk[0].1,
                    rest,
                );
            },
        }
    } else {
        lemma_stops_at_the_end(object, bytes, state);
    }
}

/// Reading that ends behind the last section ends there, and no further.
proof fn lemma_stops_at_the_end(object: ObjectView, bytes: Seq<u8>, state: LoadState)
    requires
        state.next <= object.sections.len(),
    ensures
        run(object, bytes, state).1.next <= object.sections.len(),
    decreases object.sections.len() - state.next,
{
    if state.next < object.sections.len() {
        match object.item(bytes, state.next as int) {
            Err(_) | Ok(ItemView::BpfMap(_)) | Ok(ItemView::RunningKernel) => {},
            Ok(item) => {
                lemma_stops_at_the_end(object, bytes, state.absorb(item));
            },
        }
    }
}

/// Where loading comes to a module, the kernel was asked to create a map exactly once for each
/// section that defines one, and for its version exactly once for each section that asks for it,
/// and nothing else was asked.
pub proof fn each_question_is_asked_once<
    S,
    F: Fn(S, &MapCreate) -> (S, i32),
    K: Fn(S) -> (S, u32),
>(
    create_map: F,
    kernel_version: K,
    object: ObjectView,
    bytes: Seq<u8>,
    kernel: S,
    talk: Seq<(Reply, S)>,
    module: ModuleView,
)
    requires
        object.sections.len() <= usize::MAX,
        answers(create_map, kernel_version, object, bytes, LoadState::start(), kernel, talk),
        load_all(object, bytes, LoadState::start(), replies_of(talk)) == Some(
            Ok::<ModuleView, Failure>(module),
        ),
    ensures
        ({
            let n = object.sections.len();
            let fds = descriptors(replies_of(talk));
            &&& fds.len() == maps_upto(object, bytes, n)
            &&& talk.len() == fds.len() + kernel_questions_upto(object, bytes, n)
            &&& module.maps.len() == fds.len()
            &&& forall|i: int| 0 <= i < fds.len() ==> (#[trigger] module.maps[i]).fd == fds[i]
        }),
{
    lemma_turns(create_map, kernel_version, object, bytes, LoadState::start(), kernel, talk);
    loading_gives_what_the_file_says(object, bytes, replies_of(talk), module);
    maps_carry_the_descriptors_of_the_kernel(object, bytes, replies_of(talk), module);
}

/// Whether the sections from `from` on, up to `upto`, can be read, none of them fails, and the
/// answers suit their questions in turn: a descriptor for each map, a version for each question
/// for one.
pub open spec fn answered(
    object: ObjectView,
    bytes: Seq<u8>,
    from: nat,
    upto: nat,
    replies: Seq<Reply>,
) -> bool
    decreases upto - from,
{
    from >= upto || {
        &&& object.readable(bytes, from as int)
        &&& match object.item(bytes, from as int) {
            Err(_) => false,
            Ok(ItemView::BpfMap(_)) => {
                &&& replies.len() > 0
                &&& replies[0] matches Reply::Descriptor(fd)
                &&& fd >= 0
                &&& answered(object, bytes, from + 1, upto, replies.drop_first())
            },
            Ok(ItemView::RunningKernel) => {
                &&& replies.len() > 0
                &&& replies[0] is Version
                &&& answered(object, bytes, from + 1, upto, replies.drop_first())
            },
            Ok(_) => answered(object, bytes, from + 1, upto, replies),
        }
    }
}

/// Loading comes from `state` to a state before section `upto`, and from there to the same end.
proof fn lemma_reach(
    object: ObjectView,
    bytes: Seq<u8>,
    state: LoadState,
    replies: Seq<Reply>,
    upto: nat,
) -> (reached: (LoadState, Seq<Reply>))
    requires
        consistent(object, bytes, state),
        state.next <= upto <= object.sections.len(),
        answered(object, bytes, state.next, upto, replies),
    ensures
        consistent(object, bytes, reached.0),
        reached.0.next == upto,
        load_all(object, bytes, state, replies) == load_all(object, bytes, reached.0, reached.1),
    decreases upto - state.next,
{
    if state.next == upto {
        (state, replies)
    } else {
        let item = object.item(bytes, state.next as int)->Ok_0;
        match item {
            ItemView::BpfMap(request) => {
                let map = created_map(request, replies[0]->Descriptor_0)->Ok_0;
                lemma_with_map(object, bytes, state, map);
                assert(readable_from(object, bytes, state.next as int));
                lemma_reach(object, bytes, state.with_map(map), replies.drop_first(), upto)
            },
            ItemView::RunningKernel => {
                let version = replies[0]->Version_0;
                lemma_with_version(object, bytes, state, version);
                assert(readable_from(object, bytes, state.next as int));
                lemma_reach(object, bytes, state.with_version(version), replies.drop_first(), upto)
            },
            _ => {
                lemma_pass(object, bytes, state, replies, item);
                lemma_absorb(object, bytes, state, item);
                lemma_reach(object, bytes, state.absorb(item), replies, upto)
            },
        }
    }
}

/// Where the sections before section `k` are sound, and the kernel answers for them, what section
/// `k` fails with is what loading fails with, and nothing comes of a section that cannot be read.
pub proof fn the_first_failing_section_ends_loading(
    object: ObjectView,
    bytes: Seq<u8>,
    replies: Seq<Reply>,
    k: nat,
)
    requires
        k < object.sections.len() <= usize::MAX,
        answered(object, bytes, 0, k, replies),
    ensures
        !object.readable(bytes, k as int) ==> load_all(
            object,
            bytes,
            LoadState::start(),
            replies,
        ) is None,
        object.readable(bytes, k as int) ==> (object.item(bytes, k as int) matches Err(failure)
            ==> load_all(object, bytes, LoadState::start(), replies) == Some(
            Err::<ModuleView, Failure>(failure),
        )),
{
    lemma_start(object, bytes);
    let (state, rest) = lemma_reach(object, bytes, LoadState::start(), replies, k);
    assert(readable_from(object, bytes, k as int) ==> object.readable(bytes, k as int));
    if object.readable(bytes, k as int) && object.item(bytes, k as int) is Err {
        assert(readable_from(object, bytes, k as int));
    }
}

/// Whether a relocation, if it is one of a section that holds a program, names a symbol that
/// exists and, if the symbol is defined in the section of a map, a byte of the program.
pub open spec fn within_its_program(object: ObjectView, bytes: Seq<u8>, rel: Rel) -> bool {
    let n = object.sections.len();
    forall|p: ProgramView| #[trigger]
        holds_program(object, bytes, n, rel.target, p) ==> {
            &&& rel.sym < object.symtab.len()
            &&& is_map_section(object, bytes, object.symtab[rel.sym as int].st_shndx) ==> rel.offset
                < 8 * p.code.len()
        }
}

/// Whether this is the number of a section that defines a map.
pub open spec fn is_map_section(object: ObjectView, bytes: Seq<u8>, k: usize) -> bool {
    k < object.sections.len() && (object.item(bytes, k as int) matches Ok(ItemView::BpfMap(_)))
}

/// Whether a relocation is one of a section that holds a program, but its symbol is not defined in
/// the section of a map.
pub open spec fn lacks_its_map(object: ObjectView, bytes: Seq<u8>, rel: Rel) -> bool {
    &&& exists|p: ProgramView| #[trigger]
        holds_program(object, bytes, object.sections.len(), rel.target, p)
    &&& !is_map_section(object, bytes, object.symtab[rel.sym as int].st_shndx)
}

/// Where all sections are sound, the kernel answers for all of them, and no relocation is out of
/// bounds, loading comes to a module, unless some relocation of a program lacks its map: then, and
/// only then, it fails for that reason.
pub proof fn a_sound_file_is_loaded(object: ObjectView, bytes: Seq<u8>, replies: Seq<Reply>)
    requires
        object.sections.len() <= usize::MAX,
        answered(object, bytes, 0, object.sections.len(), replies),
        ({
            let rels = rels_upto(object, bytes, object.sections.len());
            forall|j: int|
                0 <= j < rels.len() ==> within_its_program(object, bytes, #[trigger] rels[j])
        }),
    ensures
        ({
            let rels = rels_upto(object, bytes, object.sections.len());
            match load_all(object, bytes, LoadState::start(), replies) {
                Some(Ok(_)) => forall|j: int|
                    0 <= j < rels.len() ==> !lacks_its_map(object, bytes, #[trigger] rels[j]),
                Some(Err(failure)) => {
                    &&& failure == Failure::Reloc
                    &&& exists|j: int|
                        0 <= j < rels.len() && lacks_its_map(object, bytes, #[trigger] rels[j])
                },
                None => false,
            }
        }),
{
    let n = object.sections.len();
    let rels = rels_upto(object, bytes, n);
    lemma_start(object, bytes);
    let (last, rest) = lemma_reach(object, bytes, LoadState::start(), replies, n);
    reveal(consistent);
    assert forall|j: int| 0 <= j < rels.len() implies (#[trigger] rels[j]).in_bounds(
        last.programs,
        last.maps,
        object.symtab,
    ) && refers_to_no_map(last.programs, last.maps, object.symtab, rels[j]) == lacks_its_map(
        object,
        bytes,
        rels[j],
    ) by {
        let rel = rels[j];
        let section = object.symtab[rel.sym as int].st_shndx;
        assert(within_its_program(object, bytes, rel));
        if last.programs.contains_key(rel.target) {
            assert(holds_program(object, bytes, n, rel.target, last.programs[rel.target]));
        }
        if exists|p: ProgramView| #[trigger] holds_program(object, bytes, n, rel.target, p) {
            let p = choose|p: ProgramView| #[trigger]
                holds_program(object, bytes, n, rel.target, p);
            assert(object.item(bytes, rel.target as int) matches Ok(ItemView::Program(_)));
            assert(last.programs.contains_key(rel.target));
        }
        if last.maps.contains_key(section) {
            assert(defines_map(object, bytes, n, section, last.maps[section]));
        }
        if is_map_section(object, bytes, section) {
            assert(object.item(bytes, section as int) matches Ok(ItemView::BpfMap(_)));
            assert(last.maps.contains_key(section));
        }
        assert(last.maps.contains_key(section) == is_map_section(object, bytes, section));
    }
    relocations_in_bounds_are_in_bounds_together(last.programs, last.maps, object.symtab, rels);
    linking_fails_without_a_map(last.programs, last.maps, object.symtab, rels);
    assert(run(object, bytes, last) == (Ok::<StepView, Failure>(StepView::Link), last));
    assert(load_all(object, bytes, last, rest) == Some(linked(object, last)));
    if linked(object, last) is Ok {
        assert forall|j: int| 0 <= j < rels.len() implies !lacks_its_map(
            object,
            bytes,
            #[trigger] rels[j],
        ) by {
            assert(!refers_to_no_map(last.programs, last.maps, object.symtab, rels[j]));
        }
    } else {
        let j = choose|j: int|
            0 <= j < rels.len() && #[trigger] refers_to_no_map(
                last.programs,
                last.maps,
                object.symtab,
                rels[j],
            );
        assert(lacks_its_map(object, bytes, rels[j]));
    }
}

/// The handle with which turn `t` of a talk begins.
pub open spec fn handle_before<S>(kernel: S, talk: Seq<(Reply, S)>, t: int) -> S {
    if t == 0 {
        kernel
    } else {
        talk[t - 1].1
    }
}

/// Whether a turn is one call for section `k`, made with the handle `before`: for a section that
/// defines a map, one of `create_map` with what the section asks for; for one that asks for the
/// version of the running kernel, one of `kernel_version`.
#[verifier::opaque]
pub open spec fn is_call_for<S, F: Fn(S, &MapCreate) -> (S, i32), K: Fn(S) -> (S, u32)>(
    create_map: F,
    kernel_version: K,
    object: ObjectView,
    bytes: Seq<u8>,
    k: nat,
    before: S,
    turn: (Reply, S),
) -> bool {
    match turn.0 {
        Reply::Descriptor(fd) => {
            &&& object.item(bytes, k as int) matches Ok(ItemView::BpfMap(request))
            &&& exists|q: MapCreate|
                q@ == request && #[trigger] call_ensures(create_map, (before, &q), (turn.1, fd))
        },
        Reply::Version(version) => {
            &&& object.item(bytes, k as int) == Ok::<ItemView, Failure>(ItemView::RunningKernel)
            &&& call_ensures(kernel_version, (before,), (turn.1, version))
        },
    }
}

/// The first turn is a call for the section at which reading stops; the others belong to loading
/// on behind it.
proof fn lemma_first_call<S, F: Fn(S, &MapCreate) -> (S, i32), K: Fn(S) -> (S, u32)>(
    create_map: F,
    kernel_version: K,
    object: ObjectView,
    bytes: Seq<u8>,
    state: LoadState,
    kernel: S,
    talk: Seq<(Reply, S)>,
) -> (next: LoadState)
    requires
        answers(create_map, kernel_version, object, bytes, state, kernel, talk),
        talk.len() > 0,
    ensures
        ({
            let at = run(object, bytes, state).1.next;
            &&& state.next <= at < object.sections.len()
            &&& is_call_for(create_map, kernel_version, object, bytes, at, kernel, talk[0])
            &&& next.next == at + 1
            &&& maps_upto(object, bytes, at + 1) + kernel_questions_upto(object, bytes, at + 1)
                == maps_upto(object, bytes, at) + kernel_questions_upto(object, bytes, at) + 1
            &&& talk.len() > 1 ==> answers(
                create_map,
                kernel_version,
                object,
                bytes,
                next,
                talk[0].1,
                talk.drop_first(),
            )
        }),
{
    reveal(is_call_for);
    let (step, stop) = run(object, bytes, state);
    reading_stops_where_the_kernel_is_needed(object, bytes, state);
    match talk[0].0 {
        Reply::Descriptor(fd) => {
            let request = step->Ok_0->CreateMap_0;
            assert(may_create(create_map, kernel, request, talk[0].1, fd));
            let q = choose|q: MapCreate|
                q@ == request && #[trigger] call_ensures(
                    create_map,
                    (kernel, &q),
                    (talk[0].1, fd),
                );
            assert(q@ == request && call_ensures(create_map, (kernel, &q), (talk[0].1, fd)));
            match created_map(request, fd) {
                Ok(map) => stop.with_map(map),
                Err(_) => LoadState { next: stop.next + 1, ..stop },
            }
        },
        Reply::Version(version) => stop.with_version(version),
    }
}

/// Each turn of a talk is one call, with the handle that the turn before gave back, for the
/// section whose turn it is: as many sections before it need the kernel as there are turns before
/// it.
pub proof fn each_turn_is_a_call_for_its_section<
    S,
    F: Fn(S, &MapCreate) -> (S, i32),
    K: Fn(S) -> (S, u32),
>(
    create_map: F,
    kernel_version: K,
    object: ObjectView,
    bytes: Seq<u8>,
    state: LoadState,
    kernel: S,
    talk: Seq<(Reply, S)>,
    t: int,
) -> (k: nat)
    requires
        answers(create_map, kernel_version, object, bytes, state, kernel, talk),
        0 <= t < talk.len(),
    ensures
        state.next <= k < object.sections.len(),
        maps_upto(object, bytes, k) + kernel_questions_upto(object, bytes, k) == t + maps_upto(
            object,
            bytes,
            state.next,
        ) + kernel_questions_upto(object, bytes, state.next),
        is_call_for(
            create_map,
            kernel_version,
            object,
            bytes,
            k,
            handle_before(kernel, talk, t),
            talk[t],
        ),
    decreases t,
{
    let next = lemma_first_call(create_map, kernel_version, object, bytes, state, kernel, talk);
    lemma_none_passed(object, bytes, state);
    if t == 0 {
        run(object, bytes, state).1.next
    } else {
        let rest = talk.drop_first();
        let k = each_turn_is_a_call_for_its_section(
            create_map,
            kernel_version,
            object,
            bytes,
            next,
            talk[0].1,
            rest,
            t - 1,
        );
        assert(rest[t - 1] == talk[t]);
        assert(handle_before(talk[0].1, rest, t - 1) == handle_before(kernel, talk, t));
        k
    }
}

/// The kernel is told the right size of every program of a module: eight bytes for each
/// instruction of the same request, and all the bytes of the program's section, if these are fewer
/// than 2^31.
pub proof fn the_kernel_is_told_the_size_of_every_program(
    object: ObjectView,
    bytes: Seq<u8>,
    replies: Seq<Reply>,
    module: ModuleView,
    k: usize,
    p: ProgramView,
)
    requires
        object.sections.len() <= usize::MAX,
        load_all(object, bytes, LoadState::start(), replies) == Some(
            Ok::<ModuleView, Failure>(module),
        ),
        holds_program(object, bytes, object.sections.len(), k, p),
        object.sections[k as int].sh_size < 0x8000_0000,
    ensures
        ({
            let j = programs_upto(object, bytes, k as nat) as int;
            &&& j < module.programs.len()
            &&& module.programs[j].load_request(module.version, module.license) matches Ok(request)
                ==> {
                &&& request.code_bytes == 8 * request.code.len()
                &&& request.code_bytes == object.sections[k as int].sh_size
                &&& request.name == p.name
                &&& request.prog_type == p.kind.prog_type()
                &&& request.license == module.license
                &&& request.kernel_version == module.version
            }
        }),
{
    loading_gives_what_the_file_says(object, bytes, replies, module);
    lemma_all_read(object, bytes, LoadState::start(), replies, k as int);
    let section = object.sections[k as int];
    let content = section.content(bytes);
    let (kind, rest) = split_at_slash(section.name->0->0);
    a_section_is_a_piece_of_the_file(section, bytes);
    a_new_program_holds_its_section(kind, rest->0, content);
    let j = programs_upto(object, bytes, k as nat) as int;
    assert(patched_only(p, module.programs[j]));
    the_kernel_is_asked_for_all_of_a_program(module.programs[j], module.version, module.license);
}

/// Modules, and what has to be done before loading can go on, show all that they hold.
pub proof fn modules_show_what_they_hold(module: Module, request: MapCreate)
    ensures
        module@.programs.len() == module.programs@.len(),
        forall|i: int|
            0 <= i < module.programs@.len() ==> #[trigger] module@.programs[i]
                == module.programs@[i]@,
        module@.maps.len() == module.maps@.len(),
        forall|i: int|
            0 <= i < module.maps@.len() ==> #[trigger] module@.maps[i] == module.maps@[i]@,
        module@.license == module.license@,
        module@.version == module.version,
        Step::CreateMap(request)@ == StepView::CreateMap(request@),
        Step::RunningKernel@ == StepView::RunningKernel,
        Step::Link@ == StepView::Link,
{
}

/// What comes of a call to load shows whether there is damage, a module or a failure.
pub proof fn ends_show_what_they_hold(r: Result<Module, LoadError>)
    ensures
        parsed(None) is None,
        parsed(Some(r)) == Some(outcome(r)),
{
}

/// Loading is a talk with the kernel: what it comes to is what the answers of the talk, in turn,
/// lead to, and the handle that it gives back is the one that the last turn gave back.
pub proof fn loading_is_a_talk_with_the_kernel<
    S,
    F: Fn(S, &MapCreate) -> (S, i32),
    K: Fn(S) -> (S, u32),
>(
    create_map: F,
    kernel_version: K,
    object: ObjectView,
    bytes: Seq<u8>,
    state: LoadState,
    kernel: S,
    after: S,
    end: Option<Result<ModuleView, Failure>>,
) -> (r: (Seq<(Reply, S)>, Seq<Reply>))
    requires
        may_load(create_map, kernel_version, object, bytes, state, kernel, after, end),
    ensures
        ({
            let (talk, replies) = r;
            &&& answers(create_map, kernel_version, object, bytes, state, kernel, talk)
            &&& after == handle_before(kernel, talk, talk.len() as int)
            &&& replies.len() == talk.len()
            &&& forall|t: int| 0 <= t < talk.len() ==> #[trigger] replies[t] == talk[t].0
            &&& end == load_all(object, bytes, state, replies)
        }),
{
    reveal(may_load);
    let talk = choose|talk: Seq<(Reply, S)>|
        {
            &&& #[trigger] answers(create_map, kernel_version, object, bytes, state, kernel, talk)
            &&& end == load_all(object, bytes, state, replies_of(talk))
            &&& after == end_of(kernel, talk)
        };
    (talk, replies_of(talk))
}

/// Whether a section says for which version of the kernel a module is meant.
pub open spec fn is_version_section(object: ObjectView, bytes: Seq<u8>, k: int) -> bool {
    object.item(bytes, k) matches Ok(ItemView::Version(_)) || object.item(bytes, k) matches Ok(
        ItemView::RunningKernel,
    )
}

/// Where no section that is still to be read gives a version, the version stays as it is.
proof fn lemma_version_stays(
    object: ObjectView,
    bytes: Seq<u8>,
    state: LoadState,
    replies: Seq<Reply>,
    module: ModuleView,
)
    requires
        state.next <= object.sections.len(),
        load_all(object, bytes, state, replies) == Some(Ok::<ModuleView, Failure>(module)),
        forall|k: int|
            state.next <= k < object.sections.len() ==> !#[trigger] is_version_section(
                object,
                bytes,
                k,
            ),
    ensures
        module.version == state.version,
    decreases object.sections.len() - state.next,
{
    if state.next < object.sections.len() {
        lemma_all_read(object, bytes, state, replies, state.next as int);
        assert(!is_version_section(object, bytes, state.next as int));
        let item = object.item(bytes, state.next as int)->Ok_0;
        match item {
            ItemView::BpfMap(request) => {
                let map = created_map(request, replies[0]->Descriptor_0)->Ok_0;
                let rest = replies.drop_first();
                lemma_version_stays(object, bytes, state.with_map(map), rest, module);
            },
            _ => {
                lemma_pass(object, bytes, state, replies, item);
                lemma_version_stays(object, bytes, state.absorb(item), replies, module);
            },
        }
    }
}

/// Where the last section that says for which version a module is meant asks for that of the
/// running kernel, the version of the module is the answer to that question, and to no other: the
/// answer that stands behind as many answers as sections before it need the kernel.
pub proof fn the_last_question_for_the_version_counts(
    object: ObjectView,
    bytes: Seq<u8>,
    state: LoadState,
    replies: Seq<Reply>,
    module: ModuleView,
    k: nat,
)
    requires
        state.next <= k < object.sections.len(),
        load_all(object, bytes, state, replies) == Some(Ok::<ModuleView, Failure>(module)),
        object.item(bytes, k as int) == Ok::<ItemView, Failure>(ItemView::RunningKernel),
        forall|j: int|
            k < j < object.sections.len() ==> !#[trigger] is_version_section(object, bytes, j),
    ensures
        ({
            let t = maps_upto(object, bytes, k) + kernel_questions_upto(object, bytes, k)
                - maps_upto(object, bytes, state.next) - kernel_questions_upto(
                object,
                bytes,
                state.next,
            );
            0 <= t < replies.len() && replies[t] == Reply::Version(module.version)
        }),
    decreases k - state.next,
{
    lemma_all_read(object, bytes, state, replies, state.next as int);
    let item = object.item(bytes, state.next as int)->Ok_0;
    let rest = replies.drop_first();
    if state.next == k {
        let version = replies[0]->Version_0;
        lemma_version_stays(object, bytes, state.with_version(version), rest, module);
    } else {
        match item {
            ItemView::BpfMap(request) => {
                let map = created_map(request, replies[0]->Descriptor_0)->Ok_0;
                let next = state.with_map(map);
                the_last_question_for_the_version_counts(object, bytes, next, rest, module, k);
            },
            ItemView::RunningKernel => {
                let next = state.with_version(replies[0]->Version_0);
                the_last_question_for_the_version_counts(object, bytes, next, rest, module, k);
            },
            _ => {
                let next = state.absorb(item);
                lemma_pass(object, bytes, state, replies, item);
                the_last_question_for_the_version_counts(object, bytes, next, replies, module, k);
            },
        }
    }
}

} // verus!
