//! Relocations take effect when all sections are read: where they stand makes no difference.
use crate::bpf_map::{created_map, BpfMapView};
use crate::elf::{ObjectView, SectionView, Sym, SHT_REL};
use crate::error::Failure;
use crate::link::{link_rels, rels_in_bounds};
use crate::loading::{in_order, linked, readable_from, run, stops_reading, LoadState, StepView};
use crate::module::{load_all, ModuleView, Reply};
use crate::program::ProgramView;
use crate::rel::{relocs_of, rels_of, Rel};
use crate::section::ItemView;
use vstd::prelude::*;

verus! {

/// The number of section `k` after section `from` was moved to the place of section `to`, which
/// stands no later.
pub open spec fn renumber(k: usize, from: usize, to: usize) -> usize {
    if k == from {
        to
    } else if to <= k < from {
        (k + 1) as usize
    } else {
        k
    }
}

/// Whether two sections of two files are the same in name, type and content.
pub open spec fn same_section(
    s1: SectionView,
    bytes1: Seq<u8>,
    s2: SectionView,
    bytes2: Seq<u8>,
) -> bool {
    &&& s2.name == s1.name
    &&& s2.sh_type == s1.sh_type
    &&& s2.in_file(bytes2.len()) == s1.in_file(bytes1.len())
    &&& s2.content(bytes2) == s1.content(bytes1)
}

/// Whether the second file is the first one with its only relocation section moved from `from` to
/// `to`, which stands no later, and all references to sections renumbered to match.
pub open spec fn rel_section_moved(
    o1: ObjectView,
    bytes1: Seq<u8>,
    o2: ObjectView,
    bytes2: Seq<u8>,
    from: usize,
    to: usize,
) -> bool {
    let n = o1.sections.len();
    &&& to <= from < n <= usize::MAX
    &&& o2.sections.len() == n
    &&& forall|k: usize|
        k < n ==> same_section(
            o1.sections[k as int],
            bytes1,
            o2.sections[#[trigger] renumber(k, from, to) as int],
            bytes2,
        )
    &&& forall|k: usize|
        k < n ==> ((#[trigger] o1.sections[k as int]).sh_type == SHT_REL <==> k == from)
    &&& o2.sections[to as int].sh_info as usize == renumber(
        o1.sections[from as int].sh_info as usize,
        from,
        to,
    )
    &&& relocs_of(o2.shdr_relocs, to) == relocs_of(o1.shdr_relocs, from)
    &&& o2.symtab == o1.symtab.map_values(
        |sym: Sym| Sym { st_shndx: renumber(sym.st_shndx, from, to) },
    )
}

/// Whether the second collection files the same values as the first under renumbered indices.
spec fn refiled<V>(m1: Map<usize, V>, m2: Map<usize, V>, from: usize, to: usize) -> bool {
    forall|k: usize|
        {
            let j = #[trigger] renumber(k, from, to);
            &&& m1.contains_key(k) == m2.contains_key(j)
            &&& m1.contains_key(k) ==> m2[j] == m1[k]
        }
}

/// Filing a value under both numbers of a section keeps two collections alike.
proof fn lemma_refiled_insert<V>(
    m1: Map<usize, V>,
    m2: Map<usize, V>,
    from: usize,
    to: usize,
    k: usize,
    value: V,
)
    requires
        to <= from,
        refiled(m1, m2, from, to),
    ensures
        refiled(m1.insert(k, value), m2.insert(renumber(k, from, to), value), from, to),
{
    assert forall|i: usize| {
        let j = #[trigger] renumber(i, from, to);
        &&& m1.insert(k, value).contains_key(i) == m2.insert(
            renumber(k, from, to),
            value,
        ).contains_key(j)
        &&& m1.insert(k, value).contains_key(i) ==> m2.insert(renumber(k, from, to), value)[j]
            == m1.insert(k, value)[i]
    } by {
        assert(renumber(i, from, to) == renumber(k, from, to) ==> i == k);
    }
}

/// Values that nothing is filed among under `from` are taken in the same order after the move.
proof fn lemma_same_order<V>(
    m1: Map<usize, V>,
    m2: Map<usize, V>,
    from: usize,
    to: usize,
    upto: nat,
)
    requires
        to <= from,
        upto <= usize::MAX,
        refiled(m1, m2, from, to),
        !m1.contains_key(from),
    ensures
        upto <= to ==> in_order(m2, upto) == in_order(m1, upto),
        to <= upto <= from ==> in_order(m2, upto + 1) == in_order(m1, upto),
        upto > from ==> in_order(m2, upto) == in_order(m1, upto),
    decreases upto,
{
    assert(renumber(from, from, to) == to);
    assert(!m2.contains_key(to));
    if upto > 0 {
        let k = (upto - 1) as usize;
        lemma_same_order(m1, m2, from, to, (upto - 1) as nat);
        let j = renumber(k, from, to);
        if upto == to {
            assert(in_order(m2, upto + 1) == in_order(m2, upto));
        }
        if to < upto <= from {
            assert(j == upto);
            assert(in_order(m2, upto + 1) == if m2.contains_key(j) {
                in_order(m2, upto).push(m2[j])
            } else {
                in_order(m2, upto)
            });
        }
        if upto == from + 1 {
            assert(in_order(m1, upto) == in_order(m1, (upto - 1) as nat));
        }
    } else {
        assert(to == 0 ==> in_order(m2, 1) == in_order(m2, 0));
    }
}

/// The relocations with renumbered targets.
spec fn retargeted(rels1: Seq<Rel>, rels2: Seq<Rel>, from: usize, to: usize) -> bool {
    &&& rels2.len() == rels1.len()
    &&& forall|i: int|
        0 <= i < rels1.len() ==> {
            &&& (#[trigger] rels2[i]).target == renumber(rels1[i].target, from, to)
            &&& rels2[i].offset == rels1[i].offset
            &&& rels2[i].sym == rels1[i].sym
        }
}

/// Linking comes to the same after the move.
proof fn lemma_same_link(
    p1: Map<usize, ProgramView>,
    p2: Map<usize, ProgramView>,
    m1: Map<usize, BpfMapView>,
    m2: Map<usize, BpfMapView>,
    symtab1: Seq<Sym>,
    symtab2: Seq<Sym>,
    rels1: Seq<Rel>,
    rels2: Seq<Rel>,
    from: usize,
    to: usize,
)
    requires
        to <= from,
        refiled(p1, p2, from, to),
        refiled(m1, m2, from, to),
        symtab2 == symtab1.map_values(
            |sym: Sym| Sym { st_shndx: renumber(sym.st_shndx, from, to) },
        ),
        retargeted(rels1, rels2, from, to),
        !p1.contains_key(from),
        rels_in_bounds(p1, m1, symtab1, rels1),
        link_rels(p1, m1, symtab1, rels1) is Ok,
    ensures
        rels_in_bounds(p2, m2, symtab2, rels2),
        ({
            let linked1 = link_rels(p1, m1, symtab1, rels1);
            let linked2 = link_rels(p2, m2, symtab2, rels2);
            &&& linked2 is Ok
            &&& refiled(linked1->Ok_0, linked2->Ok_0, from, to)
            &&& !linked1->Ok_0.contains_key(from)
        }),
    decreases rels1.len(),
{
    if rels1.len() > 0 {
        let rest1 = rels1.drop_first();
        let rest2 = rels2.drop_first();
        assert(rels2[0].target == renumber(rels1[0].target, from, to));
        assert(retargeted(rest1, rest2, from, to)) by {
            assert forall|i: int| 0 <= i < rest1.len() implies {
                &&& (#[trigger] rest2[i]).target == renumber(rest1[i].target, from, to)
                &&& rest2[i].offset == rest1[i].offset
                &&& rest2[i].sym == rest1[i].sym
            } by {
                assert(rest2[i] == rels2[i + 1]);
            }
        }
        if p1.contains_key(rels1[0].target) {
            let section = symtab1[rels1[0].sym as int].st_shndx;
            assert(symtab2[rels2[0].sym as int].st_shndx == renumber(section, from, to));
            let at = rels1[0].insn_idx();
            let patched = p1[rels1[0].target].with_map(at, m1[section].fd);
            let next1 = rels1[0].applied(p1, m1, symtab1)->Ok_0;
            let next2 = rels2[0].applied(p2, m2, symtab2)->Ok_0;
            lemma_refiled_insert(p1, p2, from, to, rels1[0].target, patched);
            lemma_bounds_after_patch(p1, m1, symtab1, rest1, rels1[0].target, patched);
            lemma_same_link(next1, next2, m1, m2, symtab1, symtab2, rest1, rest2, from, to);
            let patched2 = p2[rels2[0].target].with_map(at, m1[section].fd);
            assert(patched2 == patched);
            lemma_bounds_after_patch(p2, m2, symtab2, rest2, rels2[0].target, patched2);
        } else {
            lemma_same_link(p1, p2, m1, m2, symtab1, symtab2, rest1, rest2, from, to);
        }
    }
}

/// Whether relocations are in bounds does not depend on what was patched in a program.
proof fn lemma_bounds_after_patch(
    programs: Map<usize, ProgramView>,
    maps: Map<usize, BpfMapView>,
    symtab: Seq<Sym>,
    rels: Seq<Rel>,
    k: usize,
    patched: ProgramView,
)
    requires
        programs.contains_key(k),
        patched.code.len() == programs[k].code.len(),
    ensures
        rels_in_bounds(programs.insert(k, patched), maps, symtab, rels) == rels_in_bounds(
            programs,
            maps,
            symtab,
            rels,
        ),
    decreases rels.len(),
{
    if rels.len() > 0 {
        lemma_bounds_after_patch(programs, maps, symtab, rels.drop_first(), k, patched);
    }
}

/// Loading passes over a section that needs nothing of the kernel and goes on behind it.
pub(crate) proof fn lemma_pass(
    object: ObjectView,
    bytes: Seq<u8>,
    state: LoadState,
    replies: Seq<Reply>,
    item: ItemView,
)
    requires
        state.next < object.sections.len(),
        object.readable(bytes, state.next as int),
        object.item(bytes, state.next as int) == Ok::<ItemView, Failure>(item),
        !stops_reading(Ok::<ItemView, Failure>(item)),
    ensures
        load_all(object, bytes, state, replies) == load_all(
            object,
            bytes,
            state.absorb(item),
            replies,
        ),
{
    let next = state.absorb(item);
    assert(next.next == state.next + 1);
    assert(run(object, bytes, state) == run(object, bytes, next));
    assert(readable_from(object, bytes, state.next as int) == readable_from(
        object,
        bytes,
        next.next as int,
    ));
}

/// Where loading comes to a module, all sections that were still to be read can be read, and none
/// of them fails.
pub(crate) proof fn lemma_all_read(
    object: ObjectView,
    bytes: Seq<u8>,
    state: LoadState,
    replies: Seq<Reply>,
    k: int,
)
    requires
        load_all(object, bytes, state, replies) matches Some(Ok(_)),
        state.next <= k < object.sections.len(),
    ensures
        object.readable(bytes, k),
        object.item(bytes, k) is Ok,
    decreases object.sections.len() - state.next,
{
    let at = state.next as int;
    assert(readable_from(object, bytes, at));
    assert(object.readable(bytes, at));
    assert(run(object, bytes, state).0 is Ok);
    let item = object.item(bytes, at)->Ok_0;
    if k > at {
        match item {
            ItemView::BpfMap(request) => {
                let map = created_map(request, replies[0]->Descriptor_0)->Ok_0;
                lemma_all_read(object, bytes, state.with_map(map), replies.drop_first(), k);
            },
            ItemView::RunningKernel => {
                let version = replies[0]->Version_0;
                lemma_all_read(object, bytes, state.with_version(version), replies.drop_first(), k);
            },
            _ => {
                lemma_pass(object, bytes, state, replies, item);
                lemma_all_read(object, bytes, state.absorb(item), replies, k);
            },
        }
    }
}

/// A section other than the one that is moved means the same after the move.
proof fn lemma_same_item(
    o1: ObjectView,
    bytes1: Seq<u8>,
    o2: ObjectView,
    bytes2: Seq<u8>,
    from: usize,
    to: usize,
    k: usize,
)
    requires
        rel_section_moved(o1, bytes1, o2, bytes2, from, to),
        k < o1.sections.len(),
        k != from,
        o1.readable(bytes1, k as int),
        o1.item(bytes1, k as int) is Ok,
    ensures
        o2.readable(bytes2, renumber(k, from, to) as int),
        o2.item(bytes2, renumber(k, from, to) as int) == o1.item(bytes1, k as int),
        !(o1.item(bytes1, k as int)->Ok_0 is Rels),
{
    let s1 = o1.sections[k as int];
    let s2 = o2.sections[renumber(k, from, to) as int];
    assert(same_section(s1, bytes1, s2, bytes2));
    assert(s1.sh_type != SHT_REL);
}

/// The relocations of the section that is moved, before and after the move.
spec fn moved_rels(object: ObjectView, at: usize) -> Seq<Rel> {
    rels_of(
        at,
        object.sections[at as int].sh_info as usize,
        relocs_of(object.shdr_relocs, at)->0,
    )
}

/// The section that is moved holds relocations before and after the move, the same but for their
/// numbers.
proof fn lemma_moved_item(
    o1: ObjectView,
    bytes1: Seq<u8>,
    o2: ObjectView,
    bytes2: Seq<u8>,
    from: usize,
    to: usize,
)
    requires
        rel_section_moved(o1, bytes1, o2, bytes2, from, to),
        o1.readable(bytes1, from as int),
        o1.item(bytes1, from as int) is Ok,
    ensures
        o1.item(bytes1, from as int) == Ok::<ItemView, Failure>(
            ItemView::Rels(moved_rels(o1, from)),
        ),
        o2.readable(bytes2, to as int),
        o2.item(bytes2, to as int) == Ok::<ItemView, Failure>(ItemView::Rels(moved_rels(o2, to))),
        retargeted(moved_rels(o1, from), moved_rels(o2, to), from, to),
{
    assert(renumber(from, from, to) == to);
    let s1 = o1.sections[from as int];
    let s2 = o2.sections[to as int];
    assert(same_section(s1, bytes1, s2, bytes2));
    assert(s1.sh_type == SHT_REL);
}

/// Whether two states, of loading the file before and after the move, hold the same.
spec fn in_step(
    o1: ObjectView,
    s1: LoadState,
    o2: ObjectView,
    s2: LoadState,
    from: usize,
    to: usize,
) -> bool {
    let n = o1.sections.len();
    &&& s1.next <= n
    &&& s2.license == s1.license
    &&& s2.version == s1.version
    &&& refiled(s1.programs, s2.programs, from, to)
    &&& refiled(s1.maps, s2.maps, from, to)
    &&& !s1.programs.contains_key(from)
    &&& !s1.maps.contains_key(from)
    &&& {
        ||| {
            &&& s1.next <= to
            &&& s2.next == s1.next
            &&& s1.rels == Seq::<Rel>::empty()
            &&& s2.rels == Seq::<Rel>::empty()
        }
        ||| {
            &&& to <= s1.next <= from
            &&& s2.next == s1.next + 1
            &&& s1.rels == Seq::<Rel>::empty()
            &&& s2.rels == moved_rels(o2, to)
        }
        ||| {
            &&& s1.next > from
            &&& s2.next == s1.next
            &&& s1.rels == moved_rels(o1, from)
            &&& s2.rels == moved_rels(o2, to)
        }
    }
}

/// When all sections are read, linking makes the same module of both files.
proof fn lemma_same_module(
    o1: ObjectView,
    bytes1: Seq<u8>,
    s1: LoadState,
    o2: ObjectView,
    bytes2: Seq<u8>,
    s2: LoadState,
    from: usize,
    to: usize,
    replies: Seq<Reply>,
    module: ModuleView,
)
    requires
        rel_section_moved(o1, bytes1, o2, bytes2, from, to),
        o1.readable(bytes1, from as int),
        o1.item(bytes1, from as int) is Ok,
        in_step(o1, s1, o2, s2, from, to),
        s1.next == o1.sections.len(),
        load_all(o1, bytes1, s1, replies) == Some(Ok::<ModuleView, Failure>(module)),
    ensures
        load_all(o2, bytes2, s2, replies) == Some(Ok::<ModuleView, Failure>(module)),
{
    let n = o1.sections.len();
    lemma_moved_item(o1, bytes1, o2, bytes2, from, to);
    assert(run(o1, bytes1, s1) == (Ok::<StepView, Failure>(StepView::Link), s1));
    assert(run(o2, bytes2, s2) == (Ok::<StepView, Failure>(StepView::Link), s2));
    assert(linked(o1, s1) == Ok::<ModuleView, Failure>(module));
    lemma_same_link(
        s1.programs,
        s2.programs,
        s1.maps,
        s2.maps,
        o1.symtab,
        o2.symtab,
        s1.rels,
        s2.rels,
        from,
        to,
    );
    let programs1 = link_rels(s1.programs, s1.maps, o1.symtab, s1.rels)->Ok_0;
    let programs2 = link_rels(s2.programs, s2.maps, o2.symtab, s2.rels)->Ok_0;
    lemma_same_order(programs1, programs2, from, to, n);
    lemma_same_order(s1.maps, s2.maps, from, to, n);
}

/// Loading comes to the same from two states that hold the same.
proof fn lemma_same_end(
    o1: ObjectView,
    bytes1: Seq<u8>,
    s1: LoadState,
    o2: ObjectView,
    bytes2: Seq<u8>,
    s2: LoadState,
    from: usize,
    to: usize,
    replies: Seq<Reply>,
    module: ModuleView,
)
    requires
        rel_section_moved(o1, bytes1, o2, bytes2, from, to),
        o1.readable(bytes1, from as int),
        o1.item(bytes1, from as int) is Ok,
        in_step(o1, s1, o2, s2, from, to),
        load_all(o1, bytes1, s1, replies) == Some(Ok::<ModuleView, Failure>(module)),
    ensures
        load_all(o2, bytes2, s2, replies) == Some(Ok::<ModuleView, Failure>(module)),
    decreases o1.sections.len() - s1.next, o2.sections.len() + 1 - s2.next,
{
    let n = o1.sections.len();
    lemma_moved_item(o1, bytes1, o2, bytes2, from, to);
    if s1.next == n {
        lemma_same_module(o1, bytes1, s1, o2, bytes2, s2, from, to, replies, module);
    } else if s1.next == to && s2.next == to {
        let item = ItemView::Rels(moved_rels(o2, to));
        lemma_pass(o2, bytes2, s2, replies, item);
        let next2 = s2.absorb(item);
        assert(next2.rels =~= moved_rels(o2, to));
        lemma_same_end(o1, bytes1, s1, o2, bytes2, next2, from, to, replies, module);
    } else if s1.next == from {
        let item = ItemView::Rels(moved_rels(o1, from));
        lemma_pass(o1, bytes1, s1, replies, item);
        let next1 = s1.absorb(item);
        assert(next1.rels =~= moved_rels(o1, from));
        lemma_same_end(o1, bytes1, next1, o2, bytes2, s2, from, to, replies, module);
    } else {
        let k = s1.next as usize;
        lemma_all_read(o1, bytes1, s1, replies, k as int);
        lemma_same_item(o1, bytes1, o2, bytes2, from, to, k);
        assert(s2.next == renumber(k, from, to));
        let item = o1.item(bytes1, k as int)->Ok_0;
        match item {
            ItemView::BpfMap(request) => {
                let map = created_map(request, replies[0]->Descriptor_0)->Ok_0;
                lemma_refiled_insert(s1.maps, s2.maps, from, to, k, map);
                lemma_same_end(
                    o1,
                    bytes1,
                    s1.with_map(map),
                    o2,
                    bytes2,
                    s2.with_map(map),
                    from,
                    to,
                    replies.drop_first(),
                    module,
                );
                assert(readable_from(o2, bytes2, s2.next as int));
            },
            ItemView::RunningKernel => {
                let version = replies[0]->Version_0;
                lemma_same_end(
                    o1,
                    bytes1,
                    s1.with_version(version),
                    o2,
                    bytes2,
                    s2.with_version(version),
                    from,
                    to,
                    replies.drop_first(),
                    module,
                );
                assert(readable_from(o2, bytes2, s2.next as int));
            },
            _ => {
                lemma_pass(o1, bytes1, s1, replies, item);
                lemma_pass(o2, bytes2, s2, replies, item);
                if let ItemView::Program(program) = item {
                    lemma_refiled_insert(s1.programs, s2.programs, from, to, k, program);
                }
                lemma_same_end(
                    o1,
                    bytes1,
                    s1.absorb(item),
                    o2,
                    bytes2,
                    s2.absorb(item),
                    from,
                    to,
                    replies,
                    module,
                );
            },
        }
    }
}

/// Where the only relocation section of a file stands makes no difference: moved before the
/// programs and maps that it refers to, it leads, with the same answers of the kernel, to the same
/// module.
pub proof fn relocations_may_stand_before_what_they_refer_to(
    o1: ObjectView,
    bytes1: Seq<u8>,
    o2: ObjectView,
    bytes2: Seq<u8>,
    from: usize,
    to: usize,
    replies: Seq<Reply>,
    module: ModuleView,
)
    requires
        rel_section_moved(o1, bytes1, o2, bytes2, from, to),
        load_all(o1, bytes1, LoadState::start(), replies) == Some(
            Ok::<ModuleView, Failure>(module),
        ),
    ensures
        load_all(o2, bytes2, LoadState::start(), replies) == Some(
            Ok::<ModuleView, Failure>(module),
        ),
{
    let start = LoadState::start();
    lemma_all_read(o1, bytes1, start, replies, from as int);
    lemma_same_end(o1, bytes1, start, o2, bytes2, start, from, to, replies, module);
}

} // verus!
