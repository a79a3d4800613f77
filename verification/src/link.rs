//! Linking: every relocation of a module patches the program it belongs to.
use crate::bpf_map::{BpfMap, BpfMapView};
use crate::elf::Sym;
use crate::error::{Failure, LoadError};
use crate::insn::BPF_PSEUDO_MAP_FD;
use crate::program::{Program, ProgramView};
use crate::rel::{map_views, program_views, Rel};
use std::collections::HashMap;
use vstd::prelude::*;

verus! {

broadcast use vstd::std_specs::hash::group_hash_axioms;

/// The programs after all of `rels` were applied in turn. A relocation of a section that holds no
/// program is passed over; the first one that refers to no map is a failure.
pub open spec fn link_rels(
    programs: Map<usize, ProgramView>,
    maps: Map<usize, BpfMapView>,
    symtab: Seq<Sym>,
    rels: Seq<Rel>,
) -> Result<Map<usize, ProgramView>, Failure>
    decreases rels.len(),
{
    if rels.len() == 0 {
        Ok(programs)
    } else if !programs.contains_key(rels[0].target) {
        link_rels(programs, maps, symtab, rels.drop_first())
    } else {
        match rels[0].applied(programs, maps, symtab) {
            Ok(patched) => link_rels(patched, maps, symtab, rels.drop_first()),
            Err(failure) => Err(failure),
        }
    }
}

/// Whether each of `rels`, up to the first that fails, refers to a symbol and to an instruction
/// that exist.
pub open spec fn rels_in_bounds(
    programs: Map<usize, ProgramView>,
    maps: Map<usize, BpfMapView>,
    symtab: Seq<Sym>,
    rels: Seq<Rel>,
) -> bool
    decreases rels.len(),
{
    rels.len() == 0 || {
        &&& rels[0].in_bounds(programs, maps, symtab)
        &&& refers_to_no_map(programs, maps, symtab, rels[0]) || rels_in_bounds(
            programs,
            maps,
            symtab,
            rels.drop_first(),
        )
    }
}

/// Whether the relocation belongs to a program but refers to no map.
pub open spec fn refers_to_no_map(
    programs: Map<usize, ProgramView>,
    maps: Map<usize, BpfMapView>,
    symtab: Seq<Sym>,
    rel: Rel,
) -> bool {
    programs.contains_key(rel.target) && !maps.contains_key(symtab[rel.sym as int].st_shndx)
}

/// Whether `q` is `p` but for the source registers and the immediate values of its instructions.
pub open spec fn patched_only(p: ProgramView, q: ProgramView) -> bool {
    &&& q == ProgramView { code: q.code, ..p }
    &&& q.code.len() == p.code.len()
    &&& forall|at: int|
        0 <= at < p.code.len() ==> {
            &&& (#[trigger] q.code[at]).code == p.code[at].code
            &&& q.code[at].off == p.code[at].off
            &&& q.code[at].dst() == p.code[at].dst()
        }
}

/// Whether two collections hold programs under the same indices, which differ at most in what
/// relocations patch.
pub open spec fn all_patched_only(
    programs: Map<usize, ProgramView>,
    linked: Map<usize, ProgramView>,
) -> bool {
    &&& linked.dom() == programs.dom()
    &&& forall|k: usize|
        programs.contains_key(k) ==> patched_only(programs[k], #[trigger] linked[k])
}

/// A relocation that is applied changes nothing but the source register and the immediate value
/// of the one instruction that it names.
pub proof fn relocation_patches_one_instruction(
    programs: Map<usize, ProgramView>,
    maps: Map<usize, BpfMapView>,
    symtab: Seq<Sym>,
    rel: Rel,
)
    requires
        rel.in_bounds(programs, maps, symtab),
        rel.applied(programs, maps, symtab) is Ok,
    ensures
        all_patched_only(programs, rel.applied(programs, maps, symtab)->Ok_0),
        rel.applied(programs, maps, symtab)->Ok_0[rel.target].code[rel.insn_idx()].src()
            == BPF_PSEUDO_MAP_FD,
        rel.applied(programs, maps, symtab)->Ok_0[rel.target].code[rel.insn_idx()].imm
            == maps[symtab[rel.sym as int].st_shndx].fd,
        forall|k: usize, at: int|
            programs.contains_key(k) && 0 <= at < programs[k].code.len() && !(k == rel.target && at
                == rel.insn_idx()) ==> #[trigger] rel.applied(
                programs,
                maps,
                symtab,
            )->Ok_0[k].code[at] == programs[k].code[at],
{
    let patched = rel.applied(programs, maps, symtab)->Ok_0;
    assert(patched.dom() =~= programs.dom());
}

/// Whether relocations are in bounds does not depend on what earlier relocations patched.
proof fn lemma_bounds_kept(
    programs: Map<usize, ProgramView>,
    linked: Map<usize, ProgramView>,
    maps: Map<usize, BpfMapView>,
    symtab: Seq<Sym>,
    rels: Seq<Rel>,
)
    requires
        all_patched_only(programs, linked),
    ensures
        rels_in_bounds(programs, maps, symtab, rels) == rels_in_bounds(linked, maps, symtab, rels),
    decreases rels.len(),
{
    if rels.len() > 0 {
        assert(programs.contains_key(rels[0].target) == linked.contains_key(rels[0].target));
        if programs.contains_key(rels[0].target) {
            assert(patched_only(programs[rels[0].target], linked[rels[0].target]));
        }
        lemma_bounds_kept(programs, linked, maps, symtab, rels.drop_first());
    }
}

/// What differs twice at most in what relocations patch does so over all.
proof fn lemma_patched_only_transitive(
    a: Map<usize, ProgramView>,
    b: Map<usize, ProgramView>,
    c: Map<usize, ProgramView>,
)
    requires
        all_patched_only(a, b),
        all_patched_only(b, c),
    ensures
        all_patched_only(a, c),
{
    assert forall|k: usize| a.contains_key(k) implies patched_only(a[k], #[trigger] c[k]) by {
        assert(b.contains_key(k));
        assert(patched_only(a[k], b[k]));
        assert(patched_only(b[k], c[k]));
        assert forall|at: int| 0 <= at < a[k].code.len() implies {
            &&& (#[trigger] c[k].code[at]).code == a[k].code[at].code
            &&& c[k].code[at].off == a[k].code[at].off
            &&& c[k].code[at].dst() == a[k].code[at].dst()
        } by {
            assert(b[k].code[at].code == a[k].code[at].code);
        }
    }
}

/// Linking keeps every program, and changes nothing in it but source registers and immediate
/// values.
pub proof fn linking_patches_only(
    programs: Map<usize, ProgramView>,
    maps: Map<usize, BpfMapView>,
    symtab: Seq<Sym>,
    rels: Seq<Rel>,
)
    requires
        rels_in_bounds(programs, maps, symtab, rels),
    ensures
        link_rels(programs, maps, symtab, rels) matches Ok(linked) ==> all_patched_only(
            programs,
            linked,
        ),
    decreases rels.len(),
{
    if rels.len() > 0 {
        if !programs.contains_key(rels[0].target) {
            linking_patches_only(programs, maps, symtab, rels.drop_first());
        } else if let Ok(patched) = rels[0].applied(programs, maps, symtab) {
            relocation_patches_one_instruction(programs, maps, symtab, rels[0]);
            lemma_bounds_kept(programs, patched, maps, symtab, rels.drop_first());
            linking_patches_only(patched, maps, symtab, rels.drop_first());
            if let Ok(linked) = link_rels(patched, maps, symtab, rels.drop_first()) {
                lemma_patched_only_transitive(programs, patched, linked);
            }
        }
    }
}

/// Linking fails if and only if some relocation belongs to a program but refers to no map.
pub proof fn linking_fails_without_a_map(
    programs: Map<usize, ProgramView>,
    maps: Map<usize, BpfMapView>,
    symtab: Seq<Sym>,
    rels: Seq<Rel>,
)
    ensures
        link_rels(programs, maps, symtab, rels) is Err <==> exists|k: int|
            0 <= k < rels.len() && #[trigger] refers_to_no_map(programs, maps, symtab, rels[k]),
        link_rels(programs, maps, symtab, rels) matches Err(failure) ==> failure == Failure::Reloc,
    decreases rels.len(),
{
    if rels.len() > 0 {
        let rest = rels.drop_first();
        let next = if programs.contains_key(rels[0].target) && rels[0].applied(
            programs,
            maps,
            symtab,
        ) is Ok {
            rels[0].applied(programs, maps, symtab)->Ok_0
        } else {
            programs
        };
        assert(next.dom() =~= programs.dom());
        linking_fails_without_a_map(next, maps, symtab, rest);
        if refers_to_no_map(programs, maps, symtab, rels[0]) {
            assert(link_rels(programs, maps, symtab, rels) is Err);
        } else {
            assert(link_rels(programs, maps, symtab, rels) == link_rels(next, maps, symtab, rest));
            assert forall|k: int| 0 <= k < rest.len() implies refers_to_no_map(
                next,
                maps,
                symtab,
                #[trigger] rest[k],
            ) == refers_to_no_map(programs, maps, symtab, rels[k + 1]) by {}
            if exists|k: int|
                0 <= k < rels.len() && #[trigger] refers_to_no_map(
                    programs,
                    maps,
                    symtab,
                    rels[k],
                ) {
                let k = choose|k: int|
                    0 <= k < rels.len() && #[trigger] refers_to_no_map(
                        programs,
                        maps,
                        symtab,
                        rels[k],
                    );
                assert(rest[k - 1] == rels[k]);
                assert(refers_to_no_map(next, maps, symtab, rest[k - 1]));
            }
            if exists|k: int|
                0 <= k < rest.len() && #[trigger] refers_to_no_map(next, maps, symtab, rest[k]) {
                let k = choose|k: int|
                    0 <= k < rest.len() && #[trigger] refers_to_no_map(next, maps, symtab, rest[k]);
                assert(refers_to_no_map(programs, maps, symtab, rels[k + 1]));
            }
        }
    }
}

/// Whether one of `rels` from `from` on names the instruction at `at` of program `k`.
pub open spec fn names_insn(rels: Seq<Rel>, from: int, k: usize, at: int) -> bool {
    exists|j: int|
        from <= j < rels.len() && (#[trigger] rels[j]).target == k && rels[j].insn_idx() == at
}

/// An instruction that no relocation names is left as it is.
pub proof fn linking_leaves_the_rest(
    programs: Map<usize, ProgramView>,
    maps: Map<usize, BpfMapView>,
    symtab: Seq<Sym>,
    rels: Seq<Rel>,
    k: usize,
    at: int,
)
    requires
        rels_in_bounds(programs, maps, symtab, rels),
        programs.contains_key(k),
        0 <= at < programs[k].code.len(),
        !names_insn(rels, 0, k, at),
    ensures
        link_rels(programs, maps, symtab, rels) matches Ok(linked) ==> linked[k].code[at]
            == programs[k].code[at],
    decreases rels.len(),
{
    if rels.len() > 0 {
        let rest = rels.drop_first();
        assert(!names_insn(rest, 0, k, at)) by {
            if names_insn(rest, 0, k, at) {
                let j = choose|j: int|
                    0 <= j < rest.len() && (#[trigger] rest[j]).target == k && rest[j].insn_idx()
                        == at;
                assert(rels[j + 1] == rest[j]);
            }
        }
        assert(!(rels[0].target == k && rels[0].insn_idx() == at));
        if !programs.contains_key(rels[0].target) {
            linking_leaves_the_rest(programs, maps, symtab, rest, k, at);
        } else if let Ok(patched) = rels[0].applied(programs, maps, symtab) {
            relocation_patches_one_instruction(programs, maps, symtab, rels[0]);
            assert(patched[k].code[at] == programs[k].code[at]);
            assert(patched_only(programs[k], patched[k]));
            lemma_bounds_kept(programs, patched, maps, symtab, rest);
            linking_leaves_the_rest(patched, maps, symtab, rest, k, at);
        }
    }
}

/// After linking, the instruction that a relocation names, if no later relocation names it too,
/// loads the map that the relocation refers to: it is marked as such a load and holds the
/// descriptor of the map.
pub proof fn linked_instruction_loads_its_map(
    programs: Map<usize, ProgramView>,
    maps: Map<usize, BpfMapView>,
    symtab: Seq<Sym>,
    rels: Seq<Rel>,
    j: int,
)
    requires
        rels_in_bounds(programs, maps, symtab, rels),
        0 <= j < rels.len(),
        programs.contains_key(rels[j].target),
        !names_insn(rels, j + 1, rels[j].target, rels[j].insn_idx()),
    ensures
        link_rels(programs, maps, symtab, rels) matches Ok(linked) ==> {
            let insn = linked[rels[j].target].code[rels[j].insn_idx()];
            &&& insn.src() == BPF_PSEUDO_MAP_FD
            &&& insn.imm == maps[symtab[rels[j].sym as int].st_shndx].fd
        },
    decreases rels.len(),
{
    let rest = rels.drop_first();
    let k = rels[j].target;
    let at = rels[j].insn_idx();
    assert(!names_insn(rest, j, k, at)) by {
        if names_insn(rest, j, k, at) {
            let i = choose|i: int|
                j <= i < rest.len() && (#[trigger] rest[i]).target == k && rest[i].insn_idx() == at;
            assert(rels[i + 1] == rest[i]);
        }
    }
    if !programs.contains_key(rels[0].target) {
        linked_instruction_loads_its_map(programs, maps, symtab, rest, j - 1);
    } else if let Ok(patched) = rels[0].applied(programs, maps, symtab) {
        relocation_patches_one_instruction(programs, maps, symtab, rels[0]);
        lemma_bounds_kept(programs, patched, maps, symtab, rest);
        if j == 0 {
            assert(patched_only(programs[k], patched[k]));
            linking_leaves_the_rest(patched, maps, symtab, rest, k, at);
        } else {
            assert(rest[j - 1] == rels[j]);
            linked_instruction_loads_its_map(patched, maps, symtab, rest, j - 1);
        }
    }
}

/// Where none of the relocations fails, each of them is in bounds.
pub(crate) proof fn lemma_each_in_bounds(
    programs: Map<usize, ProgramView>,
    maps: Map<usize, BpfMapView>,
    symtab: Seq<Sym>,
    rels: Seq<Rel>,
    j: int,
)
    requires
        rels_in_bounds(programs, maps, symtab, rels),
        forall|i: int|
            0 <= i < rels.len() ==> !#[trigger] refers_to_no_map(programs, maps, symtab, rels[i]),
        0 <= j < rels.len(),
    ensures
        rels[j].in_bounds(programs, maps, symtab),
    decreases rels.len(),
{
    assert(!refers_to_no_map(programs, maps, symtab, rels[0]));
    if j > 0 {
        let rest = rels.drop_first();
        assert forall|i: int| 0 <= i < rest.len() implies !#[trigger] refers_to_no_map(
            programs,
            maps,
            symtab,
            rest[i],
        ) by {
            assert(!refers_to_no_map(programs, maps, symtab, rels[i + 1]));
        }
        lemma_each_in_bounds(programs, maps, symtab, rest, j - 1);
    }
}

/// Whether every relocation, up to the first that fails, is in bounds.
pub(crate) fn check_rels(
    programs: &HashMap<usize, Program>,
    maps: &HashMap<usize, BpfMap>,
    symtab: &Vec<Sym>,
    rels: &Vec<Rel>,
) -> (r: bool)
    ensures
        r == rels_in_bounds(program_views(programs@), map_views(maps@), symtab@, rels@),
{
    let ghost p = program_views(programs@);
    let ghost m = map_views(maps@);
    assert(rels@.skip(0) =~= rels@);
    for i in 0..rels.len()
        invariant
            p == program_views(programs@),
            m == map_views(maps@),
            rels_in_bounds(p, m, symtab@, rels@) == rels_in_bounds(
                p,
                m,
                symtab@,
                rels@.skip(i as int),
            ),
    {
        let rel = &rels[i];
        assert(rels@.skip(i as int)[0] == *rel);
        assert(rels@.skip(i as int).drop_first() =~= rels@.skip(i + 1));
        if let Some(prog) = programs.get(&rel.target) {
            assert(p[rel.target] == prog@);
            if rel.sym >= symtab.len() {
                return false;
            }
            if maps.contains_key(&symtab[rel.sym].st_shndx) {
                if rel.offset / 8 >= prog.code.len() as u64 {
                    return false;
                }
            } else {
                return true;
            }
        }
    }
    true
}

/// Applies all relocations in turn.
pub(crate) fn apply_rels(
    programs: &mut HashMap<usize, Program>,
    maps: &HashMap<usize, BpfMap>,
    symtab: &Vec<Sym>,
    rels: &Vec<Rel>,
) -> (r: Result<(), LoadError>)
    requires
        rels_in_bounds(program_views(old(programs)@), map_views(maps@), symtab@, rels@),
    ensures
        match link_rels(program_views(old(programs)@), map_views(maps@), symtab@, rels@) {
            Ok(linked) => r is Ok && program_views(final(programs)@) == linked,
            Err(failure) => r matches Err(e) && e@ == failure,
        },
{
    let ghost start = program_views(programs@);
    let ghost m = map_views(maps@);
    assert(rels@.skip(0) =~= rels@);
    for i in 0..rels.len()
        invariant
            start == program_views(old(programs)@),
            m == map_views(maps@),
            rels_in_bounds(program_views(programs@), m, symtab@, rels@.skip(i as int)),
            link_rels(start, m, symtab@, rels@) == link_rels(
                program_views(programs@),
                m,
                symtab@,
                rels@.skip(i as int),
            ),
    {
        let rel = &rels[i];
        let ghost before = program_views(programs@);
        assert(rels@.skip(i as int)[0] == *rel);
        assert(rels@.skip(i as int).drop_first() =~= rels@.skip(i + 1));
        if programs.contains_key(&rel.target) {
            match rel.apply(programs, maps, symtab) {
                Ok(()) => {},
                Err(e) => {
                    return Err(e);
                },
            }
            proof {
                relocation_patches_one_instruction(before, m, symtab@, *rel);
                lemma_bounds_kept(
                    before,
                    program_views(programs@),
                    m,
                    symtab@,
                    rels@.skip(i + 1),
                );
            }
        }
    }
    Ok(())
}

/// Relocations that are each in bounds are in bounds together.
pub proof fn relocations_in_bounds_are_in_bounds_together(
    programs: Map<usize, ProgramView>,
    maps: Map<usize, BpfMapView>,
    symtab: Seq<Sym>,
    rels: Seq<Rel>,
)
    requires
        forall|j: int|
            0 <= j < rels.len() ==> (#[trigger] rels[j]).in_bounds(programs, maps, symtab),
    ensures
        rels_in_bounds(programs, maps, symtab, rels),
    decreases rels.len(),
{
    if rels.len() > 0 {
        let rest = rels.drop_first();
        assert(rels[0].in_bounds(programs, maps, symtab));
        assert forall|j: int| 0 <= j < rest.len() implies (#[trigger] rest[j]).in_bounds(
            programs,
            maps,
            symtab,
        ) by {
            assert(rest[j] == rels[j + 1]);
        }
        relocations_in_bounds_are_in_bounds_together(programs, maps, symtab, rest);
    }
}

} // verus!
