//! Relocations: the places where a program refers to a map.
use crate::bpf_map::{BpfMap, BpfMapView};
use crate::elf::{Reloc, SectionHeader, Sym};
use crate::error::{Failure, LoadError};
use crate::insn::INSN_SIZE;
use crate::program::{Program, ProgramView};
use std::collections::HashMap;
use vstd::prelude::*;

verus! {

broadcast use vstd::std_specs::hash::group_hash_axioms;

/// A relocation: the instruction at byte `offset` of the program in section `target` refers to
/// the map that is defined in the section of symbol `sym`. `shndx` is the section in which the
/// relocation stands.
#[derive(Debug, Clone, Copy, PartialEq, Eq, Structural)]
pub struct Rel {
    pub shndx: usize,
    pub target: usize,
    pub offset: u64,
    pub sym: usize,
}

/// The contents of programs that are kept under the indices of their sections.
pub open spec fn program_views(programs: Map<usize, Program>) -> Map<usize, ProgramView> {
    programs.map_values(|p: Program| p@)
}

/// The contents of maps that are kept under the indices of their sections.
pub open spec fn map_views(maps: Map<usize, BpfMap>) -> Map<usize, BpfMapView> {
    maps.map_values(|m: BpfMap| m@)
}

impl Rel {
    /// The instruction that the relocation patches.
    pub open spec fn insn_idx(self) -> int {
        self.offset as int / 8
    }

    /// Whether what the relocation refers to exists, as far as it is looked at: the symbol, if
    /// there is a program to patch, and the instruction, if there is a map to patch it with.
    pub open spec fn in_bounds(
        self,
        programs: Map<usize, ProgramView>,
        maps: Map<usize, BpfMapView>,
        symtab: Seq<Sym>,
    ) -> bool {
        programs.contains_key(self.target) ==> {
            &&& self.sym < symtab.len()
            &&& maps.contains_key(symtab[self.sym as int].st_shndx) ==> self.insn_idx()
                < programs[self.target].code.len()
        }
    }

    /// The programs after the relocation, or the failure where it refers to no program or to no
    /// map.
    pub open spec fn applied(
        self,
        programs: Map<usize, ProgramView>,
        maps: Map<usize, BpfMapView>,
        symtab: Seq<Sym>,
    ) -> Result<Map<usize, ProgramView>, Failure> {
        let section = symtab[self.sym as int].st_shndx;
        if programs.contains_key(self.target) && maps.contains_key(section) {
            Ok(
                programs.insert(
                    self.target,
                    programs[self.target].with_map(self.insn_idx(), maps[section].fd),
                ),
            )
        } else {
            Err(Failure::Reloc)
        }
    }

    /// Patches the descriptor of the map into the program. On failure nothing is patched.
    pub fn apply(
        &self,
        programs: &mut HashMap<usize, Program>,
        maps: &HashMap<usize, BpfMap>,
        symtab: &Vec<Sym>,
    ) -> (r: Result<(), LoadError>)
        requires
            self.in_bounds(program_views(old(programs)@), map_views(maps@), symtab@),
        ensures
            match self.applied(program_views(old(programs)@), map_views(maps@), symtab@) {
                Ok(patched) => r is Ok && program_views(final(programs)@) == patched,
                Err(failure) => {
                    &&& r matches Err(e) && e@ == failure
                    &&& final(programs)@ == old(programs)@
                },
            },
    {
        if !programs.contains_key(&self.target) {
            return Err(LoadError::Reloc);
        }
        let fd: i32 = match maps.get(&symtab[self.sym].st_shndx) {
            Some(map) => map.fd,
            None => {
                return Err(LoadError::Reloc);
            },
        };
        let removed = programs.remove(&self.target);
        if let Some(mut prog) = removed {
            assert(prog@.code.len() == prog.code.len());
            let insn_idx: usize = (self.offset / (INSN_SIZE as u64)) as usize;
            prog.patch_map(insn_idx, fd);
            programs.insert(self.target, prog);
        }
        proof {
            let patched = self.applied(program_views(old(programs)@), map_views(maps@), symtab@);
            assert(program_views(programs@) =~= patched->Ok_0);
        }
        Ok(())
    }
}

/// The relocations that are filed under section `shndx`: those of the first entry of that index.
pub open spec fn relocs_of(table: Seq<(usize, Seq<Reloc>)>, shndx: usize) -> Option<Seq<Reloc>>
    decreases table.len(),
{
    if table.len() == 0 {
        None
    } else if table[0].0 == shndx {
        Some(table[0].1)
    } else {
        relocs_of(table.drop_first(), shndx)
    }
}

/// The relocations of section `shndx`, which patch the program in section `target`.
pub open spec fn rels_of(shndx: usize, target: usize, relocs: Seq<Reloc>) -> Seq<Rel> {
    relocs.map_values(|r: Reloc| Rel { shndx, target, offset: r.r_offset, sym: r.r_sym })
}

/// The contents of a table of relocations.
pub open spec fn reloc_table(table: Seq<(usize, Vec<Reloc>)>) -> Seq<(usize, Seq<Reloc>)> {
    table.map_values(|entry: (usize, Vec<Reloc>)| (entry.0, entry.1@))
}

/// Where the entry of section `shndx` stands in the table.
pub fn find_relocs(table: &Vec<(usize, Vec<Reloc>)>, shndx: usize) -> (r: Option<usize>)
    ensures
        match r {
            Some(at) => {
                &&& at < table@.len()
                &&& relocs_of(reloc_table(table@), shndx) == Some(table@[at as int].1@)
            },
            None => relocs_of(reloc_table(table@), shndx) is None,
        },
{
    assert(reloc_table(table@).skip(0) =~= reloc_table(table@));
    for at in 0..table.len()
        invariant
            relocs_of(reloc_table(table@), shndx) == relocs_of(
                reloc_table(table@).skip(at as int),
                shndx,
            ),
    {
        let ghost rest = reloc_table(table@).skip(at as int);
        assert(rest[0] == (table@[at as int].0, table@[at as int].1@));
        assert(rest.drop_first() =~= reloc_table(table@).skip(at + 1));
        if table[at].0 == shndx {
            return Some(at);
        }
    }
    None
}

/// Adds the relocations of section `shndx`, for which the table has an entry.
pub fn add_rel(
    rels: &mut Vec<Rel>,
    shndx: usize,
    shdr: &SectionHeader,
    shdr_relocs: &Vec<(usize, Vec<Reloc>)>,
)
    requires
        relocs_of(reloc_table(shdr_relocs@), shndx) is Some,
    ensures
        final(rels)@ == old(rels)@ + rels_of(
            shndx,
            shdr.sh_info as usize,
            relocs_of(reloc_table(shdr_relocs@), shndx)->0,
        ),
{
    let target: usize = shdr.sh_info as usize;
    if let Some(at) = find_relocs(shdr_relocs, shndx) {
        let section_rels = &shdr_relocs[at].1;
        for i in 0..section_rels.len()
            invariant
                rels@ =~= old(rels)@ + rels_of(shndx, target, section_rels@.take(i as int)),
        {
            let rel = &section_rels[i];
            rels.push(Rel { shndx, target, sym: rel.r_sym, offset: rel.r_offset });
            assert(section_rels@.take(i + 1) =~= section_rels@.take(i as int).push(
                section_rels@[i as int],
            ));
        }
        assert(section_rels@.take(section_rels@.len() as int) =~= section_rels@);
    }
}

/// The instruction that a relocation patches is the one whose eight bytes hold the byte that it
/// names; so relocations of bytes of two instructions patch two.
pub proof fn a_relocation_names_the_instruction_around_its_byte(a: Rel, b: Rel, at: int)
    ensures
        a.insn_idx() == at <==> 8 * at <= a.offset < 8 * at + 8,
        a.insn_idx() == b.insn_idx() <==> a.offset as int / 8 == b.offset as int / 8,
{
}

/// A relocation of a program can be applied if and only if its symbol exists and, where the symbol
/// is defined in the section of a map, the byte that it names is one of the program's, which has
/// eight for each instruction. Relocations of other sections are not looked at.
pub proof fn relocations_of_bytes_of_a_program_are_in_bounds(
    rel: Rel,
    programs: Map<usize, ProgramView>,
    maps: Map<usize, BpfMapView>,
    symtab: Seq<Sym>,
)
    ensures
        !programs.contains_key(rel.target) ==> rel.in_bounds(programs, maps, symtab),
        programs.contains_key(rel.target) && rel.sym >= symtab.len() ==> !rel.in_bounds(
            programs,
            maps,
            symtab,
        ),
        programs.contains_key(rel.target) && rel.sym < symtab.len() ==> {
            let section = symtab[rel.sym as int].st_shndx;
            rel.in_bounds(programs, maps, symtab) <==> (maps.contains_key(section) ==> rel.offset
                < 8 * programs[rel.target].code.len())
        },
{
}

/// Applying a relocation marks the instruction around the byte that it names as the load of a map,
/// with the descriptor of the map that its symbol is defined in, and changes nothing else of any
/// program. It fails if and only if there is no such program or no such map.
pub proof fn a_relocation_patches_the_instruction_around_its_byte(
    rel: Rel,
    programs: Map<usize, ProgramView>,
    maps: Map<usize, BpfMapView>,
    symtab: Seq<Sym>,
)
    requires
        rel.in_bounds(programs, maps, symtab),
    ensures
        ({
            let section = symtab[rel.sym as int].st_shndx;
            match rel.applied(programs, maps, symtab) {
                Ok(patched) => {
                    let p = programs[rel.target];
                    let q = patched[rel.target];
                    &&& programs.contains_key(rel.target)
                    &&& maps.contains_key(section)
                    &&& patched.dom() == programs.dom()
                    &&& forall|k: usize|
                        programs.contains_key(k) && k != rel.target ==> #[trigger] patched[k]
                            == programs[k]
                    &&& q == ProgramView { code: q.code, ..p }
                    &&& q.code.len() == p.code.len()
                    &&& forall|at: int|
                        0 <= at < p.code.len() ==> {
                            let insn = #[trigger] q.code[at];
                            if 8 * at <= rel.offset < 8 * at + 8 {
                                &&& insn.code == p.code[at].code
                                &&& insn.off == p.code[at].off
                                &&& insn.regs as int == p.code[at].regs as int % 16 + 16
                                &&& insn.imm == maps[section].fd
                            } else {
                                insn == p.code[at]
                            }
                        }
                },
                Err(failure) => {
                    &&& !programs.contains_key(rel.target) || !maps.contains_key(section)
                    &&& failure == Failure::Reloc
                },
            }
        }),
{
    if let Ok(patched) = rel.applied(programs, maps, symtab) {
        assert(patched.dom() =~= programs.dom());
    }
}

/// The relocations of a section are those of the first entry that the table has for it.
pub proof fn relocations_are_those_of_the_first_entry(
    table: Seq<(usize, Seq<Reloc>)>,
    shndx: usize,
    at: int,
)
    requires
        0 <= at <= table.len(),
        forall|i: int| 0 <= i < at ==> (#[trigger] table[i]).0 != shndx,
    ensures
        at == table.len() ==> relocs_of(table, shndx) is None,
        at < table.len() && table[at].0 == shndx ==> relocs_of(table, shndx) == Some(table[at].1),
    decreases table.len(),
{
    if at > 0 {
        let rest = table.drop_first();
        assert(table[0].0 != shndx);
        assert forall|i: int| 0 <= i < at - 1 implies (#[trigger] rest[i]).0 != shndx by {
            assert(rest[i] == table[i + 1]);
        }
        relocations_are_those_of_the_first_entry(rest, shndx, at - 1);
        if at < table.len() {
            assert(rest[at - 1] == table[at]);
        }
    }
}

/// Every relocation of a section is taken over, with its place and its symbol, in turn.
pub proof fn every_relocation_is_taken_over(shndx: usize, target: usize, relocs: Seq<Reloc>)
    ensures
        rels_of(shndx, target, relocs).len() == relocs.len(),
        forall|i: int|
            0 <= i < relocs.len() ==> {
                let rel = #[trigger] rels_of(shndx, target, relocs)[i];
                &&& rel.shndx == shndx
                &&& rel.target == target
                &&& rel.offset == relocs[i].r_offset
                &&& rel.sym == relocs[i].r_sym
            },
{
}

/// Collections of programs and of maps show the contents of each of them under its own index.
pub proof fn collections_show_what_they_hold(
    programs: Map<usize, Program>,
    maps: Map<usize, BpfMap>,
    table: Seq<(usize, Vec<Reloc>)>,
)
    ensures
        program_views(programs).dom() == programs.dom(),
        forall|k: usize|
            programs.contains_key(k) ==> #[trigger] program_views(programs)[k] == programs[k]@,
        map_views(maps).dom() == maps.dom(),
        forall|k: usize| maps.contains_key(k) ==> #[trigger] map_views(maps)[k] == maps[k]@,
        reloc_table(table).len() == table.len(),
        forall|i: int|
            0 <= i < table.len() ==> #[trigger] reloc_table(table)[i] == (
                table[i].0,
                table[i].1@,
            ),
{
    assert(program_views(programs).dom() =~= programs.dom());
    assert(map_views(maps).dom() =~= maps.dom());
}

} // verus!
