//! What the loader reads of an ELF object.
use goblin::elf::Elf;
use vstd::prelude::*;
use vstd::string::*;

verus! {

/// The type of a section that holds the program's own data.
pub const SHT_PROGBITS: u32 = 1;

/// The type of a section that holds relocations without addends.
pub const SHT_REL: u32 = 9;

/// One entry of the section header table.
pub struct SectionHeader {
    /// The name that the string table holds for the section: `None` where the table does not
    /// reach that far, `Some(None)` where what stands there is no text.
    pub name: Option<Option<String>>,
    pub sh_type: u32,
    pub sh_offset: u64,
    pub sh_size: u64,
    pub sh_info: u32,
}

/// One entry of the symbol table: the section that the symbol is defined in.
#[derive(Debug, Clone, Copy, PartialEq, Eq, Structural)]
pub struct Sym {
    pub st_shndx: usize,
}

/// One relocation: the place to patch and the symbol to patch it with.
#[derive(Debug, Clone, Copy, PartialEq, Eq, Structural)]
pub struct Reloc {
    pub r_offset: u64,
    pub r_sym: usize,
}

/// An ELF object: its sections, its symbols, and the relocations of each relocation section
/// under the index of that section.
pub struct Object {
    pub sections: Vec<SectionHeader>,
    pub symtab: Vec<Sym>,
    pub shdr_relocs: Vec<(usize, Vec<Reloc>)>,
}

/// The mathematical content of a [`SectionHeader`].
pub struct SectionView {
    pub name: Option<Option<Seq<char>>>,
    pub sh_type: u32,
    pub sh_offset: u64,
    pub sh_size: u64,
    pub sh_info: u32,
}

/// The mathematical content of an [`Object`].
pub struct ObjectView {
    pub sections: Seq<SectionView>,
    pub symtab: Seq<Sym>,
    pub shdr_relocs: Seq<(usize, Seq<Reloc>)>,
}

impl View for SectionHeader {
    type V = SectionView;

    open spec fn view(&self) -> SectionView {
        SectionView {
            name: match self.name {
                None => None,
                Some(None) => Some(None),
                Some(Some(text)) => Some(Some(text@)),
            },
            sh_type: self.sh_type,
            sh_offset: self.sh_offset,
            sh_size: self.sh_size,
            sh_info: self.sh_info,
        }
    }
}

impl View for Object {
    type V = ObjectView;

    open spec fn view(&self) -> ObjectView {
        ObjectView {
            sections: self.sections@.map_values(|s: SectionHeader| s@),
            symtab: self.symtab@,
            shdr_relocs: self.shdr_relocs@.map_values(
                |entry: (usize, Vec<Reloc>)| (entry.0, entry.1@),
            ),
        }
    }
}

/// What `goblin` reads out of a file of these bytes on a machine whose `usize` has 64 bits, or
/// `None` where it finds no ELF object in them.
pub uninterp spec fn elf_object(bytes: Seq<u8>) -> Option<ObjectView>;

/// Calls `goblin::elf::Elf::parse`, and hands on the section headers with the names that
/// `goblin::strtab::Strtab::get` finds for them, the symbols and the section relocations.
///
/// The contract claims that the outcome is a function of the bytes, and gives that function a
/// name. Which bytes are an ELF object, and what is read out of them, is left unsaid. Machines
/// whose `usize` has other than 64 bits are left out: `goblin` computes sizes in `usize`, and on
/// 32 bits these computations can overflow.
#[verifier::external_body]
#[allow(deprecated)]
pub(crate) fn parse_elf(bytes: &[u8]) -> (r: Result<Object, goblin::error::Error>)
    requires
        usize::BITS == 64,
    ensures
        match r {
            Ok(object) => elf_object(bytes@) == Some(object@),
            Err(_) => elf_object(bytes@) is None,
        },
{
    let elf = Elf::parse(bytes)?;
    Ok(Object {
        sections: elf.section_headers.iter().map(|s| SectionHeader {
            name: elf.shdr_strtab.get(s.sh_name).map(|n| n.ok().map(String::from)),
            sh_type: s.sh_type,
            sh_offset: s.sh_offset,
            sh_size: s.sh_size,
            sh_info: s.sh_info,
        }).collect(),
        symtab: elf.syms.iter().map(|s| Sym { st_shndx: s.st_shndx }).collect(),
        shdr_relocs: elf.shdr_relocs.iter().map(|(i, t)| (*i, t.iter().map(|r| Reloc {
            r_offset: r.r_offset,
            r_sym: r.r_sym,
        }).collect())).collect(),
    })
}

/// What is read of an ELF object shows all that it holds.
pub proof fn objects_show_what_they_hold(object: Object, header: SectionHeader)
    ensures
        header@.sh_type == header.sh_type,
        header@.sh_offset == header.sh_offset,
        header@.sh_size == header.sh_size,
        header@.sh_info == header.sh_info,
        header.name is None ==> header@.name is None,
        header.name == Some(None::<String>) ==> header@.name == Some(None::<Seq<char>>),
        header.name matches Some(Some(name)) ==> header@.name == Some(Some(name@)),
        object@.sections.len() == object.sections@.len(),
        forall|i: int|
            0 <= i < object.sections@.len() ==> #[trigger] object@.sections[i]
                == object.sections@[i]@,
        object@.symtab == object.symtab@,
        object@.shdr_relocs.len() == object.shdr_relocs@.len(),
        forall|i: int|
            0 <= i < object.shdr_relocs@.len() ==> #[trigger] object@.shdr_relocs[i] == (
                object.shdr_relocs@[i].0,
                object.shdr_relocs@[i].1@,
            ),
{
}

} // verus!
