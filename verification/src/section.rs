//! What the sections of an object say: which programs and maps there are, under which license
//! and for which kernel.
use crate::bpf_map::{
    a_request_carries_the_whole_definition, map_request, BpfMap, MapCreate, MapCreateView,
    MAP_DEF_SIZE,
};
use crate::elf::{Object, ObjectView, SectionHeader, SectionView, SHT_PROGBITS, SHT_REL};
use crate::error::{outcome, Failure, LoadError};
use crate::insn::{
    all_bytes, bytes32, ne32, numbers_of_32_bits_keep_their_bytes, read_ne32, INSN_SIZE,
};
use crate::kind::{kind_named, kinds_and_section_names_correspond, ProgramKind};
use crate::program::{a_new_program_holds_its_section, new_program, Program, ProgramView};
use crate::rel::{
    add_rel, every_relocation_is_taken_over, find_relocs, reloc_table,
    relocations_are_those_of_the_first_entry, relocs_of, rels_of, Rel,
};
use crate::text::{
    a_text_is_cut_at_its_first_slash, append_decimal, cutting_loses_only_the_slash, decimal,
    decimal_digits_stand_for_the_number, number, same_text, split_at_slash, split_slash,
};
use vstd::prelude::*;
use vstd::string::*;
use vstd::utf8::*;

verus! {

broadcast use vstd::string::group_string_axioms;

/// In place of a version: the module is meant for the kernel that is running.
pub const RUNNING_KERNEL: u32 = 0xFFFF_FFFE;

/// The position of the first zero byte in `b` at or after `from`, or the length of `b`.
pub open spec fn nul_from(b: Seq<u8>, from: int) -> int
    decreases b.len() - from,
{
    if from >= b.len() {
        b.len() as int
    } else if b[from] == 0 {
        from
    } else {
        nul_from(b, from + 1)
    }
}

/// The bytes before the first zero byte.
pub open spec fn c_bytes(b: Seq<u8>) -> Seq<u8> {
    b.subrange(0, nul_from(b, 0))
}

/// Whether `b` begins with text in UTF-8 that a zero byte ends.
pub open spec fn holds_c_str(b: Seq<u8>) -> bool {
    nul_from(b, 0) < b.len() && valid_utf8(c_bytes(b))
}

/// `zero::read_str`, which looks for a zero byte and decodes what stands before it. It panics
/// where there is no zero byte and where what stands before it is not UTF-8.
pub assume_specification[ zero::read_str ](input: &[u8]) -> (r: &str)
    requires
        holds_c_str(input@),
    ensures
        r@ == decode_utf8(c_bytes(input@)),
;

/// Calls `std::str::from_utf8`, which accepts the bytes if and only if they are UTF-8.
#[verifier::external_body]
fn is_utf8(b: &[u8]) -> (r: bool)
    ensures
        r == valid_utf8(b@),
{
    std::str::from_utf8(b).is_ok()
}

/// Where `nul_from` points: the first zero byte, or the end.
proof fn lemma_nul_from(b: Seq<u8>, from: int, at: int)
    requires
        0 <= from <= at <= b.len(),
        forall|j: int| from <= j < at ==> b[j] != 0,
        at < b.len() ==> b[at] == 0,
    ensures
        nul_from(b, from) == at,
    decreases at - from,
{
    if from < at {
        lemma_nul_from(b, from + 1, at);
    }
}

/// Whether `b` begins with text in UTF-8 that a zero byte ends.
fn has_c_str(b: &[u8]) -> (r: bool)
    ensures
        r == holds_c_str(b@),
{
    let len: usize = b.len();
    let mut at: usize = 0;
    while at < len && b[at] != 0
        invariant
            len == b@.len(),
            at <= len,
            forall|j: int| 0 <= j < at ==> b@[j] != 0,
        decreases len - at,
    {
        at = at + 1;
    }
    proof {
        lemma_nul_from(b@, 0, at as int);
    }
    at < len && is_utf8(vstd::slice::slice_subrange(b, 0, at))
}

impl SectionView {
    /// Whether the section lies within a file of `len` bytes.
    pub open spec fn in_file(self, len: nat) -> bool {
        self.sh_offset + self.sh_size <= len
    }

    /// The bytes of the section.
    pub open spec fn content(self, bytes: Seq<u8>) -> Seq<u8> {
        bytes.subrange(self.sh_offset as int, self.sh_offset + self.sh_size)
    }
}

/// What one section means to the loader.
pub enum Item {
    /// Nothing.
    Skip,
    /// Relocations.
    Rels(Vec<Rel>),
    /// The version of the kernel that the module is meant for.
    Version(u32),
    /// The module is meant for the kernel that is running.
    RunningKernel,
    /// The license of the module.
    License(String),
    /// A map to create.
    BpfMap(MapCreate),
    /// A program.
    Program(Program),
}

/// The mathematical content of an [`Item`].
pub enum ItemView {
    Skip,
    Rels(Seq<Rel>),
    Version(u32),
    RunningKernel,
    License(Seq<char>),
    BpfMap(MapCreateView),
    Program(ProgramView),
}

impl View for Item {
    type V = ItemView;

    open spec fn view(&self) -> ItemView {
        match self {
            Item::Skip => ItemView::Skip,
            Item::Rels(rels) => ItemView::Rels(rels@),
            Item::Version(version) => ItemView::Version(*version),
            Item::RunningKernel => ItemView::RunningKernel,
            Item::License(license) => ItemView::License(license@),
            Item::BpfMap(request) => ItemView::BpfMap(request@),
            Item::Program(program) => ItemView::Program(program@),
        }
    }
}

/// The failure of a section for which the string table holds no name.
pub open spec fn name_not_found(shndx: int) -> Failure {
    Failure::Section("Section name not found: "@ + decimal(shndx as nat))
}

/// The version that a section of these bytes asks for.
pub open spec fn version_item(content: Seq<u8>) -> ItemView {
    if ne32(content, 0) == RUNNING_KERNEL {
        ItemView::RunningKernel
    } else {
        ItemView::Version(ne32(content, 0) as u32)
    }
}

impl ObjectView {
    /// Whether section `i` of a file of these bytes can be read. It can where it has no name; where
    /// it has one, the name is text, the section lies within the file, and it is as long as
    /// what it holds.
    pub open spec fn readable(self, bytes: Seq<u8>, i: int) -> bool {
        let section = self.sections[i];
        match section.name {
            None => true,
            Some(None) => false,
            Some(Some(name)) => {
                let content = section.content(bytes);
                let (kind, rest) = split_at_slash(name);
                &&& section.in_file(bytes.len())
                &&& if section.sh_type == SHT_REL {
                    relocs_of(self.shdr_relocs, i as usize) is Some
                } else if section.sh_type != SHT_PROGBITS {
                    true
                } else if kind == "version"@ {
                    content.len() >= 4
                } else if kind == "license"@ {
                    holds_c_str(content)
                } else if kind == "maps"@ && rest is Some {
                    content.len() >= MAP_DEF_SIZE
                } else if kind_named(kind) is Some && rest is Some {
                    content.len() % 8 == 0
                } else {
                    true
                }
            },
        }
    }

    /// What section `i`, which can be read, means to the loader.
    pub open spec fn item(self, bytes: Seq<u8>, i: int) -> Result<ItemView, Failure>
        recommends
            self.readable(bytes, i),
    {
        let section = self.sections[i];
        match section.name {
            Some(Some(name)) => {
                let content = section.content(bytes);
                let (kind, rest) = split_at_slash(name);
                if section.sh_type == SHT_REL {
                    Ok(
                        ItemView::Rels(
                            rels_of(
                                i as usize,
                                section.sh_info as usize,
                                relocs_of(self.shdr_relocs, i as usize)->0,
                            ),
                        ),
                    )
                } else if section.sh_type != SHT_PROGBITS {
                    Ok(ItemView::Skip)
                } else if kind == "version"@ {
                    Ok(version_item(content))
                } else if kind == "license"@ {
                    Ok(ItemView::License(decode_utf8(c_bytes(content))))
                } else if kind == "maps"@ && rest is Some {
                    match map_request(rest->0, content) {
                        Ok(request) => Ok(ItemView::BpfMap(request)),
                        Err(e) => Err(e),
                    }
                } else if kind_named(kind) is Some && rest is Some {
                    match new_program(kind, rest->0, content) {
                        Ok(program) => Ok(ItemView::Program(program)),
                        Err(e) => Err(e),
                    }
                } else {
                    Ok(ItemView::Skip)
                }
            },
            _ => Err(name_not_found(i)),
        }
    }
}

/// The name of a section, cut at its first slash. A section without a name is an error.
pub fn get_split_section_name(shdr: &SectionHeader, shndx: usize) -> (r: Result<
    (&str, Option<&str>),
    LoadError,
>)
    requires
        shdr@.name != Some(None::<Seq<char>>),
    ensures
        match shdr@.name {
            Some(Some(name)) => {
                &&& r matches Ok(split)
                &&& split.0@ == split_at_slash(name).0
                &&& match split.1 {
                    Some(rest) => split_at_slash(name).1 == Some(rest@),
                    None => split_at_slash(name).1 is None,
                }
            },
            _ => r matches Err(e) && e@ == name_not_found(shndx as int),
        },
{
    match &shdr.name {
        Some(Some(name)) => Ok(split_slash(name.as_str())),
        _ => {
            let mut message = "Section name not found: ".to_string();
            append_decimal(&mut message, shndx);
            Err(LoadError::Section(message))
        },
    }
}

/// The bytes of a section, which lies within the file.
pub fn data<'d>(bytes: &'d [u8], shdr: &SectionHeader) -> (r: &'d [u8])
    requires
        shdr@.in_file(bytes@.len()),
    ensures
        r@ == shdr@.content(bytes@),
{
    let len: usize = bytes.len();
    let offset: usize = shdr.sh_offset as usize;
    let end: usize = (shdr.sh_offset + shdr.sh_size) as usize;
    vstd::slice::slice_subrange(bytes, offset, end)
}

/// The version that a section holds, or `None` where the version of the running kernel stands
/// for it.
pub fn get_version(bytes: &[u8]) -> (r: Option<u32>)
    requires
        bytes@.len() >= 4,
    ensures
        r == (if ne32(bytes@, 0) == RUNNING_KERNEL {
            None
        } else {
            Some(ne32(bytes@, 0) as u32)
        }),
{
    let version: u32 = read_ne32(bytes, 0);
    if version == RUNNING_KERNEL {
        None
    } else {
        Some(version)
    }
}

impl Object {
    /// Whether [`Object::read_section`] can read section `shndx`.
    pub fn is_readable(&self, bytes: &[u8], shndx: usize) -> (r: bool)
        requires
            shndx < self@.sections.len(),
        ensures
            r == self@.readable(bytes@, shndx as int),
    {
        let shdr = &self.sections[shndx];
        assert(self@.sections[shndx as int] == shdr@);
        assert(self@.shdr_relocs == reloc_table(self.shdr_relocs@));
        let (kind, rest) = match &shdr.name {
            None => {
                return true;
            },
            Some(None) => {
                return false;
            },
            Some(Some(name)) => split_slash(name.as_str()),
        };
        let len: u64 = bytes.len() as u64;
        if shdr.sh_size > len || shdr.sh_offset > len - shdr.sh_size {
            return false;
        }
        let content = data(bytes, shdr);
        if shdr.sh_type == SHT_REL {
            find_relocs(&self.shdr_relocs, shndx).is_some()
        } else if shdr.sh_type != SHT_PROGBITS {
            true
        } else if same_text(kind, "version") {
            content.len() >= 4
        } else if same_text(kind, "license") {
            has_c_str(content)
        } else if same_text(kind, "maps") && rest.is_some() {
            content.len() >= MAP_DEF_SIZE
        } else if ProgramKind::from_section(kind).is_ok() && rest.is_some() {
            content.len() % INSN_SIZE == 0
        } else {
            true
        }
    }

    /// What section `shndx` of a file of these bytes means to the loader.
    pub fn read_section(&self, bytes: &[u8], shndx: usize) -> (r: Result<Item, LoadError>)
        requires
            shndx < self@.sections.len(),
            self@.readable(bytes@, shndx as int),
        ensures
            outcome(r) == self@.item(bytes@, shndx as int),
    {
        let shdr = &self.sections[shndx];
        assert(self@.sections[shndx as int] == shdr@);
        assert(self@.shdr_relocs == reloc_table(self.shdr_relocs@));
        let (kind, rest) = match get_split_section_name(shdr, shndx) {
            Ok(split) => split,
            Err(e) => {
                return Err(e);
            },
        };
        let content = data(bytes, shdr);
        if shdr.sh_type == SHT_REL {
            let mut rels: Vec<Rel> = Vec::new();
            add_rel(&mut rels, shndx, shdr, &self.shdr_relocs);
            assert(rels@ =~= rels_of(
                shndx,
                shdr.sh_info as usize,
                relocs_of(self@.shdr_relocs, shndx)->0,
            ));
            return Ok(Item::Rels(rels));
        }
        if shdr.sh_type != SHT_PROGBITS {
            return Ok(Item::Skip);
        }
        if same_text(kind, "version") {
            return match get_version(content) {
                Some(version) => Ok(Item::Version(version)),
                None => Ok(Item::RunningKernel),
            };
        }
        if same_text(kind, "license") {
            return Ok(Item::License(zero::read_str(content).to_string()));
        }
        match rest {
            Some(name) => {
                if same_text(kind, "maps") {
                    match BpfMap::load(name, content) {
                        Ok(request) => Ok(Item::BpfMap(request)),
                        Err(e) => Err(e),
                    }
                } else if ProgramKind::from_section(kind).is_ok() {
                    match Program::new(kind, name, content) {
                        Ok(program) => Ok(Item::Program(program)),
                        Err(e) => Err(e),
                    }
                } else {
                    Ok(Item::Skip)
                }
            },
            None => Ok(Item::Skip),
        }
    }
}

/// A C string is what stands before the first zero byte; there is one if and only if there is a
/// zero byte and what stands before the first one is UTF-8.
pub proof fn a_c_string_ends_at_the_first_zero_byte(b: Seq<u8>, at: int)
    requires
        0 <= at <= b.len(),
        forall|j: int| 0 <= j < at ==> b[j] != 0,
        at < b.len() ==> b[at] == 0,
    ensures
        at < b.len() ==> c_bytes(b) == b.subrange(0, at),
        holds_c_str(b) <==> at < b.len() && valid_utf8(b.subrange(0, at)),
{
    lemma_nul_from(b, 0, at);
}

/// A section lies within a file if and only if its last byte does, and each of its bytes stands in
/// the file at its own distance from the start of the section.
pub proof fn a_section_is_a_piece_of_the_file(section: SectionView, bytes: Seq<u8>)
    ensures
        section.in_file(bytes.len()) <==> section.sh_offset as int + section.sh_size as int
            <= bytes.len(),
        section.in_file(bytes.len()) ==> {
            &&& section.content(bytes).len() == section.sh_size
            &&& forall|j: int|
                0 <= j < section.sh_size ==> #[trigger] section.content(bytes)[j]
                    == bytes[section.sh_offset + j]
        },
{
}

/// None of the words that sections are named by holds a slash, and no two of them are the same.
proof fn lemma_words(kind: ProgramKind)
    ensures
        !"version"@.contains('/'),
        !"license"@.contains('/'),
        !"maps"@.contains('/'),
        !kind.section().contains('/'),
        "version"@ != "license"@,
        "version"@ != "maps"@,
        "license"@ != "maps"@,
        kind.section() != "version"@,
        kind.section() != "license"@,
        kind.section() != "maps"@,
        kind_named("version"@) is None,
        kind_named("license"@) is None,
        kind_named("maps"@) is None,
{
    reveal_strlit("version");
    reveal_strlit("license");
    reveal_strlit("maps");
    reveal_strlit("kprobe");
    reveal_strlit("kretprobe");
    reveal_strlit("xdp");
    reveal_strlit("socketfilter");
    assert("version"@[0] == 'v' && "license"@[0] == 'l' && "maps"@[0] == 'm');
    assert("kprobe"@[0] == 'k' && "kretprobe"@[0] == 'k' && "xdp"@[0] == 'x'
        && "socketfilter"@[0] == 's');
}

/// A section of programs, named by the word for a kind, a slash and a name, can be read if and
/// only if it holds a whole number of instructions, eight bytes each. It holds a program of that
/// kind and name, neither loaded nor attached, whose instructions have in turn the bytes of the
/// section.
pub proof fn a_section_named_after_a_kind_holds_a_program(
    object: ObjectView,
    bytes: Seq<u8>,
    i: int,
    kind: ProgramKind,
    name: Seq<char>,
)
    requires
        object.sections[i].name == Some(Some(kind.section() + seq!['/'] + name)),
        object.sections[i].sh_type == 1,
        object.sections[i].in_file(bytes.len()),
    ensures
        object.readable(bytes, i) <==> object.sections[i].sh_size % 8 == 0,
        object.readable(bytes, i) ==> {
            &&& object.item(bytes, i) matches Ok(ItemView::Program(p))
            &&& p.kind == kind
            &&& p.name == name
            &&& p.fd is None
            &&& p.pfd is None
            &&& 8 * p.code.len() == object.sections[i].sh_size
            &&& all_bytes(p.code) == object.sections[i].content(bytes)
            &&& object.sections[i].sh_size < 0x8000_0000 ==> p.code_bytes
                == object.sections[i].sh_size
        },
{
    let word = kind.section();
    let content = object.sections[i].content(bytes);
    lemma_words(kind);
    a_text_is_cut_at_its_first_slash(word, name);
    kinds_and_section_names_correspond(kind, word);
    a_section_is_a_piece_of_the_file(object.sections[i], bytes);
    if content.len() % 8 == 0 {
        a_new_program_holds_its_section(word, name, content);
    }
}

/// A section named by the word for maps, a slash and a name can be read if and only if it is as
/// long as the definition of a map. It asks for the map of that name that the section begins with
/// the definition of; a name with a NUL character is a failure.
pub proof fn a_section_of_maps_asks_for_a_map(
    object: ObjectView,
    bytes: Seq<u8>,
    i: int,
    name: Seq<char>,
)
    requires
        object.sections[i].name == Some(Some("maps"@ + seq!['/'] + name)),
        object.sections[i].sh_type == 1,
        object.sections[i].in_file(bytes.len()),
    ensures
        object.readable(bytes, i) <==> object.sections[i].sh_size >= 280,
        object.readable(bytes, i) ==> match object.item(bytes, i) {
            Ok(ItemView::BpfMap(request)) => {
                &&& !name.contains('\0')
                &&& request.name == name
                &&& bytes32(request.kind as int) + bytes32(request.key_size as int) + bytes32(
                    request.value_size as int,
                ) + bytes32(request.max_entries as int) + bytes32(request.map_flags as int)
                    == object.sections[i].content(bytes).subrange(0, 20)
            },
            Ok(_) => false,
            Err(failure) => name.contains('\0') && failure == Failure::StringConversion,
        },
{
    let content = object.sections[i].content(bytes);
    lemma_words(ProgramKind::XDP);
    a_text_is_cut_at_its_first_slash("maps"@, name);
    a_section_is_a_piece_of_the_file(object.sections[i], bytes);
    if content.len() >= 280 {
        a_request_carries_the_whole_definition(name, content);
    }
}

/// Whether the first part of a section's name is this word, with or without a second part.
pub open spec fn begins_with_word(name: Seq<char>, word: Seq<char>) -> bool {
    name == word || exists|rest: Seq<char>| name == #[trigger] (word + seq!['/'] + rest)
}

/// The first part of a name is a word without a slash if and only if the name begins with it.
proof fn lemma_first_word(name: Seq<char>, word: Seq<char>)
    requires
        !word.contains('/'),
    ensures
        split_at_slash(name).0 == word <==> begins_with_word(name, word),
{
    cutting_loses_only_the_slash(name);
    if begins_with_word(name, word) && name != word {
        let rest = choose|rest: Seq<char>| name == #[trigger] (word + seq!['/'] + rest);
        a_text_is_cut_at_its_first_slash(word, rest);
    }
    a_text_is_cut_at_its_first_slash(word, Seq::empty());
}

/// A license section can be read if and only if it begins with a C string. It gives the license of
/// which that string is the encoding in UTF-8.
pub proof fn a_license_section_gives_its_text(object: ObjectView, bytes: Seq<u8>, i: int, at: int)
    requires
        object.sections[i].name matches Some(Some(name)) && begins_with_word(name, "license"@),
        object.sections[i].sh_type == 1,
        object.sections[i].in_file(bytes.len()),
        ({
            let content = object.sections[i].content(bytes);
            &&& 0 <= at <= content.len()
            &&& forall|j: int| 0 <= j < at ==> content[j] != 0
            &&& at < content.len() ==> content[at] == 0
        }),
    ensures
        ({
            let content = object.sections[i].content(bytes);
            &&& object.readable(bytes, i) <==> at < content.len() && valid_utf8(
                content.subrange(0, at),
            )
            &&& object.readable(bytes, i) ==> {
                &&& object.item(bytes, i) matches Ok(ItemView::License(license))
                &&& encode_utf8(license) == content.subrange(0, at)
            }
        }),
{
    let name = object.sections[i].name->0->0;
    let content = object.sections[i].content(bytes);
    lemma_words(ProgramKind::XDP);
    lemma_first_word(name, "license"@);
    a_c_string_ends_at_the_first_zero_byte(content, at);
    if holds_c_str(content) {
        decode_utf8_encode_utf8(c_bytes(content));
    }
}

/// A version section can be read if and only if it holds four bytes. It gives the number that has
/// these bytes in the byte order of the machine, or, for one number, asks for the version of the
/// running kernel.
pub proof fn a_version_section_gives_its_number(object: ObjectView, bytes: Seq<u8>, i: int)
    requires
        object.sections[i].name matches Some(Some(name)) && begins_with_word(name, "version"@),
        object.sections[i].sh_type == 1,
        object.sections[i].in_file(bytes.len()),
    ensures
        object.readable(bytes, i) <==> object.sections[i].sh_size >= 4,
        object.readable(bytes, i) ==> {
            let first = object.sections[i].content(bytes).subrange(0, 4);
            match object.item(bytes, i) {
                Ok(ItemView::Version(version)) => {
                    &&& bytes32(version as int) == first
                    &&& version != 0xFFFF_FFFE
                },
                Ok(ItemView::RunningKernel) => bytes32(0xFFFF_FFFE) == first,
                _ => false,
            }
        },
{
    let name = object.sections[i].name->0->0;
    let content = object.sections[i].content(bytes);
    lemma_words(ProgramKind::XDP);
    lemma_first_word(name, "version"@);
    if content.len() >= 4 {
        numbers_of_32_bits_keep_their_bytes(content, 0);
    }
}

/// A relocation section can be read if and only if the table has an entry for it. It gives the
/// relocations of the first such entry, every one of them, for the section that its header names.
pub proof fn a_relocation_section_gives_its_relocations(
    object: ObjectView,
    bytes: Seq<u8>,
    i: int,
    at: int,
)
    requires
        0 <= i <= usize::MAX,
        object.sections[i].name matches Some(Some(_)),
        object.sections[i].sh_type == 9,
        object.sections[i].in_file(bytes.len()),
        0 <= at <= object.shdr_relocs.len(),
        forall|j: int| 0 <= j < at ==> (#[trigger] object.shdr_relocs[j]).0 != i,
        at < object.shdr_relocs.len() ==> object.shdr_relocs[at].0 == i,
    ensures
        object.readable(bytes, i) <==> at < object.shdr_relocs.len(),
        object.readable(bytes, i) ==> {
            let relocs = object.shdr_relocs[at].1;
            &&& object.item(bytes, i) matches Ok(ItemView::Rels(rels))
            &&& rels.len() == relocs.len()
            &&& forall|j: int|
                0 <= j < relocs.len() ==> {
                    &&& (#[trigger] rels[j]).shndx == i
                    &&& rels[j].target == object.sections[i].sh_info as usize
                    &&& rels[j].offset == relocs[j].r_offset
                    &&& rels[j].sym == relocs[j].r_sym
                }
        },
{
    relocations_are_those_of_the_first_entry(object.shdr_relocs, i as usize, at);
    if at < object.shdr_relocs.len() {
        every_relocation_is_taken_over(
            i as usize,
            object.sections[i].sh_info as usize,
            object.shdr_relocs[at].1,
        );
    }
}

/// Every other section that lies within the file means nothing: one of another type; one that is
/// named by none of the words; one that is named by the word for maps or for a kind, without a
/// second part.
pub proof fn other_sections_mean_nothing(object: ObjectView, bytes: Seq<u8>, i: int)
    requires
        object.sections[i].name matches Some(Some(_)),
        object.sections[i].in_file(bytes.len()),
        object.sections[i].sh_type != 9,
        object.sections[i].sh_type == 1 ==> {
            let name = object.sections[i].name->0->0;
            &&& !begins_with_word(name, "version"@)
            &&& !begins_with_word(name, "license"@)
            &&& begins_with_word(name, "maps"@) ==> name == "maps"@
            &&& forall|kind: ProgramKind| #[trigger]
                begins_with_word(name, kind.section()) ==> name == kind.section()
        },
    ensures
        object.readable(bytes, i),
        object.item(bytes, i) == Ok::<ItemView, Failure>(ItemView::Skip),
{
    let name = object.sections[i].name->0->0;
    if object.sections[i].sh_type == 1 {
        let (word, rest) = split_at_slash(name);
        cutting_loses_only_the_slash(name);
        lemma_words(ProgramKind::XDP);
        lemma_first_word(name, "version"@);
        lemma_first_word(name, "license"@);
        lemma_first_word(name, "maps"@);
        a_text_is_cut_at_its_first_slash("maps"@, Seq::empty());
        if let Some(kind) = kind_named(word) {
            lemma_words(kind);
            kinds_and_section_names_correspond(kind, word);
            lemma_first_word(name, kind.section());
            a_text_is_cut_at_its_first_slash(kind.section(), Seq::empty());
        }
    }
}

/// A section for which the string table holds no name fails, and the failure tells its number, in
/// decimal, after a fixed text. A name that is no text, and a section with a name that does not lie
/// within the file, cannot be read.
pub proof fn sections_without_a_name_fail(object: ObjectView, bytes: Seq<u8>, i: int)
    requires
        0 <= i,
    ensures
        object.sections[i].name is None ==> {
            &&& object.readable(bytes, i)
            &&& object.item(bytes, i) matches Err(Failure::Section(text))
            &&& exists|digits: Seq<char>|
                {
                    &&& text == #[trigger] ("Section name not found: "@ + digits)
                    &&& number(digits) == i
                    &&& digits.len() >= 1
                    &&& forall|j: int|
                        0 <= j < digits.len() ==> 48 <= #[trigger] digits[j] as int <= 57
                }
        },
        object.sections[i].name == Some(None::<Seq<char>>) ==> !object.readable(bytes, i),
        (object.sections[i].name matches Some(Some(_))) && !object.sections[i].in_file(bytes.len())
            ==> !object.readable(bytes, i),
{
    decimal_digits_stand_for_the_number(i as nat);
    if object.sections[i].name is None {
        let digits = decimal(i as nat);
        assert(name_not_found(i) == Failure::Section("Section name not found: "@ + digits));
    }
}

/// What a section was found to mean shows all that it holds.
pub proof fn items_show_what_they_hold(
    rels: Vec<Rel>,
    version: u32,
    license: String,
    request: MapCreate,
    program: Program,
)
    ensures
        Item::Skip@ == ItemView::Skip,
        Item::Rels(rels)@ == ItemView::Rels(rels@),
        Item::Version(version)@ == ItemView::Version(version),
        Item::RunningKernel@ == ItemView::RunningKernel,
        Item::License(license)@ == ItemView::License(license@),
        Item::BpfMap(request)@ == ItemView::BpfMap(request@),
        Item::Program(program)@ == ItemView::Program(program@),
{
}

} // verus!
