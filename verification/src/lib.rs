//! Loading eBPF programs out of ELF object files, and attaching them.
//!
//! An object file holds programs, the maps they share with user space, a license and the version
//! of the kernel it is meant for, each in a section whose name says what it is. [`Module::parse`]
//! reads the sections, has the maps created and patches their descriptors into the programs.
//! [`Module::load_programs`] has the programs loaded, and a [`Grain`] attaches them.
//!
//! This crate asks nothing of the kernel itself. Whatever has to be asked is made into a request,
//! such as [`bpf_map::MapCreate`], and handed to a function of the caller's, whose answer decides
//! how things go on. Such a function also takes a handle of a type that the caller chooses, and
//! gives it back with the answer, for the next question. The contracts state what is asked, how
//! often and in which order, by the way that the handle takes, and what follows from each answer.
pub mod bpf_map;
pub mod elf;
pub mod error;
pub mod grain;
pub mod insn;
pub mod kind;
pub mod link;
pub mod load_laws;
pub mod loading;
pub mod module;
pub mod move_law;
pub mod program;
pub mod rel;
pub mod section;
pub mod text;

pub use bpf_map::{BpfMap, MapIter};
pub use error::{Failure, LoadError};
pub use grain::Grain;
pub use kind::ProgramKind;
pub use loading::Loading;
pub use module::Module;
pub use program::Program;
pub use rel::Rel;
