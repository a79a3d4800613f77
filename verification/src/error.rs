//! What can go wrong while a module is loaded or attached.
use vstd::prelude::*;

verus! {

/// The error type of `goblin`, carried through without a look inside.
#[verifier::external_type_specification]
#[verifier::external_body]
pub struct ExGoblinError(goblin::error::Error);

/// The reasons for which loading or attaching a program fails.
#[derive(Debug)]
pub enum LoadError {
    /// A string that has to reach the kernel holds a NUL character.
    StringConversion,
    /// The kernel refused a request.
    BPF,
    /// A section has no name, or its name denotes no kind of program.
    Section(String),
    /// The file is no ELF object.
    Parse(goblin::error::Error),
    /// A system call failed with this `errno`.
    IO(i32),
    /// A relocation does not refer to a map, or not to a program.
    Reloc,
}

/// The mathematical content of a [`LoadError`].
pub enum Failure {
    StringConversion,
    BPF,
    Section(Seq<char>),
    Parse,
    IO(i32),
    Reloc,
}

impl View for LoadError {
    type V = Failure;

    open spec fn view(&self) -> Failure {
        match self {
            LoadError::StringConversion => Failure::StringConversion,
            LoadError::BPF => Failure::BPF,
            LoadError::Section(s) => Failure::Section(s@),
            LoadError::Parse(_) => Failure::Parse,
            LoadError::IO(code) => Failure::IO(*code),
            LoadError::Reloc => Failure::Reloc,
        }
    }
}

/// The mathematical content of a result.
pub open spec fn outcome<T: View>(r: Result<T, LoadError>) -> Result<T::V, Failure> {
    match r {
        Ok(value) => Ok(value@),
        Err(e) => Err(e@),
    }
}

/// Errors show all that they hold, but for the reason that `goblin` gives.
pub proof fn errors_show_what_they_hold(text: String, code: i32, reason: goblin::error::Error)
    ensures
        LoadError::StringConversion@ == Failure::StringConversion,
        LoadError::BPF@ == Failure::BPF,
        LoadError::Section(text)@ == Failure::Section(text@),
        LoadError::Parse(reason)@ == Failure::Parse,
        LoadError::IO(code)@ == Failure::IO(code),
        LoadError::Reloc@ == Failure::Reloc,
{
}

/// A result shows whether it is a success, and what it holds.
pub proof fn results_show_what_they_hold<T: View>(r: Result<T, LoadError>)
    ensures
        r is Ok <==> outcome(r) is Ok,
        r matches Ok(value) ==> outcome(r) == Ok::<T::V, Failure>(value@),
        r matches Err(e) ==> outcome(r) == Err::<T::V, Failure>(e@),
{
}

} // verus!
