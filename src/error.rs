use vstd::prelude::*;

use crate::state::ParseRegisterError;

verus! {

/// Every way a call of this library can fail.
#[derive(Debug)]
pub enum Error {
    /// The register size is 0 or wider than the host's address width.
    InvalidRegisterSize(u8),
    /// A gate of this name is already registered.
    DuplicateGate(String),
    /// A gate matrix failed the unitarity test.
    NonUnitaryGate,
    /// The textual initial state is malformed.
    InvalidInitialState(ParseRegisterError),
    /// An instruction names a gate that is not registered.
    UnknownGate(String),
    /// A target or control address is not below the register size.
    AddressOutOfRange(u8),
    /// A controlled instruction uses the same qubit as target and control.
    TargetEqualsControl,
    /// No sub-routine of this name was defined.
    UnknownSubroutine(String),
    /// A sub-routine of this name was already defined.
    DuplicateSubroutine(String),
    /// A variable is used or bound that the sub-routine does not declare.
    UnknownVariable(char),
    /// A variable is declared or bound twice.
    DuplicateVariable(char),
    /// A declared variable received no binding.
    MissingBinding(char),
    /// The builder was already sealed by `measure` or `end`.
    BuilderSealed,
    /// `measure` was asked for zero samples.
    ZeroSamples,
    /// The compute device or one of its kernels failed.
    DeviceFailure,
}

/// The mathematical content of an [`Error`]: names are seen as character sequences.
pub enum Failure {
    InvalidRegisterSize(u8),
    DuplicateGate(Seq<char>),
    NonUnitaryGate,
    InvalidInitialState(ParseRegisterError),
    UnknownGate(Seq<char>),
    AddressOutOfRange(u8),
    TargetEqualsControl,
    UnknownSubroutine(Seq<char>),
    DuplicateSubroutine(Seq<char>),
    UnknownVariable(char),
    DuplicateVariable(char),
    MissingBinding(char),
    BuilderSealed,
    ZeroSamples,
    DeviceFailure,
}

impl View for Error {
    type V = Failure;

    open spec fn view(&self) -> Failure {
        match self {
            Error::InvalidRegisterSize(n) => Failure::InvalidRegisterSize(*n),
            Error::DuplicateGate(s) => Failure::DuplicateGate(s@),
            Error::NonUnitaryGate => Failure::NonUnitaryGate,
            Error::InvalidInitialState(e) => Failure::InvalidInitialState(*e),
            Error::UnknownGate(s) => Failure::UnknownGate(s@),
            Error::AddressOutOfRange(a) => Failure::AddressOutOfRange(*a),
            Error::TargetEqualsControl => Failure::TargetEqualsControl,
            Error::UnknownSubroutine(s) => Failure::UnknownSubroutine(s@),
            Error::DuplicateSubroutine(s) => Failure::DuplicateSubroutine(s@),
            Error::UnknownVariable(v) => Failure::UnknownVariable(*v),
            Error::DuplicateVariable(v) => Failure::DuplicateVariable(*v),
            Error::MissingBinding(v) => Failure::MissingBinding(*v),
            Error::BuilderSealed => Failure::BuilderSealed,
            Error::ZeroSamples => Failure::ZeroSamples,
            Error::DeviceFailure => Failure::DeviceFailure,
        }
    }
}

impl Error {
    /// A device failure with no further detail.
    pub fn new() -> (r: Error)
        ensures
            r@ == Failure::DeviceFailure,
    {
        Error::DeviceFailure
    }
}

/// `r` is the error whose view is `f`.
pub open spec fn fails_with<T>(r: Result<T, Error>, f: Failure) -> bool {
    match r {
        Err(e) => e@ == f,
        Ok(_) => false,
    }
}

} // verus!
