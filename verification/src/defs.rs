//! Definition identities and kinds produced by name resolution.

use vstd::prelude::*;

use crate::names::BuiltinKind;

verus! {

/// A definition, numbered in declaration order.
#[derive(Clone, Copy, PartialEq, Eq, PartialOrd, Ord, Hash, Debug, Structural)]
pub struct DefId(pub u32);

/// Port direction.
#[derive(Clone, Copy, PartialEq, Eq, Debug, Structural)]
pub enum PortDir {
    In,
    Out,
    InOut,
    OpenDrain,
}

impl PortDir {
    /// `inout` and `opendrain` ports are bidirectional.
    pub fn is_bidirectional(&self) -> (r: bool)
        ensures
            r == (*self == PortDir::InOut || *self == PortDir::OpenDrain),
    {
        match self {
            PortDir::InOut | PortDir::OpenDrain => true,
            _ => false,
        }
    }
}

/// What a definition is.
#[derive(Clone, Copy, PartialEq, Eq, Debug, Structural)]
pub enum DefKind {
    Module,
    Domain,
    Function,
    Struct,
    Enum,
    /// An enum variant; `parent` is the enum's definition index.
    EnumVariant { parent: u32 },
    Const,
    TypeAlias,
    ExternModule,
    Port { dir: PortDir },
    Register,
    Wire,
    Instance,
    LocalBinding,
    LoopVar,
    PatternBinding,
    GenericParam,
    /// An undefined `@Name` inside an `extern module`: a symbolic domain.
    DomainParam,
    Builtin(BuiltinKind),
    /// A name brought in by `use`.
    Import,
    /// Error recovery — compatible with every use.
    Error,
}

} // verus!
