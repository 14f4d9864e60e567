//! Host-owned value references and the kinds of dynamic host values.

use vstd::prelude::*;

verus! {

/// Raw host value kind for dynamic `any` arguments and returns.
#[derive(Debug, Clone, Copy, PartialEq, Eq)]
pub enum HostValueKind {
    /// Undefined dynamic value.
    Undefined,
    /// Null.
    Null,
    /// Boolean.
    Bool,
    /// Number.
    Number,
    /// UTF-8 string in guest memory.
    String,
    /// Host-owned reference.
    ExternRef,
}

/// The ABI number of a host value kind.
pub open spec fn kind_code(k: HostValueKind) -> i32 {
    match k {
        HostValueKind::Undefined => 0,
        HostValueKind::Null => 1,
        HostValueKind::Bool => 2,
        HostValueKind::Number => 3,
        HostValueKind::String => 4,
        HostValueKind::ExternRef => 5,
    }
}

impl HostValueKind {
    /// The ABI number of this kind.
    pub fn code(self) -> (c: i32)
        ensures
            c == kind_code(self),
    {
        match self {
            HostValueKind::Undefined => 0,
            HostValueKind::Null => 1,
            HostValueKind::Bool => 2,
            HostValueKind::Number => 3,
            HostValueKind::String => 4,
            HostValueKind::ExternRef => 5,
        }
    }

    /// The kind with the given ABI number, if any.
    pub fn from_code(code: i32) -> (k: Option<HostValueKind>)
        ensures
            k matches Some(kind) ==> kind_code(kind) == code,
            k is None <==> !(0 <= code <= 5),
    {
        if code == 0 {
            Some(HostValueKind::Undefined)
        } else if code == 1 {
            Some(HostValueKind::Null)
        } else if code == 2 {
            Some(HostValueKind::Bool)
        } else if code == 3 {
            Some(HostValueKind::Number)
        } else if code == 4 {
            Some(HostValueKind::String)
        } else if code == 5 {
            Some(HostValueKind::ExternRef)
        } else {
            None
        }
    }
}

/// Reading a kind back from its ABI number gives the kind.
pub proof fn lemma_kind_code_roundtrip(k: HostValueKind)
    ensures
        0 <= kind_code(k) <= 5,
        forall|j: HostValueKind| kind_code(j) == kind_code(k) ==> j == k,
{
}

/// Host-owned value reference, carried by its raw ABI number; 0 is null.
#[derive(Clone, Copy, Debug, Default, PartialEq, Eq, Hash)]
pub struct ExternRef(u32);

impl View for ExternRef {
    type V = u32;

    closed spec fn view(&self) -> u32 {
        self.0
    }
}

impl ExternRef {
    /// Creates a reference from the raw ABI carrier.
    pub fn from_raw(raw: u32) -> (r: ExternRef)
        ensures
            r@ == raw,
    {
        ExternRef(raw)
    }

    /// The null host reference.
    pub fn null() -> (r: ExternRef)
        ensures
            r@ == 0,
    {
        ExternRef(0)
    }

    /// The raw ABI carrier.
    pub fn raw(self) -> (r: u32)
        ensures
            r == self@,
    {
        self.0
    }

    /// True when this reference is null.
    pub fn is_null(self) -> (r: bool)
        ensures
            r == (self@ == 0),
    {
        self.0 == 0
    }

    /// Two references are the same host value.
    pub fn same(self, other: ExternRef) -> (r: bool)
        ensures
            r == (self@ == other@),
    {
        self.0 == other.0
    }
}

} // verus!
