//! Subnet pool management: allocation of address blocks carved out of one
//! fixed address space, tracking which blocks are in use and by what name.
//!
//! The pool is a binary space-partitioning tree over a fixed root block,
//! with lazy splitting, lazy merging on release, name-uniqueness enforcement
//! and incrementally maintained aggregate statistics.

use vstd::prelude::*;

pub mod errors;
pub mod format_str;
pub mod listing;
pub mod param_str;
pub mod pool;
pub mod snapshot;
mod subspace;
pub mod text;
pub mod util;

use crate::errors::{AllocateError, CreateError, DeleteError, RenameError};

verus! {

pub type CreateResult<T> = Result<T, CreateError>;

pub type DeleteResult<T> = Result<T, DeleteError>;

pub type AllocateResult<T> = Result<T, AllocateError>;

pub type RenameResult<T> = Result<T, RenameError>;

/// Block sizes are measured in host bits: the number of address bits below
/// the prefix. A block of `b` host bits covers `pow2(b)` addresses.
pub type Bits = u8;

/// The address family a block belongs to. Each family has a fixed total
/// address width.
#[derive(Clone, Copy, Debug, PartialEq, Eq, Structural)]
pub enum Family {
    V4,
    V6,
}

impl Family {
    /// Total address width of this family, in bits.
    pub open spec fn spec_width(self) -> Bits {
        match self {
            Family::V4 => 32,
            Family::V6 => 128,
        }
    }

    /// Total address width of this family, in bits.
    #[verifier::when_used_as_spec(spec_width)]
    pub fn width(self) -> (r: Bits)
        ensures
            r == self.spec_width(),
    {
        match self {
            Family::V4 => 32,
            Family::V6 => 128,
        }
    }
}

/// An address block: a power-of-two-aligned address range, expressed as a
/// base address plus prefix length within one address family.
///
/// IPv4 addresses occupy the low 32 bits of `address`.
#[derive(Clone, Copy, Debug, PartialEq, Eq, Structural)]
pub struct Cidr {
    pub family: Family,
    pub address: u128,
    pub network_length: Bits,
}

impl Cidr {
    /// Well-formedness: the prefix length fits the family width, the address
    /// fits the family width, and the host part of the address is zero
    /// (the address is the first address of the block).
    pub open spec fn wf(self) -> bool {
        &&& self.network_length <= self.family.spec_width()
        &&& (self.address as int) < vstd::arithmetic::power2::pow2(
            self.family.spec_width() as nat,
        )
        &&& (self.address as int) % (vstd::arithmetic::power2::pow2(self.spec_host_length())
            as int) == 0
    }

    /// Remaining host bits below the prefix; determines the block size.
    pub open spec fn spec_host_length(self) -> nat {
        (self.family.spec_width() - self.network_length) as nat
    }

    /// First address covered by this block, as a mathematical integer.
    pub open spec fn start(self) -> int {
        self.address as int
    }

    /// Number of addresses covered by this block.
    pub open spec fn size(self) -> int {
        vstd::arithmetic::power2::pow2(self.spec_host_length()) as int
    }

    /// One past the last address covered by this block.
    pub open spec fn end(self) -> int {
        self.start() + self.size()
    }

    /// Whether `self` wholly contains `inner`: both endpoints of `inner`
    /// fall within `self`'s range, in the same address family.
    pub open spec fn spec_contains(self, inner: Cidr) -> bool {
        &&& self.family == inner.family
        &&& self.start() <= inner.start()
        &&& inner.end() <= self.end()
    }

    /// Whether `self` and `other` cover no common address.
    pub open spec fn disjoint(self, other: Cidr) -> bool {
        ||| self.family != other.family
        ||| self.end() <= other.start()
        ||| other.end() <= self.start()
    }
}

/// The characters of an optional borrowed name.
pub open spec fn opt_name(name: Option<&str>) -> Option<Seq<char>> {
    match name {
        Some(s) => Some(s@),
        None => None,
    }
}

/// The name attached to a record, seen as a sequence of characters.
pub open spec fn name_view(name: Option<String>) -> Option<Seq<char>> {
    match name {
        Some(n) => Some(n@),
        None => None,
    }
}

/// An allocated block paired with an optional display name: the externally
/// visible unit returned by enumeration and persisted to storage.
#[derive(Clone, Debug)]
pub struct CidrRecord {
    pub cidr: Cidr,
    pub name: Option<String>,
}

impl CidrRecord {
    /// The record's content: its block and the characters of its name.
    pub open spec fn view_pair(self) -> (Cidr, Option<Seq<char>>) {
        (self.cidr, name_view(self.name))
    }

    pub fn new(cidr: Cidr, name: Option<&str>) -> (r: CidrRecord)
        ensures
            r.cidr == cidr,
            name_view(r.name) == match name {
                Some(n) => Some(n@),
                None => None::<Seq<char>>,
            },
    {
        CidrRecord {
            cidr,
            name: match name {
                Some(n) => Some(n.to_owned()),
                None => None,
            },
        }
    }
}

impl CidrRecord {
    /// A copy of this record, with the same block and the same name.
    pub fn clone_record(&self) -> (r: CidrRecord)
        ensures
            r.view_pair() == self.view_pair(),
    {
        CidrRecord {
            cidr: self.cidr,
            name: match &self.name {
                Some(s) => Some(s.clone()),
                None => None,
            },
        }
    }
}

impl PartialEq for CidrRecord {
    /// Two records are equal when their blocks and their names agree.
    fn eq(&self, other: &CidrRecord) -> (r: bool) {
        self.cidr == other.cidr && match (&self.name, &other.name) {
            (Some(a), Some(b)) => *a == *b,
            (None, None) => true,
            _ => false,
        }
    }
}

impl vstd::std_specs::cmp::PartialEqSpecImpl for CidrRecord {
    open spec fn obeys_eq_spec() -> bool {
        true
    }

    open spec fn eq_spec(&self, other: &CidrRecord) -> bool {
        self.view_pair() == other.view_pair()
    }
}

} // verus!
