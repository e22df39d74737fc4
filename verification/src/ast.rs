//! The parsed syntax tree of a filter expression.
//!
//! Every node carries an [`Offset`] back into the source text.

use crate::error::Offset;
use vstd::prelude::*;

verus! {

/// A boolean expression over [`Primitive`]s.
#[derive(Debug, PartialEq, Eq)]
pub enum Expr {
    Primitive(Primitive),
    Not(Box<Expr>, Offset),
    And(Box<Expr>, Box<Expr>, Offset),
    Or(Box<Expr>, Box<Expr>, Offset),
}

/// One `[proto] [dir] type value` primitive as written. `proto` and `dir` are `None` exactly when
/// the user left them out.
#[derive(Debug, PartialEq, Eq)]
pub struct Primitive {
    pub proto: Option<ProtoTag>,
    pub dir: Option<DirTag>,
    pub ty: PrimType,
    pub offset: Offset,
}

/// A protocol keyword that a user can type.
///
/// `rarp` and `sctp` are missing on purpose: they are reached by default expansion only.
#[derive(Debug, Clone, Copy, PartialEq, Eq, Structural)]
pub enum ProtoTag {
    Ip,
    Ip6,
    Arp,
    Tcp,
    Udp,
    Icmp,
}

/// A direction keyword.
#[derive(Debug, Clone, Copy, PartialEq, Eq, Structural)]
pub enum DirTag {
    Src,
    Dst,
}

/// What a primitive matches on.
#[derive(Debug, Clone, Copy, PartialEq, Eq, Structural)]
pub enum PrimType {
    Host(AddrLit),
    /// The prefix length is `None` when no `/n` was written.
    Net(AddrLit, Option<u8>),
    Port(u16),
    PortRange(u16, u16),
}

/// An address literal.
#[derive(Debug, Clone, Copy, PartialEq, Eq, Structural)]
pub enum AddrLit {
    V4(u32),
    V6(u128),
}

impl PrimType {
    /// Whether the prefix length, if there is one, is at most the address's length.
    pub open spec fn prefix_fits(self) -> bool {
        match self {
            PrimType::Net(AddrLit::V4(_), Some(n)) => n <= 32,
            PrimType::Net(AddrLit::V6(_), Some(n)) => n <= 128,
            _ => true,
        }
    }

    /// Whether the lower bound, if there are bounds, is at most the upper one.
    pub open spec fn bounds_ordered(self) -> bool {
        match self {
            PrimType::PortRange(lo, hi) => lo <= hi,
            _ => true,
        }
    }
}

impl Expr {
    /// Whether every prefix length is at most its address's length, and every port range's lower
    /// bound at most its upper one.
    pub open spec fn valid(self) -> bool
        decreases self,
    {
        match self {
            Expr::Primitive(p) => p.ty.prefix_fits() && p.ty.bounds_ordered(),
            Expr::Not(inner, _) => inner.valid(),
            Expr::And(l, r, _) | Expr::Or(l, r, _) => l.valid() && r.valid(),
        }
    }
}

} // verus!
