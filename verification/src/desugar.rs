//! Default expansion: from a parsed [`Primitive`], with `proto` or `dir` possibly missing, to an
//! [`ExpandedExpr`] with concrete protocols and directions.
//!
//! - No `proto`: `host` and `net` default to `ip or arp or rarp` for an IPv4 address and to `ip6`
//!   for an IPv6 one; `port` and `portrange` default to `tcp or udp or sctp`.
//! - No `dir`: defaults to `src or dst`.
//!
//! `Not`, `And` and `Or` nodes pass through unchanged.

use crate::ast::{AddrLit, DirTag, Expr, PrimType, Primitive, ProtoTag};
use crate::error::{copy_offset, Offset};
use vstd::prelude::*;

verus! {

/// The full protocol set.
#[derive(Debug, Clone, Copy, PartialEq, Eq, Structural)]
pub enum CompiledProto {
    Ip,
    Ip6,
    Arp,
    Rarp,
    Tcp,
    Udp,
    Icmp,
    Sctp,
}

/// A primitive with protocol and direction resolved.
#[derive(Debug)]
pub struct CompiledPrimitive {
    pub proto: CompiledProto,
    pub dir: DirTag,
    pub ty: PrimType,
    pub offset: Offset,
}

/// A boolean expression over resolved primitives.
#[derive(Debug)]
pub enum ExpandedExpr {
    Leaf(CompiledPrimitive),
    Not(Box<ExpandedExpr>),
    And(Box<ExpandedExpr>, Box<ExpandedExpr>),
    Or(Box<ExpandedExpr>, Box<ExpandedExpr>),
}

/// The protocol that a keyword names.
pub open spec fn proto_of(tag: ProtoTag) -> CompiledProto {
    match tag {
        ProtoTag::Ip => CompiledProto::Ip,
        ProtoTag::Ip6 => CompiledProto::Ip6,
        ProtoTag::Arp => CompiledProto::Arp,
        ProtoTag::Tcp => CompiledProto::Tcp,
        ProtoTag::Udp => CompiledProto::Udp,
        ProtoTag::Icmp => CompiledProto::Icmp,
    }
}

/// The protocols that a primitive stands for when it names none.
pub open spec fn default_protos(ty: PrimType) -> Seq<CompiledProto> {
    match ty {
        PrimType::Host(AddrLit::V4(_)) | PrimType::Net(AddrLit::V4(_), _) => seq![
            CompiledProto::Ip,
            CompiledProto::Arp,
            CompiledProto::Rarp,
        ],
        PrimType::Host(AddrLit::V6(_)) | PrimType::Net(AddrLit::V6(_), _) => seq![
            CompiledProto::Ip6,
        ],
        PrimType::Port(_) | PrimType::PortRange(_, _) => seq![
            CompiledProto::Tcp,
            CompiledProto::Udp,
            CompiledProto::Sctp,
        ],
    }
}

/// The protocols of a primitive: the one it names, or the defaults.
pub open spec fn protos_of(p: Primitive) -> Seq<CompiledProto> {
    match p.proto {
        Some(tag) => seq![proto_of(tag)],
        None => default_protos(p.ty),
    }
}

/// The directions of a primitive: the one it names, or both.
pub open spec fn dirs_of(p: Primitive) -> Seq<DirTag> {
    match p.dir {
        Some(dir) => seq![dir],
        None => seq![DirTag::Src, DirTag::Dst],
    }
}

/// The primitive `p` with protocol `proto` and direction `dir`.
pub open spec fn leaf(p: Primitive, proto: CompiledProto, dir: DirTag) -> ExpandedExpr {
    ExpandedExpr::Leaf(CompiledPrimitive { proto, dir, ty: p.ty, offset: p.offset })
}

/// The primitive `p` with protocol `proto` and each of its directions.
pub open spec fn leaves_of_proto(p: Primitive, proto: CompiledProto) -> Seq<ExpandedExpr> {
    dirs_of(p).map_values(|dir: DirTag| leaf(p, proto, dir))
}

/// The primitive `p` with each of its first `n` protocols and, for each of them, each direction.
pub open spec fn leaves_upto(p: Primitive, n: nat) -> Seq<ExpandedExpr>
    decreases n,
{
    if n == 0 {
        seq![]
    } else {
        leaves_upto(p, (n - 1) as nat) + leaves_of_proto(p, protos_of(p)[n - 1])
    }
}

/// The disjunction of a non-empty sequence, nested to the left.
pub open spec fn any_of(leaves: Seq<ExpandedExpr>) -> ExpandedExpr
    recommends
        leaves.len() > 0,
    decreases leaves.len(),
{
    if leaves.len() <= 1 {
        leaves[0]
    } else {
        ExpandedExpr::Or(Box::new(any_of(leaves.drop_last())), Box::new(leaves.last()))
    }
}

/// What an expression stands for once every default is written out.
pub open spec fn expanded(expr: Expr) -> ExpandedExpr
    decreases expr,
{
    match expr {
        Expr::Primitive(p) => any_of(leaves_upto(p, protos_of(p).len())),
        Expr::Not(inner, _) => ExpandedExpr::Not(Box::new(expanded(*inner))),
        Expr::And(l, r, _) => ExpandedExpr::And(Box::new(expanded(*l)), Box::new(expanded(*r))),
        Expr::Or(l, r, _) => ExpandedExpr::Or(Box::new(expanded(*l)), Box::new(expanded(*r))),
    }
}

impl From<ProtoTag> for CompiledProto {
    fn from(p: ProtoTag) -> (proto: CompiledProto) {
        match p {
            ProtoTag::Ip => CompiledProto::Ip,
            ProtoTag::Ip6 => CompiledProto::Ip6,
            ProtoTag::Arp => CompiledProto::Arp,
            ProtoTag::Tcp => CompiledProto::Tcp,
            ProtoTag::Udp => CompiledProto::Udp,
            ProtoTag::Icmp => CompiledProto::Icmp,
        }
    }
}

impl vstd::std_specs::convert::FromSpecImpl<ProtoTag> for CompiledProto {
    open spec fn obeys_from_spec() -> bool {
        true
    }

    open spec fn from_spec(p: ProtoTag) -> CompiledProto {
        proto_of(p)
    }
}

/// Writes out the defaults of every primitive in `expr`.
pub fn expand(expr: &Expr) -> (result: ExpandedExpr)
    ensures
        result == expanded(*expr),
    decreases expr,
{
    match expr {
        Expr::Primitive(p) => expand_primitive(p),
        Expr::Not(inner, _) => ExpandedExpr::Not(Box::new(expand(inner))),
        Expr::And(l, r, _) => ExpandedExpr::And(Box::new(expand(l)), Box::new(expand(r))),
        Expr::Or(l, r, _) => ExpandedExpr::Or(Box::new(expand(l)), Box::new(expand(r))),
    }
}

/// Writes out the defaults of one primitive.
pub fn expand_primitive(p: &Primitive) -> (result: ExpandedExpr)
    ensures
        result == any_of(leaves_upto(*p, protos_of(*p).len())),
{
    let protos: Vec<CompiledProto> = match p.proto {
        Some(tag) => vec![CompiledProto::from(tag)],
        None => match p.ty {
            PrimType::Host(AddrLit::V4(_)) | PrimType::Net(AddrLit::V4(_), _) => vec![
                CompiledProto::Ip,
                CompiledProto::Arp,
                CompiledProto::Rarp,
            ],
            PrimType::Host(AddrLit::V6(_)) | PrimType::Net(AddrLit::V6(_), _) => vec![
                CompiledProto::Ip6,
            ],
            PrimType::Port(_) | PrimType::PortRange(_, _) => vec![
                CompiledProto::Tcp,
                CompiledProto::Udp,
                CompiledProto::Sctp,
            ],
        },
    };
    let dirs: Vec<DirTag> = match p.dir {
        Some(dir) => vec![dir],
        None => vec![DirTag::Src, DirTag::Dst],
    };

    let mut leaves: Vec<ExpandedExpr> = Vec::new();
    let mut i: usize = 0;
    while i < protos.len()
        invariant
            i <= protos@.len(),
            protos@ == protos_of(*p),
            dirs@ == dirs_of(*p),
            leaves@ == leaves_upto(*p, i as nat),
        decreases protos@.len() - i,
    {
        let ghost earlier = leaves@;
        let mut j: usize = 0;
        while j < dirs.len()
            invariant
                j <= dirs@.len(),
                i < protos@.len(),
                dirs@ == dirs_of(*p),
                leaves@ == earlier + leaves_of_proto(*p, protos@[i as int]).take(j as int),
            decreases dirs@.len() - j,
        {
            leaves.push(
                ExpandedExpr::Leaf(
                    CompiledPrimitive {
                        proto: protos[i],
                        dir: dirs[j],
                        ty: p.ty,
                        offset: copy_offset(&p.offset),
                    },
                ),
            );
            j = j + 1;
        }
        i = i + 1;
    }
    proof {
        lemma_some_leaf(*p, protos_of(*p).len());
    }
    or_reduce(leaves)
}

/// Folds the leaves into a disjunction, nested to the left.
pub fn or_reduce(leaves: Vec<ExpandedExpr>) -> (result: ExpandedExpr)
    requires
        leaves@.len() > 0,
    ensures
        result == any_of(leaves@),
    decreases leaves@.len(),
{
    let mut rest: Vec<ExpandedExpr> = leaves;
    let last: ExpandedExpr = rest.pop().unwrap();
    if rest.len() == 0 {
        last
    } else {
        ExpandedExpr::Or(Box::new(or_reduce(rest)), Box::new(last))
    }
}

/// Every primitive has at least one protocol and one direction.
proof fn lemma_some_leaf(p: Primitive, n: nat)
    requires
        0 < n <= protos_of(p).len(),
    ensures
        leaves_upto(p, n).len() > 0,
{
}

} // verus!
