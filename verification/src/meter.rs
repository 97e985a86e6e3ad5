//! What is metered, and tables of amounts by what is metered.

use vstd::prelude::*;

verus! {

/// A metered resource.
#[derive(Clone, Copy, PartialEq, Eq, PartialOrd, Ord, Hash, Debug, Structural)]
pub enum ResourceKind {
    BytesForwarded,
    Connections,
    Messages,
    ComputeSeconds,
}

/// The number that stands for a resource in an encoded object.
pub open spec fn tag_of(k: ResourceKind) -> u64 {
    match k {
        ResourceKind::BytesForwarded => 1,
        ResourceKind::Connections => 2,
        ResourceKind::Messages => 3,
        ResourceKind::ComputeSeconds => 4,
    }
}

/// The resource that a number stands for.
pub open spec fn kind_tagged(tag: u64) -> Option<ResourceKind> {
    if tag == 1 {
        Some(ResourceKind::BytesForwarded)
    } else if tag == 2 {
        Some(ResourceKind::Connections)
    } else if tag == 3 {
        Some(ResourceKind::Messages)
    } else if tag == 4 {
        Some(ResourceKind::ComputeSeconds)
    } else {
        None
    }
}

impl ResourceKind {
    /// The number that stands for the resource.
    pub fn wire_tag(self) -> (r: u64)
        ensures
            r == tag_of(self),
    {
        match self {
            ResourceKind::BytesForwarded => 1,
            ResourceKind::Connections => 2,
            ResourceKind::Messages => 3,
            ResourceKind::ComputeSeconds => 4,
        }
    }

    /// The resource that a number stands for.
    pub fn from_wire_tag(tag: u64) -> (r: Option<Self>)
        ensures
            r == kind_tagged(tag),
    {
        match tag {
            1 => Some(ResourceKind::BytesForwarded),
            2 => Some(ResourceKind::Connections),
            3 => Some(ResourceKind::Messages),
            4 => Some(ResourceKind::ComputeSeconds),
            _ => None,
        }
    }
}

/// Amounts of some of the resources.
#[derive(Clone, Copy, PartialEq, Eq, Debug)]
pub struct KindTable {
    pub bytes_forwarded: Option<u64>,
    pub connections: Option<u64>,
    pub messages: Option<u64>,
    pub compute_seconds: Option<u64>,
}

/// The pair of a resource, if a table has it.
pub open spec fn slot(k: ResourceKind, amount: Option<u64>) -> Seq<(ResourceKind, u64)> {
    match amount {
        Some(n) => seq![(k, n)],
        None => Seq::empty(),
    }
}

/// The pairs of a table, in the order of the numbers that stand for the resources.
pub open spec fn entries(t: KindTable) -> Seq<(ResourceKind, u64)> {
    slot(ResourceKind::BytesForwarded, t.bytes_forwarded) + (slot(
        ResourceKind::Connections,
        t.connections,
    ) + (slot(ResourceKind::Messages, t.messages) + slot(
        ResourceKind::ComputeSeconds,
        t.compute_seconds,
    )))
}

/// The amount of a resource.
pub open spec fn amount_of(t: KindTable, k: ResourceKind) -> Option<u64> {
    match k {
        ResourceKind::BytesForwarded => t.bytes_forwarded,
        ResourceKind::Connections => t.connections,
        ResourceKind::Messages => t.messages,
        ResourceKind::ComputeSeconds => t.compute_seconds,
    }
}

/// A table with the amount of a resource set.
pub open spec fn with_amount(t: KindTable, k: ResourceKind, n: u64) -> KindTable {
    match k {
        ResourceKind::BytesForwarded => KindTable { bytes_forwarded: Some(n), ..t },
        ResourceKind::Connections => KindTable { connections: Some(n), ..t },
        ResourceKind::Messages => KindTable { messages: Some(n), ..t },
        ResourceKind::ComputeSeconds => KindTable { compute_seconds: Some(n), ..t },
    }
}

/// A table without amounts.
pub open spec fn no_amounts() -> KindTable {
    KindTable { bytes_forwarded: None, connections: None, messages: None, compute_seconds: None }
}

impl KindTable {
    /// A table without amounts.
    pub fn new() -> (r: Self)
        ensures
            r == no_amounts(),
    {
        KindTable { bytes_forwarded: None, connections: None, messages: None, compute_seconds: None }
    }

    /// Sets the amount of a resource.
    pub fn insert(&mut self, k: ResourceKind, n: u64)
        ensures
            *final(self) == with_amount(*old(self), k, n),
    {
        match k {
            ResourceKind::BytesForwarded => self.bytes_forwarded = Some(n),
            ResourceKind::Connections => self.connections = Some(n),
            ResourceKind::Messages => self.messages = Some(n),
            ResourceKind::ComputeSeconds => self.compute_seconds = Some(n),
        }
    }

    /// The amount of a resource.
    pub fn get(&self, k: ResourceKind) -> (r: Option<u64>)
        ensures
            r == amount_of(*self, k),
    {
        match k {
            ResourceKind::BytesForwarded => self.bytes_forwarded,
            ResourceKind::Connections => self.connections,
            ResourceKind::Messages => self.messages,
            ResourceKind::ComputeSeconds => self.compute_seconds,
        }
    }

    /// The pairs, in the order of the numbers that stand for the resources.
    pub fn entries(&self) -> (r: Vec<(ResourceKind, u64)>)
        ensures
            r@ == entries(*self),
    {
        let mut out: Vec<(ResourceKind, u64)> = Vec::new();
        if let Some(n) = self.bytes_forwarded {
            out.push((ResourceKind::BytesForwarded, n));
        }
        if let Some(n) = self.connections {
            out.push((ResourceKind::Connections, n));
        }
        if let Some(n) = self.messages {
            out.push((ResourceKind::Messages, n));
        }
        if let Some(n) = self.compute_seconds {
            out.push((ResourceKind::ComputeSeconds, n));
        }
        assert(out@ =~= entries(*self));
        out
    }
}

/// A resource is the one that its number stands for.
pub proof fn law_tags_round_trip(k: ResourceKind, tag: u64)
    ensures
        kind_tagged(tag_of(k)) == Some(k),
        kind_tagged(tag) matches Some(found) ==> tag_of(found) == tag,
{
}

/// What was put into a table is there, and the other amounts stay.
pub proof fn law_insert_then_get(t: KindTable, k: ResourceKind, n: u64, other: ResourceKind)
    ensures
        amount_of(with_amount(t, k, n), other) == (if other == k {
            Some(n)
        } else {
            amount_of(t, other)
        }),
{
}

/// The pairs of a table are the resources that have an amount, in strictly ascending order.
pub proof fn law_entries_are_the_amounts(t: KindTable)
    ensures
        forall|i: int|
            0 <= i < entries(t).len() ==> amount_of(t, (#[trigger] entries(t)[i]).0) == Some(
                entries(t)[i].1,
            ),
        forall|i: int, j: int|
            0 <= i < j < entries(t).len() ==> tag_of((#[trigger] entries(t)[i]).0) < tag_of(
                (#[trigger] entries(t)[j]).0,
            ),
        forall|k: ResourceKind|
            amount_of(t, k) is Some ==> entries(t).contains((k, #[trigger] amount_of(t, k)->0)),
{
    let e = entries(t);
    let a = slot(ResourceKind::BytesForwarded, t.bytes_forwarded);
    let b = slot(ResourceKind::Connections, t.connections);
    let c = slot(ResourceKind::Messages, t.messages);
    let d = slot(ResourceKind::ComputeSeconds, t.compute_seconds);
    assert(e == a + (b + (c + d)));
    assert forall|k: ResourceKind| amount_of(t, k) is Some implies e.contains(
        (k, #[trigger] amount_of(t, k)->0),
    ) by {
        let at: int = match k {
            ResourceKind::BytesForwarded => 0,
            ResourceKind::Connections => a.len() as int,
            ResourceKind::Messages => (a.len() + b.len()) as int,
            ResourceKind::ComputeSeconds => (a.len() + b.len() + c.len()) as int,
        };
        assert(e[at] == (k, amount_of(t, k)->0));
    }
}

/// The resources and the numbers that stand for them: octets forwarded, connections, messages and
/// seconds of computing, from one to four.
pub proof fn law_numbers_of_the_resources(t: KindTable)
    ensures
        kind_tagged(1) == Some(ResourceKind::BytesForwarded),
        kind_tagged(2) == Some(ResourceKind::Connections),
        kind_tagged(3) == Some(ResourceKind::Messages),
        kind_tagged(4) == Some(ResourceKind::ComputeSeconds),
        kind_tagged(0) is None,
        forall|tag: u64| tag > 4 ==> (#[trigger] kind_tagged(tag)) is None,
        amount_of(t, ResourceKind::BytesForwarded) == t.bytes_forwarded,
        amount_of(t, ResourceKind::Connections) == t.connections,
        amount_of(t, ResourceKind::Messages) == t.messages,
        amount_of(t, ResourceKind::ComputeSeconds) == t.compute_seconds,
{
}

} // verus!
