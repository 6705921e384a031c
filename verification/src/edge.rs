//! Edge records, directions and the temporal filter.

use vstd::prelude::*;

verus! {

/// The side of a node on which an adjacency list hangs.
#[derive(Clone, Copy, Debug, PartialEq, Eq, Structural)]
pub enum Direction {
    Outgoing,
    Incoming,
}

impl Direction {
    /// The opposite direction.
    pub open spec fn spec_flip(self) -> Direction {
        match self {
            Direction::Outgoing => Direction::Incoming,
            Direction::Incoming => Direction::Outgoing,
        }
    }

    /// The opposite direction.
    pub fn flip(self) -> (r: Direction)
        ensures
            r == self.spec_flip(),
    {
        match self {
            Direction::Outgoing => Direction::Incoming,
            Direction::Incoming => Direction::Outgoing,
        }
    }
}

/// One entry of an adjacency list: an edge as seen from one of its ends.
///
/// `valid_from` and `valid_to` bound the half-open validity interval in
/// microseconds; an absent bound is unbounded on that side.
#[derive(Clone, Copy, Debug)]
pub struct EdgeRecord {
    pub peer: u32,
    pub type_id: u8,
    pub valid_from: Option<i64>,
    pub valid_to: Option<i64>,
    pub deleted: bool,
}

/// Whether the interval `[valid_from, valid_to)` holds the query timestamp.
/// An absent timestamp asks for what is currently live, and no interval
/// excludes it.
pub open spec fn interval_covers(
    valid_from: Option<i64>,
    valid_to: Option<i64>,
    as_of: Option<i64>,
) -> bool {
    match as_of {
        None => true,
        Some(ts) => {
            &&& (valid_from matches Some(from) ==> from <= ts)
            &&& (valid_to matches Some(to) ==> ts < to)
        },
    }
}

/// Whether `a`, as a query timestamp, is no later than `b`; an absent
/// timestamp is later than every other.
pub open spec fn as_of_le(a: Option<i64>, b: Option<i64>) -> bool {
    match (a, b) {
        (_, None) => true,
        (None, Some(_)) => false,
        (Some(x), Some(y)) => x <= y,
    }
}

impl EdgeRecord {
    /// The same edge as its other end sees it, where `owner` is the node whose
    /// list holds `self`.
    pub open spec fn mirror(self, owner: int) -> EdgeRecord {
        EdgeRecord { peer: owner as u32, ..self }
    }

    /// The same record with its tombstone set.
    pub open spec fn tombstoned(self) -> EdgeRecord {
        EdgeRecord { deleted: true, ..self }
    }

    /// The temporal filter alone.
    pub open spec fn covers(self, as_of: Option<i64>) -> bool {
        interval_covers(self.valid_from, self.valid_to, as_of)
    }

    /// Not tombstoned, and admitted by the temporal filter.
    pub open spec fn visible(self, as_of: Option<i64>) -> bool {
        !self.deleted && self.covers(as_of)
    }

    /// Whether the record has the wanted type; an absent type admits all.
    pub open spec fn has_type(self, ty: Option<u8>) -> bool {
        ty matches Some(t) ==> self.type_id == t
    }

    /// A live record from `peer`'s other end.
    pub fn new(peer: u32, type_id: u8, valid_from: Option<i64>, valid_to: Option<i64>) -> (r: Self)
        ensures
            r == (EdgeRecord { peer, type_id, valid_from, valid_to, deleted: false }),
    {
        EdgeRecord { peer, type_id, valid_from, valid_to, deleted: false }
    }

    /// The temporal filter alone.
    pub fn is_covering(&self, as_of: Option<i64>) -> (r: bool)
        ensures
            r == self.covers(as_of),
    {
        match as_of {
            None => true,
            Some(ts) => {
                let from_ok = match self.valid_from {
                    Some(from) => from <= ts,
                    None => true,
                };
                let to_ok = match self.valid_to {
                    Some(to) => ts < to,
                    None => true,
                };
                from_ok && to_ok
            },
        }
    }

    /// Not tombstoned, and admitted by the temporal filter.
    pub fn is_visible(&self, as_of: Option<i64>) -> (r: bool)
        ensures
            r == self.visible(as_of),
    {
        !self.deleted && self.is_covering(as_of)
    }

    /// Whether the record has the wanted type; an absent type admits all.
    pub fn is_of_type(&self, ty: Option<u8>) -> (r: bool)
        ensures
            r == self.has_type(ty),
    {
        match ty {
            Some(t) => self.type_id == t,
            None => true,
        }
    }

    /// Field-by-field equality.
    pub fn same(&self, other: &EdgeRecord) -> (r: bool)
        ensures
            r == (*self == *other),
    {
        let from_eq = match (self.valid_from, other.valid_from) {
            (Some(a), Some(b)) => a == b,
            (None, None) => true,
            _ => false,
        };
        let to_eq = match (self.valid_to, other.valid_to) {
            (Some(a), Some(b)) => a == b,
            (None, None) => true,
            _ => false,
        };
        self.peer == other.peer && self.type_id == other.type_id && from_eq && to_eq
            && self.deleted == other.deleted
    }
}

/// If nothing ends an edge, a later query still sees it.
pub proof fn lemma_visible_later(r: EdgeRecord, a: Option<i64>, b: Option<i64>)
    requires
        as_of_le(a, b),
        r.visible(a),
        r.valid_to is None,
    ensures
        r.visible(b),
{
}

} // verus!
