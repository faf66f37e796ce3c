//! Positions within a shard.

use vstd::prelude::*;

verus! {

/// How far a shard has been read or published: not at all, up to a record, or to its end.
#[derive(Clone, Copy, Debug, PartialEq, Eq, Structural)]
pub enum Position {
    Beginning,
    /// Up to and with the record at this offset.
    Offset(u64),
    /// To the end of the shard, whose last record, if it has any, is at this offset.
    Eof(Option<u64>),
}

impl Position {
    /// The offset of the last record, if there is one.
    pub open spec fn offset(self) -> Option<u64> {
        match self {
            Position::Beginning => None,
            Position::Offset(offset) => Some(offset),
            Position::Eof(offset) => offset,
        }
    }

    /// The position of the end of a shard that was read up to here.
    pub open spec fn at_eof(self) -> Position {
        Position::Eof(self.offset())
    }

    /// The offset of the next record.
    pub open spec fn next_offset(self) -> int {
        match self.offset() {
            Some(offset) => offset + 1,
            None => 0,
        }
    }

    /// The position before the record at an offset.
    pub open spec fn before(offset: u64) -> Position {
        if offset == 0 {
            Position::Beginning
        } else {
            Position::Offset((offset - 1) as u64)
        }
    }

    /// Whether a position is at or behind another: the end of a shard is behind all of its records,
    /// and they are behind its beginning.
    pub open spec fn reaches(self, other: Position) -> bool {
        match (self, other) {
            (_, Position::Beginning) => true,
            (Position::Beginning, _) => false,
            (Position::Offset(a), Position::Offset(b)) => a >= b,
            (Position::Offset(_), Position::Eof(_)) => false,
            (Position::Eof(_), Position::Offset(_)) => true,
            (Position::Eof(_), Position::Eof(None)) => true,
            (Position::Eof(None), Position::Eof(Some(_))) => false,
            (Position::Eof(Some(a)), Position::Eof(Some(b))) => a >= b,
        }
    }

    pub fn as_u64(&self) -> (offset: Option<u64>)
        ensures
            offset == self.offset(),
    {
        match self {
            Position::Beginning => None,
            Position::Offset(offset) => Some(*offset),
            Position::Eof(offset) => *offset,
        }
    }

    pub fn as_eof(&self) -> (eof: Position)
        ensures
            eof == self.at_eof(),
    {
        Position::Eof(self.as_u64())
    }

    pub fn is_eof(&self) -> (is: bool)
        ensures
            is == (self is Eof),
    {
        matches!(self, Position::Eof(_))
    }

    /// The position before the record at an offset.
    pub fn before_offset(offset: u64) -> (position: Position)
        ensures
            position == Position::before(offset),
    {
        if offset == 0 {
            Position::Beginning
        } else {
            Position::Offset(offset - 1)
        }
    }

    /// Whether a position is at or behind another.
    pub fn is_at_least(&self, other: &Position) -> (reaches: bool)
        ensures
            reaches == self.reaches(*other),
    {
        match (self, other) {
            (_, Position::Beginning) => true,
            (Position::Beginning, _) => false,
            (Position::Offset(a), Position::Offset(b)) => *a >= *b,
            (Position::Offset(_), Position::Eof(_)) => false,
            (Position::Eof(_), Position::Offset(_)) => true,
            (Position::Eof(_), Position::Eof(None)) => true,
            (Position::Eof(None), Position::Eof(Some(_))) => false,
            (Position::Eof(Some(a)), Position::Eof(Some(b))) => *a >= *b,
        }
    }
}

/// Up to where a shard is published, as the metastore knows it.
#[derive(Clone, Copy, Debug, PartialEq, Eq, Structural)]
pub enum PublishPosition {
    /// Up to this position.
    At(Position),
    /// Up to an offset that is no number: which records of a log that takes in is not known.
    NotANumber,
}

/// Positions are in a total order.
pub proof fn positions_are_ordered(a: Position, b: Position, c: Position)
    ensures
        a.reaches(a),
        a.reaches(b) || b.reaches(a),
        a.reaches(b) && b.reaches(a) ==> a == b,
        a.reaches(b) && b.reaches(c) ==> a.reaches(c),
{
}

/// A position tells the offset it was given, and so does the end of a shard. The beginning tells none.
pub proof fn positions_tell_their_offset(offset: u64, end: Option<u64>)
    ensures
        Position::Offset(offset).offset() == Some(offset),
        Position::Eof(end).offset() == end,
        Position::Beginning.offset() is None,
{
}

/// The end of a shard that was read up to a position is an end, at the same offset.
pub proof fn ends_keep_the_offset(position: Position)
    ensures
        position.at_eof() is Eof,
        position.at_eof().offset() == position.offset(),
        position is Eof ==> position.at_eof() == position,
{
}

/// The next record is the one behind the offset of a position, and the first one where there is none.
/// The position before a record is the one whose next record it is, and never an end.
pub proof fn next_records_follow_positions(position: Position, offset: u64)
    ensures
        position.offset() is None ==> position.next_offset() == 0,
        position.offset() matches Some(last) ==> position.next_offset() - 1 == last,
        Position::before(offset).next_offset() == offset,
        !(Position::before(offset) is Eof),
{
}

/// Offsets are ordered as numbers. They are behind the beginning and before every end; ends are
/// ordered by their offset, and one without an offset is the first of them.
pub proof fn positions_are_ordered_by_offset(a: u64, b: u64, position: Position, end: Option<u64>)
    ensures
        Position::Offset(a).reaches(Position::Offset(b)) <==> b <= a,
        position.reaches(Position::Beginning),
        Position::Beginning.reaches(position) ==> position is Beginning,
        Position::Eof(end).reaches(Position::Offset(a)),
        !Position::Offset(a).reaches(Position::Eof(end)),
        Position::Eof(Some(a)).reaches(Position::Eof(Some(b))) <==> b <= a,
        Position::Eof(end).reaches(Position::Eof(None)),
        !Position::Eof(None).reaches(Position::Eof(Some(a))),
{
}

} // verus!
