//! Symbols, similarity metrics and the scores they produce.

use std::cmp::Ordering;
use vstd::prelude::*;

verus! {

/// A similarity metric that compares two symbols.
#[derive(Clone, Copy, Debug, PartialEq, Eq, Structural, Hash)]
pub enum SequenceMatchFunction {
    StrictEqual,
    AlgebraicDistance,
    SequenceLength,
}

/// One symbol of a trained or queried sequence.
///
/// Symbols are totally ordered: every `Integer` precedes every `U8`, and two
/// symbols of the same variant are ordered by their payload.
#[derive(Clone, Copy, Debug, PartialEq, Eq, Structural, Hash, PartialOrd, Ord)]
pub enum DataTypes {
    Integer(usize),
    U8(u8),
}

/// A score of either kind that a path can be ranked by.
#[derive(Clone, Copy, Debug, PartialEq, Eq)]
pub enum Scores {
    SimilarityScores(SimilarityScores),
    SequenceLength(usize),
}

/// The result of comparing two symbols under one metric.
///
/// `Distance` is a cost (smaller is better); `Similarity`, `Length` and
/// `IsEqual` are rewards (larger is better, `true` above `false`).
#[derive(Clone, Copy, Debug, PartialEq, Eq, Structural)]
pub enum SimilarityScores {
    Similarity(u128),
    Distance(u128),
    Length(usize),
    IsEqual(bool),
    NoScore,
}

/// Misuse of scores or metrics.
#[derive(Clone, Copy, Debug, PartialEq, Eq, Structural)]
pub enum ScoreError {
    /// Two scores of different kinds, a `NoScore`, or a metric that
    /// cannot be computed between the two symbols given.
    Incomparable,
    /// A sum of scores does not fit in the score's payload.
    Overflow,
}

/// A label that may be attached to a trained sequence.
#[derive(Clone, Debug, PartialEq, Eq)]
pub enum SequenceAttributes {
    ClassStr(String),
}

impl DataTypes {
    /// 0 for `Integer`, 1 for `U8`: the major key of the symbol order.
    pub open spec fn tag(self) -> int {
        match self {
            DataTypes::Integer(_) => 0,
            DataTypes::U8(_) => 1,
        }
    }

    /// The payload as a mathematical integer: the minor key of the symbol order.
    pub open spec fn value(self) -> int {
        match self {
            DataTypes::Integer(x) => x as int,
            DataTypes::U8(x) => x as int,
        }
    }

    /// Strict symbol order.
    pub open spec fn precedes(self, other: DataTypes) -> bool {
        self.tag() < other.tag() || (self.tag() == other.tag() && self.value() < other.value())
    }

    pub open spec fn is_integer(self) -> bool {
        self matches DataTypes::Integer(_)
    }

    /// Compares two symbols by the symbol order.
    pub fn ordering(self, other: DataTypes) -> (r: Ordering)
        ensures
            r == order_of(self, other),
    {
        match (self, other) {
            (DataTypes::Integer(a), DataTypes::Integer(b)) => {
                if a < b {
                    Ordering::Less
                } else if a == b {
                    Ordering::Equal
                } else {
                    Ordering::Greater
                }
            },
            (DataTypes::U8(a), DataTypes::U8(b)) => {
                if a < b {
                    Ordering::Less
                } else if a == b {
                    Ordering::Equal
                } else {
                    Ordering::Greater
                }
            },
            (DataTypes::Integer(_), DataTypes::U8(_)) => Ordering::Less,
            (DataTypes::U8(_), DataTypes::Integer(_)) => Ordering::Greater,
        }
    }

    /// Scores `self` (a stored symbol) against `other` (a queried symbol)
    /// under `match_function`: `StrictEqual` tells whether they are equal,
    /// `SequenceLength` counts one step, `AlgebraicDistance` is the absolute
    /// difference of their payloads.
    ///
    /// A distance is only defined between two `Integer` symbols; any other
    /// pair is refused with `Incomparable`.
    pub fn compute_similarity(self, match_function: SequenceMatchFunction, other: Self) -> (r:
        Result<SimilarityScores, ScoreError>)
        ensures
            r == (if comparable(match_function, self, other) {
                Ok::<SimilarityScores, ScoreError>(similarity(match_function, self, other))
            } else {
                Err(ScoreError::Incomparable)
            }),
    {
        match match_function {
            SequenceMatchFunction::StrictEqual => Ok(SimilarityScores::IsEqual(self == other)),
            SequenceMatchFunction::SequenceLength => Ok(SimilarityScores::Length(1)),
            SequenceMatchFunction::AlgebraicDistance => match (self, other) {
                (DataTypes::Integer(a), DataTypes::Integer(b)) => {
                    if a > b {
                        Ok(SimilarityScores::Distance((a - b) as u128))
                    } else {
                        Ok(SimilarityScores::Distance((b - a) as u128))
                    }
                },
                _ => Err(ScoreError::Incomparable),
            },
        }
    }
}

impl SimilarityScores {
    /// Whether `self` and `other` are scores of the same kind (and not `NoScore`).
    pub open spec fn same_kind(self, other: SimilarityScores) -> bool {
        match (self, other) {
            (SimilarityScores::Similarity(_), SimilarityScores::Similarity(_)) => true,
            (SimilarityScores::Distance(_), SimilarityScores::Distance(_)) => true,
            (SimilarityScores::Length(_), SimilarityScores::Length(_)) => true,
            (SimilarityScores::IsEqual(_), SimilarityScores::IsEqual(_)) => true,
            _ => false,
        }
    }

    /// How good a score is: larger is better. A distance counts negatively.
    pub open spec fn merit(self) -> int {
        match self {
            SimilarityScores::Similarity(x) => x as int,
            SimilarityScores::Distance(x) => -(x as int),
            SimilarityScores::Length(x) => x as int,
            SimilarityScores::IsEqual(b) => if b { 1 } else { 0 },
            SimilarityScores::NoScore => 0,
        }
    }

    /// The sum of two scores of one kind: numbers add, equality flags combine by `&&`.
    pub open spec fn sum_spec(self, other: SimilarityScores) -> Result<SimilarityScores, ScoreError> {
        match (self, other) {
            (SimilarityScores::Similarity(x), SimilarityScores::Similarity(y)) =>
                if x + y <= u128::MAX {
                    Ok(SimilarityScores::Similarity((x + y) as u128))
                } else {
                    Err(ScoreError::Overflow)
                },
            (SimilarityScores::Distance(x), SimilarityScores::Distance(y)) =>
                if x + y <= u128::MAX {
                    Ok(SimilarityScores::Distance((x + y) as u128))
                } else {
                    Err(ScoreError::Overflow)
                },
            (SimilarityScores::Length(x), SimilarityScores::Length(y)) =>
                if x + y <= usize::MAX {
                    Ok(SimilarityScores::Length((x + y) as usize))
                } else {
                    Err(ScoreError::Overflow)
                },
            (SimilarityScores::IsEqual(x), SimilarityScores::IsEqual(y)) =>
                Ok(SimilarityScores::IsEqual(x && y)),
            _ => Err(ScoreError::Incomparable),
        }
    }

    /// The neutral element of this score's kind.
    pub open spec fn zero_spec(self) -> Result<SimilarityScores, ScoreError> {
        match self {
            SimilarityScores::Similarity(_) => Ok(SimilarityScores::Similarity(0)),
            SimilarityScores::Distance(_) => Ok(SimilarityScores::Distance(0)),
            SimilarityScores::Length(_) => Ok(SimilarityScores::Length(0)),
            SimilarityScores::IsEqual(_) => Ok(SimilarityScores::IsEqual(true)),
            SimilarityScores::NoScore => Err(ScoreError::Incomparable),
        }
    }

    /// The neutral element of this score's kind.
    pub fn get_zero(self) -> (r: Result<SimilarityScores, ScoreError>)
        ensures
            r == self.zero_spec(),
    {
        match self {
            SimilarityScores::Similarity(_) => Ok(SimilarityScores::Similarity(0)),
            SimilarityScores::Distance(_) => Ok(SimilarityScores::Distance(0)),
            SimilarityScores::Length(_) => Ok(SimilarityScores::Length(0)),
            SimilarityScores::IsEqual(_) => Ok(SimilarityScores::IsEqual(true)),
            SimilarityScores::NoScore => Err(ScoreError::Incomparable),
        }
    }

    /// Adds two scores of the same kind.
    pub fn add(self, other: SimilarityScores) -> (r: Result<SimilarityScores, ScoreError>)
        ensures
            r == self.sum_spec(other),
    {
        match (self, other) {
            (SimilarityScores::Similarity(x), SimilarityScores::Similarity(y)) => match x.checked_add(y) {
                Some(z) => Ok(SimilarityScores::Similarity(z)),
                None => Err(ScoreError::Overflow),
            },
            (SimilarityScores::Distance(x), SimilarityScores::Distance(y)) => match x.checked_add(y) {
                Some(z) => Ok(SimilarityScores::Distance(z)),
                None => Err(ScoreError::Overflow),
            },
            (SimilarityScores::Length(x), SimilarityScores::Length(y)) => match x.checked_add(y) {
                Some(z) => Ok(SimilarityScores::Length(z)),
                None => Err(ScoreError::Overflow),
            },
            (SimilarityScores::IsEqual(x), SimilarityScores::IsEqual(y)) => Ok(
                SimilarityScores::IsEqual(x && y),
            ),
            _ => Err(ScoreError::Incomparable),
        }
    }

    /// Compares two scores of the same kind by merit: `Greater` means better.
    /// A smaller distance is the better one.
    pub fn compare(&self, other: &SimilarityScores) -> (r: Result<Ordering, ScoreError>)
        ensures
            r == (if self.same_kind(*other) {
                Ok::<Ordering, ScoreError>(int_order(self.merit(), other.merit()))
            } else {
                Err(ScoreError::Incomparable)
            }),
    {
        match (*self, *other) {
            (SimilarityScores::Similarity(x), SimilarityScores::Similarity(y)) => Ok(
                u128_order(x, y),
            ),
            (SimilarityScores::Distance(x), SimilarityScores::Distance(y)) => Ok(u128_order(y, x)),
            (SimilarityScores::Length(x), SimilarityScores::Length(y)) => Ok(
                u128_order(x as u128, y as u128),
            ),
            (SimilarityScores::IsEqual(x), SimilarityScores::IsEqual(y)) => Ok(
                u128_order(x as u128, y as u128),
            ),
            _ => Err(ScoreError::Incomparable),
        }
    }
}

impl SequenceMatchFunction {
    /// The neutral score of this metric's kind.
    pub open spec fn zero_of(self) -> SimilarityScores {
        match self {
            SequenceMatchFunction::StrictEqual => SimilarityScores::IsEqual(true),
            SequenceMatchFunction::AlgebraicDistance => SimilarityScores::Distance(0),
            SequenceMatchFunction::SequenceLength => SimilarityScores::Length(0),
        }
    }

    /// The neutral score of this metric's kind.
    pub fn zero_score(self) -> (r: SimilarityScores)
        ensures
            r == self.zero_of(),
    {
        match self {
            SequenceMatchFunction::StrictEqual => SimilarityScores::IsEqual(true),
            SequenceMatchFunction::AlgebraicDistance => SimilarityScores::Distance(0),
            SequenceMatchFunction::SequenceLength => SimilarityScores::Length(0),
        }
    }
}

/// Natural order on mathematical integers.
pub open spec fn int_order(a: int, b: int) -> Ordering {
    if a < b {
        Ordering::Less
    } else if a == b {
        Ordering::Equal
    } else {
        Ordering::Greater
    }
}

fn u128_order(a: u128, b: u128) -> (r: Ordering)
    ensures
        r == int_order(a as int, b as int),
{
    if a < b {
        Ordering::Less
    } else if a == b {
        Ordering::Equal
    } else {
        Ordering::Greater
    }
}

/// The symbol order as an `Ordering`.
pub open spec fn order_of(a: DataTypes, b: DataTypes) -> Ordering {
    if a.precedes(b) {
        Ordering::Less
    } else if a == b {
        Ordering::Equal
    } else {
        Ordering::Greater
    }
}

/// Whether `m` can compare a stored symbol `a` with a queried symbol `b`.
pub open spec fn comparable(m: SequenceMatchFunction, a: DataTypes, b: DataTypes) -> bool {
    m != SequenceMatchFunction::AlgebraicDistance || (a.is_integer() && b.is_integer())
}

/// The score of `a` against `b` under `m`, where `comparable(m, a, b)`.
pub open spec fn similarity(m: SequenceMatchFunction, a: DataTypes, b: DataTypes) -> SimilarityScores {
    match m {
        SequenceMatchFunction::StrictEqual => SimilarityScores::IsEqual(a == b),
        SequenceMatchFunction::SequenceLength => SimilarityScores::Length(1),
        SequenceMatchFunction::AlgebraicDistance => SimilarityScores::Distance(
            (if a.value() > b.value() {
                a.value() - b.value()
            } else {
                b.value() - a.value()
            }) as u128,
        ),
    }
}

} // verus!
