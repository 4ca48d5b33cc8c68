//! The dice pool: its model, its parser and its rolls.

use vstd::prelude::*;
use vstd::string::*;
use crate::digits::{ascii_len, decimal_value, parse_decimal};
use crate::grammar::{
    has_shape, lemma_shape_is_ascii, lemma_shape_unique, matches_grammar, scan, ASCII_MINUS,
};
use crate::laws::lemma_total_within_bounds;
use crate::random::random_between;

verus! {

/// The value of one die: a face in `1..=sides`.
pub type DieRoll = u32;

/// The flat amount added to a roll.
pub type RollModifier = i32;

/// The total of one roll.
pub type DicepoolRoll = i64;

/// Why a description was refused.
#[derive(Debug, Clone, Copy, PartialEq, Eq, Structural)]
pub enum DicepoolParseError {
    /// The text is no `[count]d<sides>[(+|-)modifier]`.
    InvalidFormat,
    /// The count does not fit an unsigned 32-bit integer.
    InvalidCount,
    /// The sides are zero or do not fit an unsigned 32-bit integer.
    InvalidSides,
    /// The modifier does not fit a signed 32-bit integer.
    InvalidModifier,
}

/// An error of this library.
#[derive(Debug, Clone, Copy, PartialEq, Eq, Structural)]
pub enum DiceError {
    ParseError(DicepoolParseError),
}

/// What a pool is: `count` dice of `sides` sides each, and a `modifier`
/// added once to their sum.
pub struct PoolModel {
    pub count: nat,
    pub sides: nat,
    pub modifier: int,
}

/// The sum of the faces in `dice`.
pub open spec fn face_sum(dice: Seq<DieRoll>) -> int
    decreases dice.len(),
{
    if dice.len() == 0 {
        0
    } else {
        face_sum(dice.drop_last()) + dice.last()
    }
}

impl PoolModel {
    /// `dice` is a possible draw of this pool: one face per die, each in
    /// `1..=sides`.
    pub open spec fn is_outcome(self, dice: Seq<DieRoll>) -> bool {
        &&& dice.len() == self.count
        &&& forall|i: int| 0 <= i < dice.len() ==> 1 <= #[trigger] dice[i] <= self.sides
    }

    /// The total of the draw `dice`: the sum of its faces plus the modifier.
    pub open spec fn total(self, dice: Seq<DieRoll>) -> int {
        face_sum(dice) + self.modifier
    }

    /// The least total: every die shows 1.
    pub open spec fn min_total(self) -> int {
        self.count + self.modifier
    }

    /// The greatest total: every die shows `sides`.
    pub open spec fn max_total(self) -> int {
        self.count * self.sides + self.modifier
    }

    /// The pool can be rolled: its dice have a face, and its greatest total
    /// fits a `DicepoolRoll`.
    pub open spec fn rollable(self) -> bool {
        self.sides > 0 && self.max_total() <= i64::MAX
    }
}

/// The number that a sign and a magnitude stand for.
pub open spec fn signed_value(sign: char, magnitude: nat) -> int {
    if sign == '-' {
        -(magnitude as int)
    } else {
        magnitude as int
    }
}

/// What the description `s` stands for, where its `d` is at index `d` and
/// its modifier starts at index `m` (see [`has_shape`]). The count is
/// judged first, then the sides, then the modifier. A count that is left
/// out is 1, a modifier that is left out is 0, and a die has at least one
/// side.
pub open spec fn parsed(s: Seq<char>, d: int, m: int) -> Result<PoolModel, DiceError> {
    let count = decimal_value(s.subrange(0, d));
    let sides = decimal_value(s.subrange(d + 1, m));
    let modifier = if m < s.len() {
        signed_value(s[m], decimal_value(s.subrange(m + 1, s.len() as int)))
    } else {
        0
    };
    if d > 0 && count > u32::MAX {
        Err(DiceError::ParseError(DicepoolParseError::InvalidCount))
    } else if sides == 0 || sides > u32::MAX {
        Err(DiceError::ParseError(DicepoolParseError::InvalidSides))
    } else if modifier < i32::MIN || modifier > i32::MAX {
        Err(DiceError::ParseError(DicepoolParseError::InvalidModifier))
    } else {
        Ok(
            PoolModel {
                count: if d > 0 {
                    count
                } else {
                    1
                },
                sides,
                modifier,
            },
        )
    }
}

/// What parsing `s` gives: `InvalidFormat` where `s` is no description,
/// else what its one split stands for.
pub open spec fn parse_outcome(s: Seq<char>) -> Result<PoolModel, DiceError> {
    if matches_grammar(s) {
        let (d, m) = choose|d: int, m: int| has_shape(s, d, m);
        parsed(s, d, m)
    } else {
        Err(DiceError::ParseError(DicepoolParseError::InvalidFormat))
    }
}

/// A parse result with the pool replaced by its model.
pub open spec fn outcome_model(r: Result<Dicepool, DiceError>) -> Result<PoolModel, DiceError> {
    match r {
        Ok(pool) => Ok(pool@),
        Err(e) => Err(e),
    }
}

/// Whichever split of a description is at hand, it is the one that
/// `parse_outcome` goes by.
pub proof fn lemma_parse_outcome(s: Seq<char>, d: int, m: int)
    requires
        has_shape(s, d, m),
    ensures
        parse_outcome(s) == parsed(s, d, m),
{
    let (d0, m0) = choose|d0: int, m0: int| has_shape(s, d0, m0);
    lemma_shape_unique(s, d, m, d0, m0);
}

/// A number of dice with the same number of sides, and a modifier added to
/// their sum. A pool never changes: rolling it leaves it as it was.
#[derive(Debug, Clone, Copy, PartialEq, Eq, Structural)]
pub struct Dicepool {
    count: u32,
    sides: DieRoll,
    modifier: RollModifier,
}

impl View for Dicepool {
    type V = PoolModel;

    closed spec fn view(&self) -> PoolModel {
        PoolModel {
            count: self.count as nat,
            sides: self.sides as nat,
            modifier: self.modifier as int,
        }
    }
}

impl Dicepool {
    /// A pool of `count` dice of `sides` sides with `modifier`. The values
    /// are taken as they are: a pool with `sides == 0` can be made, but not
    /// rolled.
    pub fn new(count: u32, sides: DieRoll, modifier: RollModifier) -> (pool: Self)
        ensures
            pool@ == (PoolModel {
                count: count as nat,
                sides: sides as nat,
                modifier: modifier as int,
            }),
    {
        Self { count, sides, modifier }
    }

    /// The model of a pool holds machine integers.
    pub proof fn lemma_model_in_range(self)
        ensures
            self@.count <= u32::MAX,
            self@.sides <= u32::MAX,
            i32::MIN <= self@.modifier <= i32::MAX,
    {
    }

    /// Parses `[count]d<sides>[(+|-)modifier]`, the whole of `description`.
    ///
    /// Text of another shape is `InvalidFormat`. In text of that shape, a
    /// count beyond `u32` is `InvalidCount`, sides of zero or beyond `u32`
    /// are `InvalidSides`, and a modifier beyond `i32` is `InvalidModifier`,
    /// the first of these that applies. All else is a pool, and one that
    /// has at least one side to its dice.
    pub fn from_description(description: &str) -> (result: Result<Self, DiceError>)
        ensures
            outcome_model(result) == parse_outcome(description@),
    {
        let (d, m) = match scan(description) {
            Some(split) => split,
            None => {
                return Err(DiceError::ParseError(DicepoolParseError::InvalidFormat));
            },
        };
        proof {
            lemma_parse_outcome(description@, d as int, m as int);
            lemma_shape_is_ascii(description@, d as int, m as int);
        }
        let n: usize = ascii_len(description);
        let count: u32 = if d == 0 {
            1
        } else {
            match parse_decimal(description, 0, d, 0xffff_ffff) {
                Some(v) => v as u32,
                None => {
                    return Err(DiceError::ParseError(DicepoolParseError::InvalidCount));
                },
            }
        };
        let sides: DieRoll = match parse_decimal(description, d + 1, m, 0xffff_ffff) {
            Some(v) if v > 0 => v as u32,
            _ => {
                return Err(DiceError::ParseError(DicepoolParseError::InvalidSides));
            },
        };
        let modifier: RollModifier = if m == n {
            0
        } else {
            let negative: bool = description.get_ascii(m) == ASCII_MINUS;
            match parse_decimal(description, m + 1, n, 0x8000_0000) {
                Some(v) if negative => (-(v as i64)) as i32,
                Some(v) if v <= 0x7fff_ffff => v as i32,
                _ => {
                    return Err(DiceError::ParseError(DicepoolParseError::InvalidModifier));
                },
            }
        };
        Ok(Dicepool::new(count, sides, modifier))
    }

    /// The number of dice.
    pub fn count(&self) -> (count: u32)
        ensures
            count == self@.count,
    {
        self.count
    }

    /// The number of sides of each die.
    pub fn sides(&self) -> (sides: DieRoll)
        ensures
            sides == self@.sides,
    {
        self.sides
    }

    /// The amount added to the sum of the dice.
    pub fn modifier(&self) -> (modifier: RollModifier)
        ensures
            modifier == self@.modifier,
    {
        self.modifier
    }

    /// Whether the pool can be rolled.
    pub fn is_rollable(&self) -> (yes: bool)
        ensures
            yes == self@.rollable(),
    {
        if self.sides == 0 {
            return false;
        }
        assert(self.count as int * self.sides as int <= 0xffff_ffff * 0xffff_ffff) by (nonlinear_arith)
            requires
                0 <= self.count as int <= 0xffff_ffff,
                0 <= self.sides as int <= 0xffff_ffff,
        ;
        let most: i128 = (self.count as i128) * (self.sides as i128) + (self.modifier as i128);
        most <= 0x7fff_ffff_ffff_ffff
    }

    /// Draws the dice: one face for each die, each drawn uniformly from
    /// `1..=sides`, in the order drawn. Dice without sides have no face to
    /// show, so such a pool is left out.
    pub fn dice(&self) -> (dice: Vec<DieRoll>)
        requires
            self@.sides > 0,
        ensures
            self@.is_outcome(dice@),
    {
        let mut dice: Vec<DieRoll> = Vec::new();
        let mut i: u32 = 0;
        while i < self.count
            invariant
                self.sides > 0,
                i <= self.count,
                dice@.len() == i,
                forall|j: int| 0 <= j < dice@.len() ==> 1 <= #[trigger] dice@[j] <= self.sides,
            decreases self.count - i,
        {
            let face: DieRoll = random_between(1, self.sides);
            dice.push(face);
            i += 1;
        }
        dice
    }

    /// The total of the draw `dice`: the sum of its faces plus the modifier,
    /// where that fits 64 bits.
    pub fn total(&self, dice: &[DieRoll]) -> (total: DicepoolRoll)
        requires
            self@.total(dice@) <= i64::MAX,
        ensures
            total == self@.total(dice@),
    {
        let mut total: DicepoolRoll = self.modifier as i64;
        let mut i: usize = 0;
        assert(dice@.subrange(0, 0).len() == 0);
        while i < dice.len()
            invariant
                i <= dice@.len(),
                self@.total(dice@) <= i64::MAX,
                total == self.modifier + face_sum(dice@.subrange(0, i as int)),
            decreases dice@.len() - i,
        {
            proof {
                let next = dice@.subrange(0, i + 1);
                assert(next.drop_last() =~= dice@.subrange(0, i as int));
                lemma_face_sum_prefix(dice@, i + 1);
            }
            total = total + dice[i] as i64;
            i += 1;
        }
        assert(dice@.subrange(0, i as int) =~= dice@);
        total
    }

    /// Rolls the pool once: draws its dice and returns their total. The
    /// total is that of some draw of the pool, and so lies between the
    /// pool's least and greatest totals.
    pub fn roll(&self) -> (total: DicepoolRoll)
        requires
            self@.rollable(),
        ensures
            exists|dice: Seq<DieRoll>| self@.is_outcome(dice) && total == self@.total(dice),
            self@.min_total() <= total <= self@.max_total(),
    {
        let mut total: DicepoolRoll = self.modifier as i64;
        let ghost mut drawn: Seq<DieRoll> = Seq::empty();
        let mut i: u32 = 0;
        assert(i * self.sides == 0) by (nonlinear_arith)
            requires
                i == 0,
        ;
        while i < self.count
            invariant
                self@.rollable(),
                i <= self.count,
                drawn.len() == i,
                forall|j: int| 0 <= j < drawn.len() ==> 1 <= #[trigger] drawn[j] <= self.sides,
                total == self.modifier + face_sum(drawn),
                i <= face_sum(drawn) <= i * self.sides,
            decreases self.count - i,
        {
            let face: DieRoll = random_between(1, self.sides);
            proof {
                let ghost before = drawn;
                drawn = drawn.push(face);
                assert(drawn.drop_last() =~= before);
                assert((i + 1) * self.sides == i * self.sides + self.sides
                    && (i + 1) * self.sides <= self.count * self.sides) by (nonlinear_arith)
                    requires
                        0 <= i < self.count,
                        0 <= self.sides,
                ;
            }
            total = total + face as i64;
            i += 1;
        }
        assert(self@.is_outcome(drawn) && total == self@.total(drawn));
        total
    }

    /// Rolls the pool once and hands out the dice with their total: the
    /// faces drawn, one per die, and their sum plus the modifier.
    pub fn roll_with_dice(&self) -> (outcome: (Vec<DieRoll>, DicepoolRoll))
        requires
            self@.rollable(),
        ensures
            self@.is_outcome(outcome.0@),
            outcome.1 == self@.total(outcome.0@),
            self@.min_total() <= outcome.1 <= self@.max_total(),
    {
        let dice: Vec<DieRoll> = self.dice();
        proof {
            lemma_total_within_bounds(self@, dice@);
        }
        let total: DicepoolRoll = self.total(dice.as_slice());
        (dice, total)
    }

    /// Draws the dice where they have sides; `None` for dice without.
    pub fn try_dice(&self) -> (dice: Option<Vec<DieRoll>>)
        ensures
            match dice {
                Some(faces) => self@.sides > 0 && self@.is_outcome(faces@),
                None => self@.sides == 0,
            },
    {
        if self.sides > 0 {
            Some(self.dice())
        } else {
            None
        }
    }

    /// Rolls the pool where it can be rolled; `None` where it cannot.
    pub fn try_roll(&self) -> (total: Option<DicepoolRoll>)
        ensures
            match total {
                Some(t) => {
                    &&& self@.rollable()
                    &&& exists|dice: Seq<DieRoll>| self@.is_outcome(dice) && t == self@.total(dice)
                    &&& self@.min_total() <= t <= self@.max_total()
                },
                None => !self@.rollable(),
            },
    {
        if self.is_rollable() {
            Some(self.roll())
        } else {
            None
        }
    }
}

/// The faces of the first `k` dice sum to no more than those of all.
pub proof fn lemma_face_sum_prefix(dice: Seq<DieRoll>, k: int)
    requires
        0 <= k <= dice.len(),
    ensures
        face_sum(dice.subrange(0, k)) <= face_sum(dice),
    decreases dice.len() - k,
{
    if k == dice.len() {
        assert(dice.subrange(0, k) =~= dice);
    } else {
        lemma_face_sum_prefix(dice.drop_last(), k);
        assert(dice.drop_last().subrange(0, k) =~= dice.subrange(0, k));
    }
}

} // verus!
