//! What holds of parsing and rolling, whatever the input.

use vstd::prelude::*;
use crate::dice::{
    face_sum, lemma_parse_outcome, parse_outcome, parsed, signed_value, DiceError, DieRoll,
    PoolModel,
};
use crate::digits::{all_digits, decimal_digits, decimal_value, lemma_decimal_digits};
use crate::grammar::{has_shape, is_sign, matches_grammar};

verus! {

/// A description with all three parts, `count`, `d`, `sides`, a sign and
/// the modifier's digits, parses to just those three numbers, provided each
/// fits its type and the sides are not zero.
pub proof fn lemma_parse_full(count: Seq<char>, sides: Seq<char>, sign: char, modifier: Seq<char>)
    requires
        count.len() > 0 && all_digits(count),
        sides.len() > 0 && all_digits(sides),
        modifier.len() > 0 && all_digits(modifier),
        is_sign(sign),
        decimal_value(count) <= u32::MAX,
        0 < decimal_value(sides) <= u32::MAX,
        i32::MIN <= signed_value(sign, decimal_value(modifier)) <= i32::MAX,
    ensures
        parse_outcome(count + seq!['d'] + sides + seq![sign] + modifier) == Ok::<
            PoolModel,
            DiceError,
        >(
            PoolModel {
                count: decimal_value(count),
                sides: decimal_value(sides),
                modifier: signed_value(sign, decimal_value(modifier)),
            },
        ),
{
    let s = count + seq!['d'] + sides + seq![sign] + modifier;
    let d = count.len() as int;
    let m = d + 1 + sides.len();
    assert(s.subrange(0, d) =~= count);
    assert(s.subrange(d + 1, m) =~= sides);
    assert(s.subrange(m + 1, s.len() as int) =~= modifier);
    assert(has_shape(s, d, m)) by {
        assert forall|i: int| 0 <= i < d implies s[i] == count[i] by {}
        assert forall|i: int| d + 1 <= i < m implies s[i] == sides[i - d - 1] by {}
        assert forall|i: int| m + 1 <= i < s.len() implies s[i] == modifier[i - m - 1] by {}
    }
    lemma_parse_outcome(s, d, m);
}

/// The numerals of three numbers, put together as `<count>d<sides>+<modifier>`
/// or `<count>d<sides>-<modifier>`, parse back to those numbers, the
/// modifier with its sign: to the model of the pool that `Dicepool::new`
/// makes of them.
pub proof fn lemma_parse_numbers(count: nat, sides: nat, sign: char, modifier: nat)
    requires
        count <= u32::MAX,
        0 < sides <= u32::MAX,
        is_sign(sign),
        i32::MIN <= signed_value(sign, modifier) <= i32::MAX,
    ensures
        parse_outcome(
            decimal_digits(count) + seq!['d'] + decimal_digits(sides) + seq![sign] + decimal_digits(
                modifier,
            ),
        ) == Ok::<PoolModel, DiceError>(
            PoolModel { count, sides, modifier: signed_value(sign, modifier) },
        ),
{
    lemma_decimal_digits(count);
    lemma_decimal_digits(sides);
    lemma_decimal_digits(modifier);
    lemma_parse_full(
        decimal_digits(count),
        decimal_digits(sides),
        sign,
        decimal_digits(modifier),
    );
}

/// The numeral of a number of sides after a `d` parses to one die of that
/// many sides and no modifier.
pub proof fn lemma_parse_sides_number(sides: nat)
    requires
        0 < sides <= u32::MAX,
    ensures
        parse_outcome(seq!['d'] + decimal_digits(sides)) == Ok::<PoolModel, DiceError>(
            PoolModel { count: 1, sides, modifier: 0 },
        ),
{
    lemma_decimal_digits(sides);
    lemma_parse_sides_only(decimal_digits(sides));
}

/// A description of `d` and the sides alone parses to one die of that many
/// sides and no modifier, provided the sides fit their type and are not
/// zero.
pub proof fn lemma_parse_sides_only(sides: Seq<char>)
    requires
        sides.len() > 0 && all_digits(sides),
        0 < decimal_value(sides) <= u32::MAX,
    ensures
        parse_outcome(seq!['d'] + sides) == Ok::<PoolModel, DiceError>(
            PoolModel { count: 1, sides: decimal_value(sides), modifier: 0 },
        ),
{
    let s = seq!['d'] + sides;
    assert(s.subrange(1, s.len() as int) =~= sides);
    assert(has_shape(s, 0, s.len() as int)) by {
        assert forall|i: int| 1 <= i < s.len() implies s[i] == sides[i - 1] by {}
    }
    lemma_parse_outcome(s, 0, s.len() as int);
}

/// Whatever parses has dice with at least one side, and holds numbers that
/// fit the pool's fields: a description of zero-sided dice is refused.
pub proof fn lemma_parsed_pool_has_sides(s: Seq<char>)
    ensures
        match parse_outcome(s) {
            Ok(pool) => {
                &&& matches_grammar(s)
                &&& pool.count <= u32::MAX
                &&& 0 < pool.sides <= u32::MAX
                &&& i32::MIN <= pool.modifier <= i32::MAX
            },
            Err(_) => true,
        },
{
    if matches_grammar(s) {
        let (d, m) = choose|d: int, m: int| has_shape(s, d, m);
        assert(parse_outcome(s) == parsed(s, d, m));
    }
}

/// The sum of a draw lies between the number of dice and that number
/// times the sides.
pub proof fn lemma_face_sum_bounds(pool: PoolModel, dice: Seq<DieRoll>)
    requires
        pool.is_outcome(dice),
    ensures
        pool.count <= face_sum(dice) <= pool.count * pool.sides,
    decreases dice.len(),
{
    if dice.len() == 0 {
        assert(pool.count * pool.sides == 0) by (nonlinear_arith)
            requires
                pool.count == 0,
        ;
    } else {
        let rest = PoolModel { count: (pool.count - 1) as nat, ..pool };
        lemma_face_sum_bounds(rest, dice.drop_last());
        assert(rest.count * pool.sides + pool.sides == pool.count * pool.sides)
            by (nonlinear_arith)
            requires
                rest.count + 1 == pool.count,
        ;
    }
}

/// The total of any draw of a pool lies between the pool's least and
/// greatest totals: every die at 1, and every die at `sides`.
pub proof fn lemma_total_within_bounds(pool: PoolModel, dice: Seq<DieRoll>)
    requires
        pool.is_outcome(dice),
    ensures
        pool.min_total() <= pool.total(dice) <= pool.max_total(),
{
    lemma_face_sum_bounds(pool, dice);
}

} // verus!
