//! The card model: a suit, a face value, and the value's numeric strength.

use vstd::prelude::*;

verus! {

/// One of the four French suits.
#[derive(Clone, Copy, PartialEq, Eq, Structural, Debug)]
pub enum Suit {
    Hearts,
    Diamonds,
    Clubs,
    Spades,
}

/// A card's face value. The ace plays high: its strength is 14.
#[derive(Clone, Copy, PartialEq, Eq, Structural, Debug)]
pub enum Value {
    Two,
    Three,
    Four,
    Five,
    Six,
    Seven,
    Eight,
    Nine,
    Ten,
    Jack,
    Queen,
    King,
    Ace,
}

/// A playing card: an immutable (suit, value) pair. Equality is structural.
#[derive(Clone, Copy, PartialEq, Eq, Structural, Debug)]
pub struct Card {
    pub suit: Suit,
    pub value: Value,
}

/// The numeric strength of a face value: 2 through 10 for the number cards,
/// then 11 for the jack, 12 for the queen, 13 for the king, 14 for the ace.
pub open spec fn strength(v: Value) -> u8 {
    match v {
        Value::Two => 2,
        Value::Three => 3,
        Value::Four => 4,
        Value::Five => 5,
        Value::Six => 6,
        Value::Seven => 7,
        Value::Eight => 8,
        Value::Nine => 9,
        Value::Ten => 10,
        Value::Jack => 11,
        Value::Queen => 12,
        Value::King => 13,
        Value::Ace => 14,
    }
}

/// Every strength lies between 2 (the deuce) and 14 (the ace).
pub proof fn lemma_strength_range(v: Value)
    ensures
        2 <= strength(v) <= 14,
{
}

impl Value {
    /// Numeric strength of this value, with the ace high at 14.
    pub fn rank(&self) -> (r: u8)
        ensures
            r == strength(*self),
    {
        match self {
            Value::Two => 2,
            Value::Three => 3,
            Value::Four => 4,
            Value::Five => 5,
            Value::Six => 6,
            Value::Seven => 7,
            Value::Eight => 8,
            Value::Nine => 9,
            Value::Ten => 10,
            Value::Jack => 11,
            Value::Queen => 12,
            Value::King => 13,
            Value::Ace => 14,
        }
    }
}

} // verus!
