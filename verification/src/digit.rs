//! The nine digits.
use vstd::prelude::*;
use vstd::std_specs::convert::FromSpecImpl;

verus! {

/// A single digit that can be placed in a cell of a Sudoku.
#[derive(Copy, Clone, Ord, PartialOrd, Eq, PartialEq, Structural, Hash, Debug)]
pub enum Digit {
    _1,
    _2,
    _3,
    _4,
    _5,
    _6,
    _7,
    _8,
    _9,
}

impl Digit {
    /// The number that the digit stands for, from 1 to 9.
    pub open spec fn number(self) -> int {
        match self {
            Digit::_1 => 1,
            Digit::_2 => 2,
            Digit::_3 => 3,
            Digit::_4 => 4,
            Digit::_5 => 5,
            Digit::_6 => 6,
            Digit::_7 => 7,
            Digit::_8 => 8,
            Digit::_9 => 9,
        }
    }

    /// The digit that stands for `number`. A number below 1 counts as 1, one above 9 as 9.
    pub open spec fn of_number(number: int) -> Digit {
        if number <= 1 {
            Digit::_1
        } else if number == 2 {
            Digit::_2
        } else if number == 3 {
            Digit::_3
        } else if number == 4 {
            Digit::_4
        } else if number == 5 {
            Digit::_5
        } else if number == 6 {
            Digit::_6
        } else if number == 7 {
            Digit::_7
        } else if number == 8 {
            Digit::_8
        } else {
            Digit::_9
        }
    }

    /// The character that is written for the digit.
    pub open spec fn character(self) -> char {
        match self {
            Digit::_1 => '1',
            Digit::_2 => '2',
            Digit::_3 => '3',
            Digit::_4 => '4',
            Digit::_5 => '5',
            Digit::_6 => '6',
            Digit::_7 => '7',
            Digit::_8 => '8',
            Digit::_9 => '9',
        }
    }

    /// All possible digits, in rising order.
    pub fn iter() -> (r: [Digit; 9])
        ensures
            r@ == Seq::new(9, |i: int| Digit::of_number(i + 1)),
    {
        [
            Digit::_1,
            Digit::_2,
            Digit::_3,
            Digit::_4,
            Digit::_5,
            Digit::_6,
            Digit::_7,
            Digit::_8,
            Digit::_9,
        ]
    }

    /// Parse the input character as a digit. Returns None if the character was invalid.
    pub fn parse(ch: char) -> (r: Option<Self>)
        ensures
            match r {
                Some(digit) => digit.character() == ch,
                None => forall|digit: Digit| digit.character() != ch,
            },
    {
        let output = match ch {
            '1' => Digit::_1,
            '2' => Digit::_2,
            '3' => Digit::_3,
            '4' => Digit::_4,
            '5' => Digit::_5,
            '6' => Digit::_6,
            '7' => Digit::_7,
            '8' => Digit::_8,
            '9' => Digit::_9,
            _ => return None,
        };
        Some(output)
    }

    /// The digit as a text of one character.
    pub fn to_string(self) -> (r: String)
        ensures
            r@ == seq![self.character()],
    {
        let mut r = String::new();
        r.push(self.to_char());
        r
    }

    /// The character that is written for the digit.
    pub fn to_char(self) -> (r: char)
        ensures
            r == self.character(),
    {
        match self {
            Digit::_1 => '1',
            Digit::_2 => '2',
            Digit::_3 => '3',
            Digit::_4 => '4',
            Digit::_5 => '5',
            Digit::_6 => '6',
            Digit::_7 => '7',
            Digit::_8 => '8',
            Digit::_9 => '9',
        }
    }
}

impl FromSpecImpl<Digit> for usize {
    open spec fn obeys_from_spec() -> bool {
        true
    }

    open spec fn from_spec(digit: Digit) -> usize {
        digit.number() as usize
    }
}

impl From<Digit> for usize {
    /// The number that the digit stands for, from 1 to 9.
    fn from(digit: Digit) -> (r: usize) {
        match digit {
            Digit::_1 => 1,
            Digit::_2 => 2,
            Digit::_3 => 3,
            Digit::_4 => 4,
            Digit::_5 => 5,
            Digit::_6 => 6,
            Digit::_7 => 7,
            Digit::_8 => 8,
            Digit::_9 => 9,
        }
    }
}

} // verus!
