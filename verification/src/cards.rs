//! Card names and their blackjack values.

use vstd::prelude::*;

verus! {

/// The points that a card name is worth, as `StringToInt` knows them.
pub open spec fn card_points(name: Seq<char>) -> Option<int> {
    if name == "ace_low"@ {
        Some(1)
    } else if name == "2"@ {
        Some(2)
    } else if name == "3"@ {
        Some(3)
    } else if name == "4"@ {
        Some(4)
    } else if name == "5"@ {
        Some(5)
    } else if name == "6"@ {
        Some(6)
    } else if name == "7"@ {
        Some(7)
    } else if name == "8"@ {
        Some(8)
    } else if name == "9"@ {
        Some(9)
    } else if name == "10"@ {
        Some(10)
    } else if name == "jack"@ {
        Some(10)
    } else if name == "queen"@ {
        Some(10)
    } else if name == "king"@ {
        Some(10)
    } else if name == "ace_high"@ {
        Some(11)
    } else {
        None
    }
}

/// `card_points` as the `i32` that `get_value` hands back.
pub open spec fn standard_value(name: Seq<char>) -> Option<i32> {
    match card_points(name) {
        Some(v) => Some(v as i32),
        None => None,
    }
}

/// Converts a card name into its value.
pub struct StringToInt {
    pub ace_low: i32,
    pub two: i32,
    pub three: i32,
    pub four: i32,
    pub five: i32,
    pub six: i32,
    pub seven: i32,
    pub eight: i32,
    pub nine: i32,
    pub ten: i32,
    pub jack: i32,
    pub queen: i32,
    pub king: i32,
    pub ace_high: i32,
}

impl StringToInt {
    /// What `get_value` answers for `name`, by this converter's fields.
    pub open spec fn value_of(&self, name: Seq<char>) -> Option<i32> {
        if name == "ace_low"@ {
            Some(self.ace_low)
        } else if name == "2"@ {
            Some(self.two)
        } else if name == "3"@ {
            Some(self.three)
        } else if name == "4"@ {
            Some(self.four)
        } else if name == "5"@ {
            Some(self.five)
        } else if name == "6"@ {
            Some(self.six)
        } else if name == "7"@ {
            Some(self.seven)
        } else if name == "8"@ {
            Some(self.eight)
        } else if name == "9"@ {
            Some(self.nine)
        } else if name == "10"@ {
            Some(self.ten)
        } else if name == "jack"@ {
            Some(self.jack)
        } else if name == "queen"@ {
            Some(self.queen)
        } else if name == "king"@ {
            Some(self.king)
        } else if name == "ace_high"@ {
            Some(self.ace_high)
        } else {
            None
        }
    }

    /// The blackjack values: number cards at face value, faces at ten, a low
    /// ace at one and a high ace at eleven.
    pub open spec fn is_standard(&self) -> bool {
        &&& self.ace_low == 1
        &&& self.two == 2
        &&& self.three == 3
        &&& self.four == 4
        &&& self.five == 5
        &&& self.six == 6
        &&& self.seven == 7
        &&& self.eight == 8
        &&& self.nine == 9
        &&& self.ten == 10
        &&& self.jack == 10
        &&& self.queen == 10
        &&& self.king == 10
        &&& self.ace_high == 11
    }

    pub fn new() -> (converter: Self)
        ensures
            converter.is_standard(),
            forall|name: Seq<char>| #[trigger] converter.value_of(name) == standard_value(name),
    {
        StringToInt {
            ace_low: 1,
            two: 2,
            three: 3,
            four: 4,
            five: 5,
            six: 6,
            seven: 7,
            eight: 8,
            nine: 9,
            ten: 10,
            jack: 10,
            queen: 10,
            king: 10,
            ace_high: 11,
        }
    }

    /// The value of the card called `name`, or `None` for a name that is no card.
    pub fn get_value(&self, name: &str) -> (value: Option<i32>)
        ensures
            value == self.value_of(name@),
    {
        let key = String::from_str(name);
        if key == String::from_str("ace_low") {
            Some(self.ace_low)
        } else if key == String::from_str("2") {
            Some(self.two)
        } else if key == String::from_str("3") {
            Some(self.three)
        } else if key == String::from_str("4") {
            Some(self.four)
        } else if key == String::from_str("5") {
            Some(self.five)
        } else if key == String::from_str("6") {
            Some(self.six)
        } else if key == String::from_str("7") {
            Some(self.seven)
        } else if key == String::from_str("8") {
            Some(self.eight)
        } else if key == String::from_str("9") {
            Some(self.nine)
        } else if key == String::from_str("10") {
            Some(self.ten)
        } else if key == String::from_str("jack") {
            Some(self.jack)
        } else if key == String::from_str("queen") {
            Some(self.queen)
        } else if key == String::from_str("king") {
            Some(self.king)
        } else if key == String::from_str("ace_high") {
            Some(self.ace_high)
        } else {
            None
        }
    }
}

} // verus!
