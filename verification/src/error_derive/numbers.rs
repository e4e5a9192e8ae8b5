//! Numbers as text.

use vstd::prelude::*;

verus! {

/// Puts a character at the end of a string, as `String::push` does.
pub assume_specification[ String::push ](text: &mut String, character: char)
    ensures
        final(text)@ == old(text)@.push(character),
;

/// The character of a digit.
pub open spec fn digit(value: int) -> char {
    (48 + value) as char
}

/// A number in base ten, without leading zeros.
pub open spec fn decimal(value: nat) -> Seq<char>
    decreases value,
{
    if value < 10 {
        seq![digit(value as int)]
    } else {
        decimal(value / 10).push(digit((value % 10) as int))
    }
}

fn digit_char(value: usize) -> (character: char)
    requires
        value < 10,
    ensures
        character == digit(value as int),
{
    if value == 0 {
        '0'
    } else if value == 1 {
        '1'
    } else if value == 2 {
        '2'
    } else if value == 3 {
        '3'
    } else if value == 4 {
        '4'
    } else if value == 5 {
        '5'
    } else if value == 6 {
        '6'
    } else if value == 7 {
        '7'
    } else if value == 8 {
        '8'
    } else {
        '9'
    }
}

/// Writes a number in base ten.
pub fn decimal_text(value: usize) -> (text: String)
    ensures
        text@ == decimal(value as nat),
    decreases value,
{
    if value < 10 {
        let mut text = String::new();
        text.push(digit_char(value));
        assert(text@ =~= seq![digit(value as int)]);
        text
    } else {
        let mut text = decimal_text(value / 10);
        text.push(digit_char(value % 10));
        text
    }
}

proof fn lemma_decimal_is_not_empty(value: nat)
    ensures
        decimal(value).len() >= 1,
    decreases value,
{
    if value >= 10 {
        lemma_decimal_is_not_empty(value / 10);
    }
}

/// Different numbers are written differently.
pub proof fn lemma_decimal_is_injective(left: nat, right: nat)
    requires
        decimal(left) == decimal(right),
    ensures
        left == right,
    decreases left,
{
    if left < 10 && right < 10 {
        assert(decimal(left)[0] == digit(left as int));
        assert(decimal(right)[0] == digit(right as int));
    } else if left < 10 {
        lemma_decimal_is_not_empty(right / 10);
        assert(decimal(left).len() == 1);
        assert(false);
    } else if right < 10 {
        lemma_decimal_is_not_empty(left / 10);
        assert(decimal(right).len() == 1);
        assert(false);
    } else {
        assert(decimal(left).drop_last() =~= decimal(left / 10));
        assert(decimal(right).drop_last() =~= decimal(right / 10));
        lemma_decimal_is_injective(left / 10, right / 10);
        assert(decimal(left).last() == digit((left % 10) as int));
        assert(decimal(right).last() == digit((right % 10) as int));
    }
}

/// The number that digits stand for, or nothing where another character is among them.
pub open spec fn digits_value(text: Seq<char>) -> Option<int>
    decreases text.len(),
{
    if text.len() == 0 {
        Some(0)
    } else {
        match digits_value(text.drop_last()) {
            Some(value) => if '0' <= text.last() <= '9' {
                Some(value * 10 + (text.last() as int - 48))
            } else {
                None
            },
            None => None,
        }
    }
}

/// The index that the text writes: an optional plus sign and at least one digit, within `usize`.
pub open spec fn written_index(text: Seq<char>) -> Option<int> {
    let digits = if text.len() > 0 && text[0] == '+' {
        text.skip(1)
    } else {
        text
    };
    if digits.len() == 0 {
        None
    } else {
        match digits_value(digits) {
            Some(value) => if value <= usize::MAX {
                Some(value)
            } else {
                None
            },
            None => None,
        }
    }
}

/// Digits behind digits: a number only grows, and a foreign character stays foreign.
proof fn lemma_digits_grow(text: Seq<char>, length: int)
    requires
        0 <= length <= text.len(),
    ensures
        digits_value(text.take(length)) is None ==> digits_value(text) is None,
        digits_value(text) is Some ==> digits_value(text.take(length)) is Some && digits_value(text.take(length))->Some_0
            <= digits_value(text)->Some_0,
        digits_value(text) is Some ==> digits_value(text)->Some_0 >= 0,
    decreases text.len(),
{
    if length < text.len() {
        lemma_digits_grow(text.drop_last(), length);
        assert(text.drop_last().take(length) =~= text.take(length));
    } else {
        assert(text.take(length) =~= text);
        if text.len() > 0 {
            lemma_digits_grow(text.drop_last(), text.len() - 1);
        }
    }
}

/// Reads a character's digit.
fn digit_of(character: char) -> (value: Option<usize>)
    ensures
        value is Some <==> '0' <= character <= '9',
        value matches Some(value) ==> value == character as int - 48,
{
    if '0' <= character && character <= '9' {
        let code: u32 = character as u32;
        Some((code - 48) as usize)
    } else {
        None
    }
}

/// Reads an index as `usize` is parsed from text.
pub fn parse_index(text: &str) -> (index: Option<usize>)
    ensures
        match index {
            Some(value) => written_index(text@) == Some(value as int),
            None => written_index(text@) is None,
        },
{
    let length: usize = text.unicode_len();
    let mut at: usize = 0;
    if length > 0 && text.get_char(0) == '+' {
        at = 1;
    }
    let ghost start = at as int;
    let ghost digits = text@.skip(start);
    proof {
        if start == 0 {
            assert(text@.skip(0) =~= text@);
        }
    }
    if at == length {
        return None;
    }
    let mut value: usize = 0;
    assert(digits.take(0) =~= Seq::<char>::empty());
    while at < length
        invariant
            length == text@.len(),
            0 <= start <= at <= length,
            start < length,
            digits == text@.skip(start),
            digits_value(digits.take(at - start)) == Some(value as int),
            written_index(text@) == (match digits_value(digits) {
                Some(value) => if value <= usize::MAX {
                    Some(value)
                } else {
                    None
                },
                None => None,
            }),
        decreases length - at,
    {
        let ghost before = digits.take(at - start);
        let ghost after = digits.take(at - start + 1);
        let character: char = text.get_char(at);
        proof {
            assert(after.drop_last() =~= before);
            assert(after.last() == text@[at as int]);
            lemma_digits_grow(digits, at - start + 1);
        }
        match digit_of(character) {
            None => {
                return None;
            },
            Some(read) => {
                match value.checked_mul(10) {
                    None => {
                        return None;
                    },
                    Some(shifted) => match shifted.checked_add(read) {
                        None => {
                            return None;
                        },
                        Some(sum) => {
                            value = sum;
                        },
                    },
                }
            },
        }
        at = at + 1;
    }
    assert(digits.take(length - start) =~= digits);
    Some(value)
}

} // verus!
