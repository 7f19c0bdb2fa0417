//! Text as sequences of characters.

use vstd::prelude::*;
use vstd::string::StringExecFns;

verus! {

/// The characters of a text that may be absent.
pub open spec fn view(text: Option<String>) -> Option<Seq<char>> {
    match text {
        Some(text) => Some(text@),
        None => None,
    }
}

/// A decimal digit.
pub open spec fn digit(value: nat) -> char {
    (value % 10 + 48) as char
}

/// A number in decimal, without leading zeros.
pub open spec fn decimal(value: nat) -> Seq<char>
    decreases value,
{
    if value < 10 {
        seq![digit(value)]
    } else {
        decimal(value / 10).push(digit(value))
    }
}

/// A number is written digit by digit: another digit behind a number that is not zero makes ten times
/// it and the digit, and a number below ten is its one digit.
pub proof fn law_decimals_are_written_digit_by_digit(value: nat, last: nat)
    requires
        last < 10,
    ensures
        decimal(last) == seq![(48 + last) as char],
        value > 0 ==> decimal(10 * value + last) == decimal(value).push((48 + last) as char),
{
    assert((10 * value + last) / 10 == value);
    assert((10 * value + last) % 10 == last);
}

fn digit_text(value: u64) -> (r: &'static str)
    requires
        value < 10,
    ensures
        r@ == seq![digit(value as nat)],
{
    proof {
        reveal_strlit("0");
        reveal_strlit("1");
        reveal_strlit("2");
        reveal_strlit("3");
        reveal_strlit("4");
        reveal_strlit("5");
        reveal_strlit("6");
        reveal_strlit("7");
        reveal_strlit("8");
        reveal_strlit("9");
    }
    let r = match value {
        0 => "0",
        1 => "1",
        2 => "2",
        3 => "3",
        4 => "4",
        5 => "5",
        6 => "6",
        7 => "7",
        8 => "8",
        _ => "9",
    };
    assert(r@ =~= seq![digit(value as nat)]);
    r
}

/// Writes a number in decimal.
pub fn push_decimal(out: &mut String, value: u64)
    ensures
        final(out)@ == old(out)@ + decimal(value as nat),
    decreases value,
{
    if value >= 10 {
        push_decimal(out, value / 10);
        out.append(digit_text(value % 10));
    } else {
        out.append(digit_text(value));
    }
    assert(out@ =~= old(out)@ + decimal(value as nat));
}

/// `part` stands somewhere in `text`.
pub open spec fn mentions(text: Seq<char>, part: Seq<char>) -> bool {
    exists|from: int| 0 <= from <= text.len() - part.len() && #[trigger] text.subrange(from, from + part.len()) == part
}

/// A character in lower case, where it is an ASCII letter.
pub open spec fn lower(c: char) -> char {
    if 'A' <= c <= 'Z' {
        (c as u32 + 32) as char
    } else {
        c
    }
}

/// A text with its ASCII letters in lower case.
pub open spec fn lowered(text: Seq<char>) -> Seq<char> {
    text.map_values(|c: char| lower(c))
}

/// A part is found wherever it stands in a text, and only where the text holds it whole.
pub proof fn law_a_part_is_found_wherever_it_stands(before: Seq<char>, part: Seq<char>, after: Seq<char>, text: Seq<char>)
    ensures
        mentions(before + part + after, part),
        mentions(text, part) ==> exists|head: Seq<char>, tail: Seq<char>| text == #[trigger] (head + part + tail),
{
    let whole = before + part + after;
    assert(whole.subrange(before.len() as int, before.len() as int + part.len()) =~= part);
    if mentions(text, part) {
        let from = choose|from: int| 0 <= from <= text.len() - part.len() && #[trigger] text.subrange(from, from + part.len())
            == part;
        let (head, tail) = (text.take(from), text.skip(from + part.len()));
        assert(text =~= head + text.subrange(from, from + part.len()) + tail);
        assert(text == head + part + tail);
    }
}

/// Lower case moves each capital letter of ASCII by 32 and leaves every other character.
pub proof fn law_lower_case_is_that_of_ascii(text: Seq<char>, i: int)
    requires
        0 <= i < text.len(),
    ensures
        lowered(text).len() == text.len(),
        65 <= text[i] as int <= 90 ==> lowered(text)[i] as int == text[i] as int + 32,
        !(65 <= text[i] as int <= 90) ==> lowered(text)[i] == text[i],
{
}

} // verus!
