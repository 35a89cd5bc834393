//! Text: UTF-8, and the numbers and names that messages show.

use vstd::prelude::*;
use vstd::string::*;
use vstd::utf8::*;

verus! {

/// Declares [`std::io::Error`], which errors of this library carry along.
#[verifier::external_type_specification]
#[verifier::external_body]
pub struct ExIoError(std::io::Error);

/// Calls [`std::string::String::from_utf8`]: text comes back exactly when the
/// bytes are valid UTF-8, and it is the text that they encode.
#[verifier::external_body]
pub(crate) fn text_from_utf8(bytes: Vec<u8>) -> (text: Option<String>)
    ensures
        text is Some <==> valid_utf8(bytes@),
        text matches Some(decoded) ==> decoded@ == decode_utf8(bytes@),
{
    String::from_utf8(bytes).ok()
}

/// Calls [`std::str::from_utf8`]: it accepts exactly the valid UTF-8.
#[verifier::external_body]
pub(crate) fn is_utf8(bytes: &[u8]) -> (valid: bool)
    ensures
        valid == valid_utf8(bytes@),
{
    std::str::from_utf8(bytes).is_ok()
}

/// The text that [`std::string::String::from_utf8_lossy`] makes of bytes.
pub uninterp spec fn lossy_text(bytes: Seq<u8>) -> Seq<char>;

/// Calls [`std::string::String::from_utf8_lossy`]: the text depends on the
/// bytes alone, and is what they encode when they are valid UTF-8. How invalid
/// sequences are replaced is not stated.
#[verifier::external_body]
pub(crate) fn text_from_utf8_lossy(bytes: &[u8]) -> (text: String)
    ensures
        text@ == lossy_text(bytes@),
        valid_utf8(bytes@) ==> text@ == decode_utf8(bytes@),
{
    String::from_utf8_lossy(bytes).into_owned()
}

/// Calls the `to_string` of [`std::io::Error`]. The wording is the operating
/// system's, so nothing is stated about it.
#[verifier::external_body]
pub(crate) fn io_error_text(error: &std::io::Error) -> (text: String) {
    error.to_string()
}

/// Whether the kind of an error, as the `kind` of [`std::io::Error`] gives it,
/// is `UnexpectedEof`.
pub uninterp spec fn ends_early(error: std::io::Error) -> bool;

/// Calls [`std::io::Error`]'s `From<ErrorKind>` for an input that ended before
/// the bytes that were asked for: the error is of the kind it is made from.
#[verifier::external_body]
pub(crate) fn unexpected_end() -> (error: std::io::Error)
    ensures
        ends_early(error),
{
    std::io::Error::from(std::io::ErrorKind::UnexpectedEof)
}

/// The decimal digit for a number below ten.
pub open spec fn digit_char(digit: nat) -> char {
    (48 + digit) as char
}

/// A number in decimal.
pub open spec fn decimal(value: nat) -> Seq<char>
    decreases value,
{
    if value < 10 {
        seq![digit_char(value)]
    } else {
        decimal(value / 10).push(digit_char(value % 10))
    }
}

/// The decimal digit for a number below ten, as text.
fn digit_text(digit: u64) -> (text: &'static str)
    requires
        digit < 10,
    ensures
        text@ == seq![digit_char(digit as nat)],
{
    proof {
        reveal_strlit("0");
        reveal_strlit("1");
        reveal_strlit("2");
        reveal_strlit("3");
        reveal_strlit("4");
        reveal_strlit("5");
        reveal_strlit("6");
        reveal_strlit("7");
        reveal_strlit("8");
        reveal_strlit("9");
    }
    let text: &'static str = match digit {
        0 => "0",
        1 => "1",
        2 => "2",
        3 => "3",
        4 => "4",
        5 => "5",
        6 => "6",
        7 => "7",
        8 => "8",
        _ => "9",
    };
    assert(text@ =~= seq![digit_char(digit as nat)]);
    text
}

/// Appends a number in decimal.
pub fn push_decimal(output: &mut String, value: u64)
    ensures
        final(output)@ == old(output)@ + decimal(value as nat),
    decreases value,
{
    if value >= 10 {
        push_decimal(output, value / 10);
    }
    output.append(digit_text(value % 10));
    assert(output@ =~= old(output)@ + decimal(value as nat));
}

/// The number that decimal digits spell.
pub open spec fn digits_value(digits: Seq<char>) -> int {
    digits.fold_left(0int, |value: int, digit: char| 10 * value + (digit as int - 48))
}

/// A number in decimal is made of digits that spell it, without a zero before
/// them.
pub proof fn law_decimal_spells_number(value: nat)
    ensures
        digits_value(decimal(value)) == value,
        decimal(value).len() > 0,
        forall|i: int| 0 <= i < decimal(value).len() ==> '0' <= #[trigger] decimal(value)[i] <= '9',
        decimal(value).len() > 1 ==> decimal(value)[0] != '0',
    decreases value,
{
    let digits = decimal(value);
    let spell = |value: int, digit: char| 10 * value + (digit as int - 48);
    if value < 10 {
        assert(digits.drop_last() =~= Seq::empty());
        assert(digits.drop_last().fold_left(0int, spell) == 0);
        assert(digits.last() as int == 48 + value);
        assert(digits.fold_left(0int, spell) == value);
    } else {
        law_decimal_spells_number(value / 10);
        assert(digits.drop_last() =~= decimal(value / 10));
        assert(digits.last() as int == 48 + value % 10);
        if decimal(value / 10).len() == 1 {
            assert(decimal(value / 10)[0] as int == 48 + value / 10) by {
                if value / 10 >= 10 {
                    law_decimal_spells_number(value / 100);
                }
            }
        }
    }
}

} // verus!
