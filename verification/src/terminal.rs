//! The control sequences that redraw the input line, as the terminal library
//! spells them.

use vstd::prelude::*;

verus! {

/// The character that stands for the digit `digit`, which is less than 10.
pub open spec fn digit_char(digit: nat) -> char {
    (0x30 + digit) as char
}

/// `n` in decimal, without leading zeros.
pub open spec fn decimal_text(n: nat) -> Seq<char>
    decreases n,
{
    if n < 10 {
        seq![digit_char(n)]
    } else {
        decimal_text(n / 10).push(digit_char(n % 10))
    }
}

/// The sequence that moves the cursor `columns` columns to the left.
pub open spec fn cursor_left_text(columns: u16) -> Seq<char> {
    "\x1B["@ + decimal_text(columns as nat) + "D"@
}

/// The sequence that clears the line the cursor is on.
pub open spec fn clear_current_line_text() -> Seq<char> {
    "\x1B[2K"@
}

/// The sequence that clears the screen from the cursor on.
pub open spec fn clear_after_cursor_text() -> Seq<char> {
    "\x1B[J"@
}

/// `termion::cursor::Left` as its `Display` writes it: the escape character
/// and `[`, the number of columns in decimal, and `D`.
#[verifier::external_body]
pub(crate) fn cursor_left(columns: u16) -> (sequence: String)
    ensures
        sequence@ == cursor_left_text(columns),
{
    termion::cursor::Left(columns).to_string()
}

/// `termion::clear::CurrentLine` as its `Display` writes it: the escape
/// character and `[2K`.
#[verifier::external_body]
pub(crate) fn clear_current_line() -> (sequence: String)
    ensures
        sequence@ == clear_current_line_text(),
{
    termion::clear::CurrentLine.to_string()
}

/// `termion::clear::AfterCursor` as its `Display` writes it: the escape
/// character and `[J`.
#[verifier::external_body]
pub(crate) fn clear_after_cursor() -> (sequence: String)
    ensures
        sequence@ == clear_after_cursor_text(),
{
    termion::clear::AfterCursor.to_string()
}

} // verus!
