//! What the terminal printer is told: log lines, and a status line that stays
//! below them.
use vstd::prelude::*;

verus! {

/// The status line: plain or in magenta.
#[derive(Debug)]
pub enum State {
    Print(String),
    Magenta(String),
}

/// A message for the printer.
#[derive(Debug)]
pub enum PrintMessage {
    Log(String),
    State(State),
}

/// The row where log output resumes: the first row of the status block,
/// which ends at the cursor's row and is `state_lines` rows high.
pub fn log_row(cursor_row: u16, state_lines: u16) -> (r: u16)
    requires
        state_lines <= cursor_row,
        cursor_row - state_lines < u16::MAX,
    ensures
        r == cursor_row - state_lines + 1,
{
    cursor_row - state_lines + 1
}

} // verus!
