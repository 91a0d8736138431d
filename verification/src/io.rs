//! The console line discipline: what a raw input byte does to the line
//! being gathered. Reading the bytes and echoing them belong to the serial
//! driver outside the core; the editing rule itself is verified here.

use vstd::prelude::*;

verus! {

/// What one input byte did to the line.
#[derive(Clone, Copy, PartialEq, Eq, Structural, Debug)]
pub enum LineEvent {
    /// A carriage return: the line is complete.
    Done,
    /// A backspace or delete: the last byte was dropped.
    Erased,
    /// Any other byte: it was appended.
    Added,
}

/// Applies one raw input byte to the gathered line: a carriage return ends
/// the line, backspace and delete drop its last byte, and every other byte
/// is appended.
pub fn read_line_step(line: &mut Vec<u8>, byte: u8) -> (r: LineEvent)
    ensures
        byte == 13 ==> r == LineEvent::Done && final(line)@ == old(line)@,
        (byte == 8 || byte == 127) ==> r == LineEvent::Erased && final(line)@ == (if old(
            line,
        )@.len() > 0 {
            old(line)@.drop_last()
        } else {
            old(line)@
        }),
        !(byte == 13 || byte == 8 || byte == 127) ==> r == LineEvent::Added && final(line)@ == old(
            line,
        )@.push(byte),
    {
    if byte == 13 {
        LineEvent::Done
    } else if byte == 8 || byte == 127 {
        if line.len() > 0 {
            line.pop();
        }
        LineEvent::Erased
    } else {
        line.push(byte);
        LineEvent::Added
    }
}

} // verus!
