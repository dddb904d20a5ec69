//! The events by which a decoder hands over a result set, and the order in
//! which they are due.

use crate::columns::Column;
use vstd::prelude::*;

verus! {

/// Why a result set cannot be handed out.
#[derive(Debug, Clone, Copy, PartialEq, Eq)]
pub enum DecodeError {
    /// No column list was ever received.
    MissingMetadata,
    /// An event came when it was not due: a second column list, a cell
    /// before the column list or after the end, or a second end.
    OutOfOrder,
    /// The cells do not fill a whole number of rows.
    PartialRow,
}

/// How far the events of a result set have come.
#[derive(Debug, Clone, Copy, PartialEq, Eq)]
pub struct Progress {
    /// Whether the column list has arrived.
    pub has_metadata: bool,
    /// Whether the end has arrived.
    pub done: bool,
    /// Whether any event came when it was not due.
    pub out_of_order: bool,
}

impl Progress {
    /// Before any event.
    pub open spec fn start() -> Progress {
        Progress { has_metadata: false, done: false, out_of_order: false }
    }

    /// The column list is due once, before the end.
    pub open spec fn admits_metadata(self) -> bool {
        !self.has_metadata && !self.done
    }

    /// A cell is due after the column list and before the end.
    pub open spec fn admits_cell(self) -> bool {
        self.has_metadata && !self.done
    }

    /// The end is due once.
    pub open spec fn admits_done(self) -> bool {
        !self.done
    }

    /// The progress after a column list came.
    pub open spec fn after_metadata(self) -> Progress {
        if self.admits_metadata() {
            Progress { has_metadata: true, ..self }
        } else {
            Progress { out_of_order: true, ..self }
        }
    }

    /// The progress after a cell came.
    pub open spec fn after_cell(self) -> Progress {
        if self.admits_cell() {
            self
        } else {
            Progress { out_of_order: true, ..self }
        }
    }

    /// The progress after the end came.
    pub open spec fn after_done(self) -> Progress {
        if self.admits_done() {
            Progress { done: true, ..self }
        } else {
            Progress { out_of_order: true, ..self }
        }
    }

    /// What stands against handing the result set out, as far as the order
    /// of the events goes: a missing column list before anything else.
    pub open spec fn fault(self) -> Option<DecodeError> {
        if !self.has_metadata {
            Some(DecodeError::MissingMetadata)
        } else if self.out_of_order {
            Some(DecodeError::OutOfOrder)
        } else {
            None
        }
    }

    /// The progress before any event.
    pub fn new() -> (p: Progress)
        ensures
            p == Progress::start(),
    {
        Progress { has_metadata: false, done: false, out_of_order: false }
    }

    /// Notes that a column list came, and tells whether it was due.
    pub fn note_metadata(&mut self) -> (due: bool)
        ensures
            due == old(self).admits_metadata(),
            *final(self) == old(self).after_metadata(),
    {
        let due = !self.has_metadata && !self.done;
        if due {
            self.has_metadata = true;
        } else {
            self.out_of_order = true;
        }
        due
    }

    /// Notes that a cell came, and tells whether it was due.
    pub fn note_cell(&mut self) -> (due: bool)
        ensures
            due == old(self).admits_cell(),
            *final(self) == old(self).after_cell(),
    {
        let due = self.has_metadata && !self.done;
        if !due {
            self.out_of_order = true;
        }
        due
    }

    /// Notes that the end came, and tells whether it was due.
    pub fn note_done(&mut self) -> (due: bool)
        ensures
            due == old(self).admits_done(),
            *final(self) == old(self).after_done(),
    {
        let due = !self.done;
        if due {
            self.done = true;
        } else {
            self.out_of_order = true;
        }
        due
    }

    /// Tells what stands against handing the result set out.
    pub fn check(&self) -> (r: Option<DecodeError>)
        ensures
            r == self.fault(),
    {
        if !self.has_metadata {
            Some(DecodeError::MissingMetadata)
        } else if self.out_of_order {
            Some(DecodeError::OutOfOrder)
        } else {
            None
        }
    }
}

/// A receiver of one result set. The decoder calls `on_metadata` once, then
/// one `write_` method for each cell, row after row and within a row column
/// after column, then `on_done` once. An event that comes when it is not due
/// is not taken; the sink notes it, and the result set is not handed out.
/// The column index that the `write_` methods take tells which column the
/// cell belongs to; the cells count by the order in which they arrive.
///
/// A floating-point cell arrives as the bits of its IEEE-754 number.
pub trait RowSink {
    /// What the sink keeps true of itself from one event to the next. A new
    /// sink is well formed, and every event leaves it so.
    spec fn well_formed(&self) -> bool;

    /// How far the events have come.
    spec fn progress(&self) -> Progress;

    /// The columns of the result set, in their order.
    fn on_metadata(&mut self, columns: &[Column])
        requires
            old(self).well_formed(),
        ensures
            final(self).well_formed(),
            final(self).progress() == old(self).progress().after_metadata(),
    ;

    /// A cell without a value.
    fn write_null(&mut self, col: usize)
        requires
            old(self).well_formed(),
        ensures
            final(self).well_formed(),
            final(self).progress() == old(self).progress().after_cell(),
    ;

    fn write_bool(&mut self, col: usize, v: bool)
        requires
            old(self).well_formed(),
        ensures
            final(self).well_formed(),
            final(self).progress() == old(self).progress().after_cell(),
    ;

    fn write_u8(&mut self, col: usize, v: u8)
        requires
            old(self).well_formed(),
        ensures
            final(self).well_formed(),
            final(self).progress() == old(self).progress().after_cell(),
    ;

    fn write_i16(&mut self, col: usize, v: i16)
        requires
            old(self).well_formed(),
        ensures
            final(self).well_formed(),
            final(self).progress() == old(self).progress().after_cell(),
    ;

    fn write_i32(&mut self, col: usize, v: i32)
        requires
            old(self).well_formed(),
        ensures
            final(self).well_formed(),
            final(self).progress() == old(self).progress().after_cell(),
    ;

    fn write_i64(&mut self, col: usize, v: i64)
        requires
            old(self).well_formed(),
        ensures
            final(self).well_formed(),
            final(self).progress() == old(self).progress().after_cell(),
    ;

    /// A single, by its 32 bits.
    fn write_f32(&mut self, col: usize, bits: u32)
        requires
            old(self).well_formed(),
        ensures
            final(self).well_formed(),
            final(self).progress() == old(self).progress().after_cell(),
    ;

    /// A double, by its 64 bits.
    fn write_f64(&mut self, col: usize, bits: u64)
        requires
            old(self).well_formed(),
        ensures
            final(self).well_formed(),
            final(self).progress() == old(self).progress().after_cell(),
    ;

    fn write_str(&mut self, col: usize, v: &str)
        requires
            old(self).well_formed(),
        ensures
            final(self).well_formed(),
            final(self).progress() == old(self).progress().after_cell(),
    ;

    fn write_bytes(&mut self, col: usize, v: &[u8])
        requires
            old(self).well_formed(),
        ensures
            final(self).well_formed(),
            final(self).progress() == old(self).progress().after_cell(),
    ;

    fn write_guid(&mut self, col: usize, v: &[u8; 16])
        requires
            old(self).well_formed(),
        ensures
            final(self).well_formed(),
            final(self).progress() == old(self).progress().after_cell(),
    ;

    /// The fixed-point number `value / 10^scale`.
    fn write_decimal(&mut self, col: usize, value: i128, precision: u8, scale: u8)
        requires
            old(self).well_formed(),
        ensures
            final(self).well_formed(),
            final(self).progress() == old(self).progress().after_cell(),
    ;

    /// A date, in days from 1970-01-01.
    fn write_date(&mut self, col: usize, unix_days: i32)
        requires
            old(self).well_formed(),
        ensures
            final(self).well_formed(),
            final(self).progress() == old(self).progress().after_cell(),
    ;

    /// A time of day, in nanoseconds from midnight.
    fn write_time(&mut self, col: usize, nanos: i64)
        requires
            old(self).well_formed(),
        ensures
            final(self).well_formed(),
            final(self).progress() == old(self).progress().after_cell(),
    ;

    /// An instant, in microseconds from 1970-01-01T00:00:00.
    fn write_datetime(&mut self, col: usize, micros: i64)
        requires
            old(self).well_formed(),
        ensures
            final(self).well_formed(),
            final(self).progress() == old(self).progress().after_cell(),
    ;

    /// An instant and its offset from UTC in minutes.
    fn write_datetimeoffset(&mut self, col: usize, micros: i64, offset_minutes: i16)
        requires
            old(self).well_formed(),
        ensures
            final(self).well_formed(),
            final(self).progress() == old(self).progress().after_cell(),
    ;

    /// The end of the result set, with the number of rows affected.
    fn on_done(&mut self, rows: u64)
        requires
            old(self).well_formed(),
        ensures
            final(self).well_formed(),
            final(self).progress() == old(self).progress().after_done(),
    ;
}

} // verus!
