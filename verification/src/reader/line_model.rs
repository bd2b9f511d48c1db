//! The meaning of a read, as mathematics.
//!
//! A line is scanned byte by byte from its start to the first line terminator
//! or comment byte. The scan keeps the state of the tokenizer, the number of
//! the field it is in, and the bytes of the kept fields. When the line ends it
//! is skipped, kept as a row, or refused. The rows of an input are the kept
//! lines from its start, up to a cap.

use vstd::prelude::*;
use crate::reader::ReaderError;
use crate::reader::classify::{ByteClass, class_of, is_blank, is_eol};
use crate::reader::parser_core::ParserState;

verus! {

/// What the tokenizer goes by: comment byte, delimiter, the kept columns as
/// 1-based field numbers (none: all are kept) and the number of fields of a
/// line.
pub struct Rules {
    pub cmt: u8,
    pub delim_ws: bool,
    pub delim: u8,
    pub cols: Seq<int>,
    pub tot_fields: int,
}

/// One kept field of a line: the slot it goes to (1-based position among the
/// kept columns) and its bytes, blanks left out.
pub struct Cell {
    pub slot: int,
    pub bytes: Seq<u8>,
}

/// The scan of a line up to some byte.
///
/// `counter` is the number of the field that the scan is in, or of the next
/// one after a separator. `cells` are the kept fields that have ended, `open`
/// the bytes so far of a kept field that has not, and `slot` is where that
/// field goes. `gap` says that a kept column was passed with only blanks in it.
pub struct LineScan {
    pub state: ParserState,
    pub counter: int,
    pub slot: int,
    pub gap: bool,
    pub cells: Seq<Cell>,
    pub open: Seq<u8>,
}

/// The first index from `i` on at which `cols` holds `x`, or the length of
/// `cols` if there is none.
pub open spec fn find_from(cols: Seq<int>, x: int, i: int) -> int
    decreases cols.len() - i,
{
    if i < 0 || i >= cols.len() {
        cols.len() as int
    } else if cols[i] == x {
        i
    } else {
        find_from(cols, x, i + 1)
    }
}

/// The slot of field number `k` (1-based), or 0 if the field is not kept.
/// Without a column filter, field `k` goes to slot `k`. With one, it goes to
/// the position of the first entry of the filter that names it.
pub open spec fn select(r: Rules, k: int) -> int {
    if r.cols.len() == 0 {
        if 1 <= k <= r.tot_fields {
            k
        } else {
            0
        }
    } else {
        let p = find_from(r.cols, k, 0);
        if p < r.cols.len() {
            p + 1
        } else {
            0
        }
    }
}

/// The scan at the start of a line.
pub open spec fn start_of_line() -> LineScan {
    LineScan {
        state: ParserState::NwLine,
        counter: 0,
        slot: 0,
        gap: false,
        cells: Seq::empty(),
        open: Seq::empty(),
    }
}

/// The scan after a separator: the explicit delimiter, or a blank where
/// blanks separate.
pub open spec fn separate(r: Rules, s: LineScan) -> LineScan {
    match s.state {
        ParserState::NwLine => LineScan { state: ParserState::Delim, counter: 1, ..s },
        ParserState::Delim => s,
        ParserState::Space => LineScan {
            state: ParserState::Delim,
            counter: s.counter + 1,
            gap: s.gap || (s.counter > 0 && select(r, s.counter) != 0),
            ..s
        },
        ParserState::Field => LineScan {
            state: ParserState::Delim,
            counter: s.counter + 1,
            cells: s.cells.push(Cell { slot: s.slot, bytes: s.open }),
            open: Seq::empty(),
            ..s
        },
        ParserState::SkField => LineScan { state: ParserState::Delim, counter: s.counter + 1, ..s },
    }
}

/// The scan after a blank where an explicit byte separates: padding before a
/// field, and no part of a field that it stands in.
pub open spec fn pad(s: LineScan) -> LineScan {
    match s.state {
        ParserState::NwLine | ParserState::Delim | ParserState::Space => LineScan {
            state: ParserState::Space,
            ..s
        },
        ParserState::Field | ParserState::SkField => s,
    }
}

/// The scan after field number `s.counter` starts with byte `b`.
pub open spec fn open_field(r: Rules, s: LineScan, b: u8) -> LineScan {
    let slot = select(r, s.counter);
    if slot != 0 {
        LineScan { state: ParserState::Field, slot: slot, open: seq![b], ..s }
    } else {
        LineScan { state: ParserState::SkField, ..s }
    }
}

/// The scan after a content byte.
pub open spec fn content(r: Rules, s: LineScan, b: u8) -> LineScan {
    match s.state {
        ParserState::NwLine => open_field(r, LineScan { counter: 1, ..s }, b),
        ParserState::Delim => open_field(r, s, b),
        ParserState::Space => open_field(
            r,
            LineScan { counter: if s.counter == 0 { 1 } else { s.counter }, ..s },
            b,
        ),
        ParserState::Field => LineScan { open: s.open.push(b), ..s },
        ParserState::SkField => s,
    }
}

/// One step of the scan, on a byte that does not end the line.
pub open spec fn step(r: Rules, s: LineScan, b: u8) -> LineScan {
    match class_of(b, r.delim_ws, r.delim, r.cmt) {
        ByteClass::Delimiter => separate(r, s),
        ByteClass::Whitespace => if r.delim_ws {
            separate(r, s)
        } else {
            pad(s)
        },
        ByteClass::Content => content(r, s, b),
        _ => s,
    }
}

/// The scan of a whole run of bytes, from the start of a line.
pub open spec fn scan(r: Rules, line: Seq<u8>) -> LineScan
    decreases line.len(),
{
    if line.len() == 0 {
        start_of_line()
    } else {
        step(r, scan(r, line.drop_last()), line.last())
    }
}

/// The number of fields that a line is found to hold when it ends in scan
/// `s`. After a separator the counter is one ahead.
pub open spec fn observed(s: LineScan) -> int {
    match s.state {
        ParserState::NwLine => 0,
        ParserState::Delim => s.counter - 1,
        _ => s.counter,
    }
}

/// What becomes of a line.
pub enum LineEnd {
    /// Blank or comment: not counted.
    Skip,
    /// Kept, with these fields.
    Row(Seq<Cell>),
    /// Refused: it holds this many fields, not as many as the first kept line.
    BadCount(int),
    /// Refused: it ends with the explicit delimiter.
    BareDelimiter,
    /// Refused: a kept column holds only blanks.
    Gap,
}

/// The kept fields of a line that ends in scan `s`: the field that is open
/// ends with the line.
pub open spec fn closed_cells(s: LineScan) -> Seq<Cell> {
    if s.state == ParserState::Field {
        s.cells.push(Cell { slot: s.slot, bytes: s.open })
    } else {
        s.cells
    }
}

/// Whether a line that ends in scan `s` passed a kept column without content.
pub open spec fn has_gap(r: Rules, s: LineScan) -> bool {
    s.gap || (s.state == ParserState::Space && select(r, s.counter) != 0)
}

/// What becomes of a line that ends in scan `s`.
pub open spec fn close(r: Rules, s: LineScan) -> LineEnd {
    if s.state == ParserState::Delim && !r.delim_ws {
        LineEnd::BareDelimiter
    } else if observed(s) == 0 {
        LineEnd::Skip
    } else if observed(s) != r.tot_fields {
        LineEnd::BadCount(observed(s))
    } else if has_gap(r, s) {
        LineEnd::Gap
    } else {
        LineEnd::Row(closed_cells(s))
    }
}

/// Whether `b` ends the scan of a line: a line terminator or a comment byte.
pub open spec fn is_stop(r: Rules, b: u8) -> bool {
    let c = class_of(b, r.delim_ws, r.delim, r.cmt);
    c == ByteClass::Newline || c == ByteClass::Comment
}

/// The first index from `i` on at which a byte of `s` ends the scan, or the
/// length of `s`.
pub open spec fn stop_from(r: Rules, s: Seq<u8>, i: int) -> int
    decreases s.len() - i,
{
    if i < 0 || i >= s.len() {
        s.len() as int
    } else if is_stop(r, s[i]) {
        i
    } else {
        stop_from(r, s, i + 1)
    }
}

/// The first index from `i` on at which `s` holds a line terminator, or the
/// length of `s`.
pub open spec fn eol_from(s: Seq<u8>, i: int) -> int
    decreases s.len() - i,
{
    if i < 0 || i >= s.len() {
        s.len() as int
    } else if is_eol(s[i]) {
        i
    } else {
        eol_from(s, i + 1)
    }
}

/// The index just behind the first line terminator from `i` on, or the length
/// of `s`.
pub open spec fn after_eol(s: Seq<u8>, i: int) -> int {
    let j = eol_from(s, i);
    if j < s.len() {
        j + 1
    } else {
        s.len() as int
    }
}

/// The bytes of the first line of `s` that are scanned.
pub open spec fn first_line(r: Rules, s: Seq<u8>) -> Seq<u8> {
    s.take(stop_from(r, s, 0))
}

/// The number of bytes that the first line of `s` takes, its terminator
/// included. What follows a comment byte belongs to the line.
pub open spec fn line_span(r: Rules, s: Seq<u8>) -> int {
    after_eol(s, stop_from(r, s, 0))
}

/// The error for a refused line. `line` is its 1-based number.
pub open spec fn refusal(r: Rules, end: LineEnd, line: int) -> ReaderError {
    match end {
        LineEnd::BareDelimiter => ReaderError::TrailingDelimiter { line: line as usize },
        LineEnd::Gap => ReaderError::MissingField { line: line as usize },
        LineEnd::BadCount(n) => ReaderError::FieldCount {
            line: line as usize,
            found: n as usize,
            expected: r.tot_fields as usize,
        },
        _ => ReaderError::FieldCount { line: line as usize, found: 0, expected: r.tot_fields as usize },
    }
}

/// `rows` in front of what a later part of the input gives.
pub open spec fn prepend(rows: Seq<Seq<Cell>>, rest: Result<Seq<Seq<Cell>>, ReaderError>) -> Result<
    Seq<Seq<Cell>>,
    ReaderError,
> {
    match rest {
        Ok(more) => Ok(rows + more),
        Err(e) => Err(e),
    }
}

/// The rows of `s`: the kept lines in order, at most `cap` of them, or the
/// error of the first refused line among those that are scanned. `passed` is
/// the number of lines before `s`.
///
/// A line of an input that is not empty takes at least one byte; the test for
/// that is here, and in the functions below, so that the recursion is seen to
/// end.
pub open spec fn rows(r: Rules, s: Seq<u8>, passed: int, cap: int) -> Result<
    Seq<Seq<Cell>>,
    ReaderError,
>
    decreases s.len(),
{
    if cap <= 0 || s.len() == 0 {
        Ok(Seq::empty())
    } else {
        let rest = s.skip(line_span(r, s));
        if line_span(r, s) <= 0 {
            Ok(Seq::empty())
        } else {
            match close(r, scan(r, first_line(r, s))) {
                LineEnd::Skip => rows(r, rest, passed + 1, cap),
                LineEnd::Row(cells) => prepend(seq![cells], rows(r, rest, passed + 1, cap - 1)),
                end => Err(refusal(r, end, passed + 1)),
            }
        }
    }
}

/// All that `rows` hold, row after row.
pub open spec fn flat<A>(rows: Seq<Seq<A>>) -> Seq<A>
    decreases rows.len(),
{
    if rows.len() == 0 {
        Seq::empty()
    } else {
        flat(rows.drop_last()) + rows.last()
    }
}

/// The first index from `i` on at which `s` holds a byte that is no blank, or
/// the length of `s`.
pub open spec fn mark_from(s: Seq<u8>, i: int) -> int
    decreases s.len() - i,
{
    if i < 0 || i >= s.len() {
        s.len() as int
    } else if !is_blank(s[i]) {
        i
    } else {
        mark_from(s, i + 1)
    }
}

/// Whether the first line of `s` is usable: its first byte that is no blank
/// is neither a line terminator nor the comment byte.
pub open spec fn first_usable(s: Seq<u8>, com: u8) -> bool {
    let k = mark_from(s, 0);
    k < s.len() && !is_eol(s[k]) && s[k] != com
}

/// The number of bytes that the first line of `s` takes, for the count of
/// usable lines: up to and with the first line terminator.
pub open spec fn plain_span(s: Seq<u8>) -> int {
    after_eol(s, mark_from(s, 0))
}

/// The number of usable lines of `s`.
pub open spec fn usable_lines(s: Seq<u8>, com: u8) -> int
    decreases s.len(),
{
    if s.len() == 0 || plain_span(s) <= 0 {
        0
    } else {
        (if first_usable(s, com) { 1int } else { 0int }) + usable_lines(s.skip(plain_span(s)), com)
    }
}

/// The number of bytes that the first `n` usable lines of `s` take, with the
/// blank and comment lines before and between them.
pub open spec fn header_span(s: Seq<u8>, com: u8, n: int) -> int
    decreases s.len(),
{
    if n <= 0 || s.len() == 0 || plain_span(s) <= 0 {
        0
    } else {
        plain_span(s) + header_span(
            s.skip(plain_span(s)),
            com,
            if first_usable(s, com) { n - 1 } else { n },
        )
    }
}

/// The number of lines among those bytes. Blanks at the end of the input
/// with no terminator behind them are no line.
pub open spec fn header_lines(s: Seq<u8>, com: u8, n: int) -> int
    decreases s.len(),
{
    if n <= 0 || s.len() == 0 || plain_span(s) <= 0 {
        0
    } else {
        (if mark_from(s, 0) < s.len() { 1int } else { 0int }) + header_lines(
            s.skip(plain_span(s)),
            com,
            if first_usable(s, com) { n - 1 } else { n },
        )
    }
}

/// The rules for counting fields only: no column is kept.
pub open spec fn counting_rules(cmt: u8, delim: u8, delim_ws: bool) -> Rules {
    Rules { cmt: cmt, delim_ws: delim_ws, delim: delim, cols: Seq::empty(), tot_fields: 0 }
}

/// The number of fields of the first line of `s` that is found to hold any,
/// or 0 if no line does.
pub open spec fn first_field_count(r: Rules, s: Seq<u8>) -> int
    decreases s.len(),
{
    if s.len() == 0 || line_span(r, s) <= 0 {
        0
    } else {
        let n = observed(scan(r, first_line(r, s)));
        if n > 0 {
            n
        } else {
            first_field_count(r, s.skip(line_span(r, s)))
        }
    }
}

/// The number of kept fields per line under `r`.
pub open spec fn kept_fields(r: Rules) -> int {
    if r.cols.len() == 0 {
        r.tot_fields
    } else {
        r.cols.len() as int
    }
}

/// What holds of every scan of a line.
pub open spec fn scan_ok(r: Rules, s: LineScan) -> bool {
    &&& s.counter >= 0
    &&& (s.state == ParserState::NwLine ==> s.counter == 0)
    &&& (s.state == ParserState::Delim || s.state == ParserState::Field || s.state
        == ParserState::SkField ==> s.counter >= 1)
    &&& (s.state == ParserState::Field ==> s.open.len() > 0 && s.slot == select(r, s.counter)
        && s.slot != 0)
    &&& (s.state != ParserState::Field ==> s.open.len() == 0)
    &&& (s.cells.len() > 0 || s.gap ==> s.counter >= 2)
    &&& forall|i: int|
        0 <= i < s.cells.len() ==> 1 <= (#[trigger] s.cells[i]).slot <= kept_fields(r)
            && s.cells[i].bytes.len() > 0
}

} // verus!
