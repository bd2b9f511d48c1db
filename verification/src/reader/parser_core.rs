//! The tokenizer: a state machine over the bytes of the input.
//!
//! Each byte is classified and moves the machine from one state to the next.
//! The bytes of the kept fields go to a store as they are read; a line
//! terminator or comment byte ends the line, which is then checked and
//! counted.

use vstd::prelude::*;
use crate::reader::ReaderError;
use crate::reader::classify::{ByteClass, classify};
use crate::reader::line_lemmas::lemma_select_range;
use crate::reader::line_model::{
    Cell, LineEnd, LineScan, Rules, after_eol, close, closed_cells, content, find_from, is_stop,
    kept_fields, observed, open_field, pad, refusal, scan_ok, select, separate, start_of_line, step,
};
use crate::reader::parser_utility::find_eol;
use crate::reader::raw_results::{
    RawReaderParse, lemma_route_close, lemma_route_idle, lemma_route_open, lemma_route_push, route,
};

verus! {

/// The state of the tokenizer between two bytes.
#[derive(Clone, Copy, Debug, PartialEq, Eq, Structural)]
pub enum ParserState {
    /// At the start of a line.
    NwLine,
    /// Behind a separator.
    Delim,
    /// In padding before a field.
    Space,
    /// In a field that is kept.
    Field,
    /// In a field that is left out.
    SkField,
}

/// What the tokenizer carries besides its state: where it is in the buffer,
/// what it goes by, and its counters.
///
/// `cols` holds the kept columns as 1-based field numbers; empty, all columns
/// are kept. `fln` is the number of lines that have ended. `field_counter` is
/// the number of the field that the tokenizer is in, `current_field` the slot
/// of that field if it is kept. `gap` says that a kept column of the line
/// held only blanks.
pub struct CoreData<'a> {
    pub length: usize,
    pub offset: usize,
    pub cmt: u8,
    pub delim_ws: bool,
    pub delim: u8,
    pub fln: usize,
    pub cols: &'a Vec<usize>,
    pub field_counter: usize,
    pub current_field: usize,
    pub tot_fields: usize,
    pub gap: bool,
}

impl<'a> CoreData<'a> {
    /// What the tokenizer goes by.
    pub open spec fn rules(&self) -> Rules {
        Rules {
            cmt: self.cmt,
            delim_ws: self.delim_ws,
            delim: self.delim,
            cols: self.cols@.map_values(|x: usize| x as int),
            tot_fields: self.tot_fields as int,
        }
    }

    /// The same rules and the same buffer as `other`.
    pub open spec fn same_setup(&self, other: &CoreData) -> bool {
        &&& self.length == other.length
        &&& self.cmt == other.cmt
        &&& self.delim_ws == other.delim_ws
        &&& self.delim == other.delim
        &&& self.cols == other.cols
        &&& self.tot_fields == other.tot_fields
    }

    /// The slot of field number `k`, or 0 if the field is not kept.
    pub fn slot_of(&self, k: usize) -> (slot: usize)
        ensures
            slot == select(self.rules(), k as int),
            slot <= kept_fields(self.rules()),
    {
        proof {
            lemma_select_range(self.rules(), k as int);
        }
        let n = self.cols.len();
        if n == 0 {
            if 1 <= k && k <= self.tot_fields {
                k
            } else {
                0
            }
        } else {
            let mut i: usize = 0;
            while i < n
                invariant
                    i <= n,
                    n == self.cols@.len(),
                    find_from(self.rules().cols, k as int, 0) == find_from(
                        self.rules().cols,
                        k as int,
                        i as int,
                    ),
                decreases n - i,
            {
                if self.cols[i] == k {
                    return i + 1;
                }
                i += 1;
            }
            0
        }
    }
}

/// The tokenizer and its store agree with the scan `scan` of the current
/// line, where `done` are the fields of the lines before it.
pub open spec fn synced<S: RawReaderParse>(
    state: ParserState,
    core: &CoreData,
    sink: &S,
    done: Seq<Cell>,
    scan: LineScan,
) -> bool {
    &&& state == scan.state
    &&& core.field_counter == scan.counter
    &&& core.gap == scan.gap
    &&& (state == ParserState::Field ==> core.current_field == scan.slot)
    &&& scan_ok(core.rules(), scan)
    &&& sink.wf()
    &&& sink.field_total() == kept_fields(core.rules())
    &&& sink.lanes() == route::<S>(
        done + scan.cells,
        scan.slot,
        scan.open,
        S::lane_total(sink.field_total()),
    )
}

impl ParserState {
    /// Starts field number `core.field_counter` with the byte `value`: a kept
    /// field gets its slot and its first byte goes to the store, another one
    /// is left out.
    fn start_field<S: RawReaderParse>(
        core: &mut CoreData,
        sink: &mut S,
        value: u8,
        Ghost(done): Ghost<Seq<Cell>>,
        Ghost(scan): Ghost<LineScan>,
    ) -> (next: ParserState)
        requires
            scan.state != ParserState::Field,
            scan.counter >= 1,
            old(core).field_counter == scan.counter,
            old(core).gap == scan.gap,
            scan.open.len() == 0,
            scan.cells.len() > 0 || scan.gap ==> scan.counter >= 2,
            forall|i: int|
                0 <= i < scan.cells.len() ==> 1 <= (#[trigger] scan.cells[i]).slot <= kept_fields(
                    old(core).rules(),
                ) && scan.cells[i].bytes.len() > 0,
            old(sink).wf(),
            old(sink).field_total() == kept_fields(old(core).rules()),
            old(sink).lanes() == route::<S>(
                done + scan.cells,
                scan.slot,
                scan.open,
                S::lane_total(old(sink).field_total()),
            ),
        ensures
            synced(next, final(core), final(sink), done, open_field(old(core).rules(), scan, value)),
            final(core).same_setup(old(core)),
            final(core).offset == old(core).offset,
            final(core).fln == old(core).fln,
            final(sink).line_total() == old(sink).line_total(),
    {
        let slot = core.slot_of(core.field_counter);
        assert(scan.open =~= Seq::<u8>::empty());
        if slot != 0 {
            proof {
                sink.lane_in_range(slot as int);
                lemma_route_idle::<S>(
                    done + scan.cells,
                    scan.slot,
                    0,
                    S::lane_total(sink.field_total()),
                );
                lemma_route_open::<S>(
                    done + scan.cells,
                    0,
                    slot as int,
                    value,
                    S::lane_total(sink.field_total()),
                );
            }
            core.current_field = slot;
            sink.set_results(value, slot);
            ParserState::Field
        } else {
            ParserState::SkField
        }
    }

    /// The step on the explicit delimiter.
    pub(crate) fn parse_delim<S: RawReaderParse>(
        self,
        core: &mut CoreData,
        sink: &mut S,
        Ghost(done): Ghost<Seq<Cell>>,
        Ghost(scan): Ghost<LineScan>,
    ) -> (next: ParserState)
        requires
            synced(self, old(core), old(sink), done, scan),
            old(core).offset < old(core).length,
            old(core).field_counter <= old(core).offset,
        ensures
            synced(next, final(core), final(sink), done, separate(old(core).rules(), scan)),
            final(core).same_setup(old(core)),
            final(core).offset == old(core).offset + 1,
            final(core).fln == old(core).fln,
            final(core).field_counter <= final(core).offset,
            final(sink).line_total() == old(sink).line_total(),
    {
        core.offset += 1;
        match self {
            ParserState::NwLine => {
                core.field_counter = 1;
            },
            ParserState::Delim => {},
            ParserState::Space => {
                if core.field_counter > 0 && core.slot_of(core.field_counter) != 0 {
                    core.gap = true;
                }
                core.field_counter += 1;
            },
            ParserState::Field => {
                proof {
                    sink.lane_in_range(scan.slot);
                    lemma_select_range(core.rules(), scan.counter);
                    lemma_route_close::<S>(
                        done + scan.cells,
                        scan.slot,
                        scan.open,
                        scan.slot,
                        S::lane_total(sink.field_total()),
                    );
                    assert((done + scan.cells).push(Cell { slot: scan.slot, bytes: scan.open })
                        =~= done + scan.cells.push(Cell { slot: scan.slot, bytes: scan.open }));
                }
                core.field_counter += 1;
                sink.set_index(core.current_field);
            },
            ParserState::SkField => {
                core.field_counter += 1;
            },
        }
        ParserState::Delim
    }

    /// The step on a space or tab: a separator where blanks separate, padding
    /// where an explicit byte does.
    pub(crate) fn parse_whitespace<S: RawReaderParse>(
        self,
        core: &mut CoreData,
        sink: &mut S,
        Ghost(done): Ghost<Seq<Cell>>,
        Ghost(scan): Ghost<LineScan>,
    ) -> (next: ParserState)
        requires
            synced(self, old(core), old(sink), done, scan),
            old(core).offset < old(core).length,
            old(core).field_counter <= old(core).offset,
        ensures
            synced(
                next,
                final(core),
                final(sink),
                done,
                if old(core).delim_ws {
                    separate(old(core).rules(), scan)
                } else {
                    pad(scan)
                },
            ),
            final(core).same_setup(old(core)),
            final(core).offset == old(core).offset + 1,
            final(core).fln == old(core).fln,
            final(core).field_counter <= final(core).offset,
            final(sink).line_total() == old(sink).line_total(),
    {
        if core.delim_ws {
            self.parse_delim(core, sink, Ghost(done), Ghost(scan))
        } else {
            core.offset += 1;
            match self {
                ParserState::NwLine | ParserState::Delim | ParserState::Space => ParserState::Space,
                ParserState::Field => ParserState::Field,
                ParserState::SkField => ParserState::SkField,
            }
        }
    }

    /// The step on a content byte.
    pub(crate) fn parse_others<S: RawReaderParse>(
        self,
        buf_val: u8,
        core: &mut CoreData,
        sink: &mut S,
        Ghost(done): Ghost<Seq<Cell>>,
        Ghost(scan): Ghost<LineScan>,
    ) -> (next: ParserState)
        requires
            synced(self, old(core), old(sink), done, scan),
            old(core).offset < old(core).length,
            old(core).field_counter <= old(core).offset,
        ensures
            synced(next, final(core), final(sink), done, content(old(core).rules(), scan, buf_val)),
            final(core).same_setup(old(core)),
            final(core).offset == old(core).offset + 1,
            final(core).fln == old(core).fln,
            final(core).field_counter <= final(core).offset,
            final(sink).line_total() == old(sink).line_total(),
    {
        core.offset += 1;
        match self {
            ParserState::NwLine => {
                core.field_counter = 1;
                Self::start_field(
                    core,
                    sink,
                    buf_val,
                    Ghost(done),
                    Ghost(LineScan { counter: 1, ..scan }),
                )
            },
            ParserState::Delim => Self::start_field(core, sink, buf_val, Ghost(done), Ghost(scan)),
            ParserState::Space => {
                if core.field_counter == 0 {
                    core.field_counter = 1;
                }
                Self::start_field(
                    core,
                    sink,
                    buf_val,
                    Ghost(done),
                    Ghost(
                        LineScan {
                            counter: if scan.counter == 0 {
                                1
                            } else {
                                scan.counter
                            },
                            ..scan
                        },
                    ),
                )
            },
            ParserState::Field => {
                proof {
                    sink.lane_in_range(scan.slot);
                    lemma_select_range(core.rules(), scan.counter);
                    lemma_route_push::<S>(
                        done + scan.cells,
                        scan.slot,
                        scan.open,
                        buf_val,
                        S::lane_total(sink.field_total()),
                    );
                }
                sink.set_results(buf_val, core.current_field);
                ParserState::Field
            },
            ParserState::SkField => ParserState::SkField,
        }
    }

    /// Ends the line: it is skipped, or checked and counted, or refused.
    pub(crate) fn close_line<S: RawReaderParse>(
        self,
        core: &mut CoreData,
        sink: &mut S,
        Ghost(done): Ghost<Seq<Cell>>,
        Ghost(scan): Ghost<LineScan>,
    ) -> (r: Result<ParserState, ReaderError>)
        requires
            synced(self, old(core), old(sink), done, scan),
            old(core).fln < usize::MAX,
            old(sink).line_total() < usize::MAX,
        ensures
            match close(old(core).rules(), scan) {
                LineEnd::Skip => {
                    &&& r == Ok::<ParserState, ReaderError>(ParserState::NwLine)
                    &&& synced(ParserState::NwLine, final(core), final(sink), done, start_of_line())
                    &&& final(sink).line_total() == old(sink).line_total()
                },
                LineEnd::Row(cells) => {
                    &&& r == Ok::<ParserState, ReaderError>(ParserState::NwLine)
                    &&& synced(
                        ParserState::NwLine,
                        final(core),
                        final(sink),
                        done + cells,
                        start_of_line(),
                    )
                    &&& final(sink).line_total() == old(sink).line_total() + 1
                },
                end => r == Err::<ParserState, ReaderError>(
                    refusal(old(core).rules(), end, old(core).fln + 1),
                ),
            },
            r.is_ok() ==> final(core).same_setup(old(core)) && final(core).fln == old(core).fln + 1
                && final(core).offset == old(core).offset,
    {
        core.fln += 1;
        if self == ParserState::Delim && !core.delim_ws {
            return Err(ReaderError::TrailingDelimiter { line: core.fln });
        }
        let seen = match self {
            ParserState::NwLine => 0,
            ParserState::Delim => core.field_counter - 1,
            _ => core.field_counter,
        };
        assert(seen == observed(scan));
        let ghost n = S::lane_total(sink.field_total());
        if seen == 0 {
            proof {
                assert(done + scan.cells =~= done);
                assert(scan.open =~= Seq::<u8>::empty());
                lemma_route_idle::<S>(done, scan.slot, 0, n);
            }
            core.field_counter = 0;
            core.gap = false;
            return Ok(ParserState::NwLine);
        }
        if seen != core.tot_fields {
            return Err(
                ReaderError::FieldCount { line: core.fln, found: seen, expected: core.tot_fields },
            );
        }
        if core.gap || (self == ParserState::Space && core.slot_of(core.field_counter) != 0) {
            return Err(ReaderError::MissingField { line: core.fln });
        }
        if self == ParserState::Field {
            proof {
                sink.lane_in_range(scan.slot);
                lemma_route_close::<S>(done + scan.cells, scan.slot, scan.open, 0, n);
                assert((done + scan.cells).push(Cell { slot: scan.slot, bytes: scan.open }) =~= done
                    + closed_cells(scan));
            }
            sink.set_index(core.current_field);
        } else {
            proof {
                assert(scan.open =~= Seq::<u8>::empty());
                lemma_route_idle::<S>(done + scan.cells, scan.slot, 0, n);
            }
        }
        sink.incr_num_lines();
        core.field_counter = 0;
        core.gap = false;
        Ok(ParserState::NwLine)
    }

    /// The step on a line terminator: the rest of the line is passed over and
    /// the line ends.
    pub(crate) fn parse_newline<S: RawReaderParse>(
        self,
        buffer: &[u8],
        core: &mut CoreData,
        sink: &mut S,
        Ghost(done): Ghost<Seq<Cell>>,
        Ghost(scan): Ghost<LineScan>,
    ) -> (r: Result<ParserState, ReaderError>)
        requires
            synced(self, old(core), old(sink), done, scan),
            buffer@.len() == old(core).length,
            old(core).offset < old(core).length,
            old(core).fln <= old(core).offset,
            old(sink).line_total() < usize::MAX,
        ensures
            match close(old(core).rules(), scan) {
                LineEnd::Skip => {
                    &&& r == Ok::<ParserState, ReaderError>(ParserState::NwLine)
                    &&& synced(ParserState::NwLine, final(core), final(sink), done, start_of_line())
                    &&& final(sink).line_total() == old(sink).line_total()
                },
                LineEnd::Row(cells) => {
                    &&& r == Ok::<ParserState, ReaderError>(ParserState::NwLine)
                    &&& synced(
                        ParserState::NwLine,
                        final(core),
                        final(sink),
                        done + cells,
                        start_of_line(),
                    )
                    &&& final(sink).line_total() == old(sink).line_total() + 1
                },
                end => r == Err::<ParserState, ReaderError>(
                    refusal(old(core).rules(), end, old(core).fln + 1),
                ),
            },
            r.is_ok() ==> final(core).same_setup(old(core)) && final(core).fln == old(core).fln + 1
                && final(core).offset == after_eol(buffer@, old(core).offset as int),
    {
        core.offset = find_eol(buffer, core.offset);
        self.close_line(core, sink, Ghost(done), Ghost(scan))
    }

    /// The step on a comment byte: as on a line terminator, the rest of the
    /// line is passed over and the line ends.
    pub(crate) fn parse_comment<S: RawReaderParse>(
        self,
        buffer: &[u8],
        core: &mut CoreData,
        sink: &mut S,
        Ghost(done): Ghost<Seq<Cell>>,
        Ghost(scan): Ghost<LineScan>,
    ) -> (r: Result<ParserState, ReaderError>)
        requires
            synced(self, old(core), old(sink), done, scan),
            buffer@.len() == old(core).length,
            old(core).offset < old(core).length,
            old(core).fln <= old(core).offset,
            old(sink).line_total() < usize::MAX,
        ensures
            match close(old(core).rules(), scan) {
                LineEnd::Skip => {
                    &&& r == Ok::<ParserState, ReaderError>(ParserState::NwLine)
                    &&& synced(ParserState::NwLine, final(core), final(sink), done, start_of_line())
                    &&& final(sink).line_total() == old(sink).line_total()
                },
                LineEnd::Row(cells) => {
                    &&& r == Ok::<ParserState, ReaderError>(ParserState::NwLine)
                    &&& synced(
                        ParserState::NwLine,
                        final(core),
                        final(sink),
                        done + cells,
                        start_of_line(),
                    )
                    &&& final(sink).line_total() == old(sink).line_total() + 1
                },
                end => r == Err::<ParserState, ReaderError>(
                    refusal(old(core).rules(), end, old(core).fln + 1),
                ),
            },
            r.is_ok() ==> final(core).same_setup(old(core)) && final(core).fln == old(core).fln + 1
                && final(core).offset == after_eol(buffer@, old(core).offset as int),
    {
        self.parse_newline(buffer, core, sink, Ghost(done), Ghost(scan))
    }

    /// One step of the tokenizer, on the byte at `core.offset`.
    ///
    /// A byte that does not end the line moves the scan of the line by one
    /// step. A line terminator or comment byte ends the line, and the
    /// tokenizer goes on behind the next line terminator.
    pub(crate) fn next<S: RawReaderParse>(
        self,
        buffer: &[u8],
        core: &mut CoreData,
        sink: &mut S,
        Ghost(done): Ghost<Seq<Cell>>,
        Ghost(scan): Ghost<LineScan>,
    ) -> (r: Result<ParserState, ReaderError>)
        requires
            synced(self, old(core), old(sink), done, scan),
            buffer@.len() == old(core).length,
            old(core).offset < old(core).length,
            old(core).fln <= old(core).offset,
            old(core).field_counter <= old(core).offset,
            old(sink).line_total() < usize::MAX,
        ensures
            !is_stop(old(core).rules(), buffer@[old(core).offset as int]) ==> {
                &&& r.is_ok()
                &&& synced(
                    r.unwrap(),
                    final(core),
                    final(sink),
                    done,
                    step(old(core).rules(), scan, buffer@[old(core).offset as int]),
                )
                &&& final(core).offset == old(core).offset + 1
                &&& final(core).fln == old(core).fln
                &&& final(core).field_counter <= final(core).offset
                &&& final(sink).line_total() == old(sink).line_total()
            },
            is_stop(old(core).rules(), buffer@[old(core).offset as int]) ==> match close(
                old(core).rules(),
                scan,
            ) {
                LineEnd::Skip => {
                    &&& r == Ok::<ParserState, ReaderError>(ParserState::NwLine)
                    &&& synced(ParserState::NwLine, final(core), final(sink), done, start_of_line())
                    &&& final(sink).line_total() == old(sink).line_total()
                },
                LineEnd::Row(cells) => {
                    &&& r == Ok::<ParserState, ReaderError>(ParserState::NwLine)
                    &&& synced(
                        ParserState::NwLine,
                        final(core),
                        final(sink),
                        done + cells,
                        start_of_line(),
                    )
                    &&& final(sink).line_total() == old(sink).line_total() + 1
                },
                end => r == Err::<ParserState, ReaderError>(
                    refusal(old(core).rules(), end, old(core).fln + 1),
                ),
            },
            is_stop(old(core).rules(), buffer@[old(core).offset as int]) && r.is_ok() ==> {
                &&& final(core).fln == old(core).fln + 1
                &&& final(core).offset == after_eol(buffer@, old(core).offset as int)
            },
            r.is_ok() ==> final(core).same_setup(old(core)),
    {
        let buf_val = buffer[core.offset];
        match classify(buf_val, core.delim_ws, core.delim, core.cmt) {
            ByteClass::Delimiter => Ok(self.parse_delim(core, sink, Ghost(done), Ghost(scan))),
            ByteClass::Whitespace => Ok(self.parse_whitespace(core, sink, Ghost(done), Ghost(scan))),
            ByteClass::Newline => self.parse_newline(buffer, core, sink, Ghost(done), Ghost(scan)),
            ByteClass::Comment => self.parse_comment(buffer, core, sink, Ghost(done), Ghost(scan)),
            ByteClass::Content => Ok(
                self.parse_others(buf_val, core, sink, Ghost(done), Ghost(scan)),
            ),
        }
    }
}

} // verus!
