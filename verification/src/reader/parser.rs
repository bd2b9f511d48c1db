//! The read itself: from the bytes of an input and the reader's parameters to
//! a raw result.

use vstd::prelude::*;
use vstd::slice::slice_subrange;
use crate::reader::{Delimiter, ReaderError, ReaderParams};
use crate::reader::classify::{LF, SPACE};
use crate::reader::line_lemmas::{
    lemma_flat_push, lemma_line_at, lemma_prepend_push, lemma_scan_push,
};
use crate::reader::line_model::{
    Cell, LineEnd, LineScan, Rules, close, counting_rules, first_field_count, flat, header_lines,
    header_span, is_stop, kept_fields, line_span, prepend, rows, scan, start_of_line, step,
    usable_lines,
};
use crate::reader::parser_core::{CoreData, ParserState, synced};
use crate::reader::parser_utility::{count_num_fields, read_num_file_lines, skip_header_lines};
use crate::reader::raw_results::{RawReaderParse, fresh_lanes, route};

verus! {

/// The rows of a read and the number of kept fields of each.
pub struct RawTable {
    pub fields: int,
    pub rows: Seq<Seq<Cell>>,
}

/// The comment byte of a read. Without comments it is the line feed, which
/// is a line terminator before it is a comment byte.
pub open spec fn comment_byte(p: ReaderParams) -> u8 {
    match p.comments {
        Some(x) => x,
        None => LF,
    }
}

/// The delimiter byte of a read; the space where blanks separate.
pub open spec fn delim_byte(p: ReaderParams) -> u8 {
    match p.delimiter {
        Delimiter::WhiteSpace => SPACE,
        Delimiter::Any(b) => b,
    }
}

/// The number given by an optional parameter; 0 if it is absent.
pub open spec fn or_zero(x: Option<usize>) -> int {
    match x {
        Some(n) => n as int,
        None => 0,
    }
}

/// What is wrong with the skips of a read of `usable` usable lines, if
/// anything.
pub open spec fn skip_error(p: ReaderParams, usable: int) -> Option<ReaderError> {
    if p.skip_header.is_some() && or_zero(p.skip_header) >= usable {
        Some(ReaderError::SkipHeader)
    } else if p.skip_footer.is_some() && or_zero(p.skip_footer) >= usable {
        Some(ReaderError::SkipFooter)
    } else if usable <= or_zero(p.skip_header) + or_zero(p.skip_footer) {
        Some(ReaderError::SkipBoth)
    } else {
        None
    }
}

/// The number of lines to keep: the usable lines between header and footer,
/// and no more than `max_rows`.
pub open spec fn lines_to_read(p: ReaderParams, usable: int) -> int {
    let between = usable - or_zero(p.skip_header) - or_zero(p.skip_footer);
    match p.max_rows {
        Some(x) => if between > x {
            x as int
        } else {
            between
        },
        None => between,
    }
}

/// The 0-based columns that a read names.
pub open spec fn named_cols(p: ReaderParams) -> Seq<usize> {
    match p.usecols {
        Some(v) => v@,
        None => Seq::empty(),
    }
}

/// What is wrong with the named columns for lines of `tot` fields, if
/// anything.
pub open spec fn cols_error(named: Seq<usize>, tot: int) -> Option<ReaderError> {
    if named.len() > tot {
        Some(ReaderError::TooManyColumns { fields: tot as usize })
    } else if exists|i: int| 0 <= i < named.len() && named[i] >= tot {
        Some(ReaderError::ColumnOutOfRange { fields: tot as usize })
    } else if exists|i: int, j: int| 0 <= i < j < named.len() && named[i] == named[j] {
        Some(ReaderError::RepeatedColumn)
    } else {
        None
    }
}

/// The rules of a read whose lines hold `tot` fields.
pub open spec fn rules_of(p: ReaderParams, tot: int) -> Rules {
    Rules {
        cmt: comment_byte(p),
        delim_ws: p.delimiter == Delimiter::WhiteSpace,
        delim: delim_byte(p),
        cols: named_cols(p).map_values(|c: usize| c + 1),
        tot_fields: tot,
    }
}

/// Where the tokenizer starts: behind the header.
pub open spec fn start_of_rows(data: Seq<u8>, p: ReaderParams) -> int {
    header_span(data, comment_byte(p), or_zero(p.skip_header))
}

/// The rules by which counting fields is done: the rules of a read without
/// its column filter.
pub open spec fn count_rules_of(p: ReaderParams) -> Rules {
    counting_rules(comment_byte(p), delim_byte(p), p.delimiter == Delimiter::WhiteSpace)
}

/// The number of fields per line: that of the first line behind the header
/// that holds any.
pub open spec fn fields_per_line(data: Seq<u8>, p: ReaderParams) -> int {
    first_field_count(count_rules_of(p), data.skip(start_of_rows(data, p)))
}

/// The input behind the header.
pub open spec fn behind_header(data: Seq<u8>, p: ReaderParams) -> Seq<u8> {
    data.skip(start_of_rows(data, p))
}

/// The number of lines of the header.
pub open spec fn lines_before(data: Seq<u8>, p: ReaderParams) -> int {
    header_lines(data, comment_byte(p), or_zero(p.skip_header))
}

/// The number of lines that a read is to keep.
pub open spec fn row_cap(data: Seq<u8>, p: ReaderParams) -> int {
    lines_to_read(p, usable_lines(data, comment_byte(p)))
}

/// The rules of a read.
pub open spec fn read_rules(data: Seq<u8>, p: ReaderParams) -> Rules {
    rules_of(p, fields_per_line(data, p))
}

/// The rows of a read whose parameters fit its input.
pub open spec fn read_rows(data: Seq<u8>, p: ReaderParams) -> Result<Seq<Seq<Cell>>, ReaderError> {
    rows(read_rules(data, p), behind_header(data, p), lines_before(data, p), row_cap(data, p))
}

/// What a read of `data` with the parameters `p` gives.
///
/// The usable lines are counted and the skips held against the count. The
/// header is passed over, the fields of the next line are counted and the
/// named columns held against that count. Then the lines are read, as many as
/// are to be kept.
pub open spec fn parse_model(data: Seq<u8>, p: ReaderParams) -> Result<RawTable, ReaderError> {
    let usable = usable_lines(data, comment_byte(p));
    if skip_error(p, usable).is_some() {
        Err(skip_error(p, usable).unwrap())
    } else if cols_error(named_cols(p), fields_per_line(data, p)).is_some() {
        Err(cols_error(named_cols(p), fields_per_line(data, p)).unwrap())
    } else {
        match read_rows(data, p) {
            Ok(rs) => Ok(RawTable { fields: kept_fields(read_rules(data, p)), rows: rs }),
            Err(e) => Err(e),
        }
    }
}

/// A store with nothing in it holds the fields of no rows.
pub proof fn lemma_route_fresh<S: RawReaderParse>(n: int)
    ensures
        fresh_lanes(n) == route::<S>(Seq::empty(), 0, Seq::empty(), n),
{
    assert(fresh_lanes(n) =~= route::<S>(Seq::empty(), 0, Seq::empty(), n));
}

/// Runs the tokenizer over `buffer` from `core.offset` on, until the store
/// holds `target` lines or the input ends. A last line without a terminator
/// ends with the input.
///
/// The store then holds the fields of the rows of that part of the input, in
/// their order, and has counted the rows. The first refused line stops the
/// run with its error.
pub fn scan_rows<S: RawReaderParse>(
    buffer: &[u8],
    core: &mut CoreData,
    sink: &mut S,
    target: usize,
) -> (r: Result<(), ReaderError>)
    requires
        buffer@.len() == old(core).length,
        old(core).offset <= old(core).length,
        old(core).fln <= old(core).offset,
        old(core).field_counter == 0,
        !old(core).gap,
        old(sink).wf(),
        old(sink).field_total() == kept_fields(old(core).rules()),
        old(sink).line_total() == 0,
        old(sink).lanes() == fresh_lanes(S::lane_total(old(sink).field_total())),
    ensures
        match rows(
            old(core).rules(),
            buffer@.skip(old(core).offset as int),
            old(core).fln as int,
            target as int,
        ) {
            Ok(rs) => {
                &&& r.is_ok()
                &&& final(sink).wf()
                &&& final(sink).field_total() == old(sink).field_total()
                &&& final(sink).line_total() == rs.len()
                &&& final(sink).lanes() == route::<S>(
                    flat(rs),
                    0,
                    Seq::empty(),
                    S::lane_total(old(sink).field_total()),
                )
            },
            Err(e) => r == Err::<(), ReaderError>(e),
        },
        r.is_ok() ==> final(core).same_setup(old(core)),
{
    let ghost rules = core.rules();
    let ghost goal = rows(rules, buffer@.skip(core.offset as int), core.fln as int, target as int);
    let ghost n = S::lane_total(sink.field_total());
    let ghost mut ls: int = core.offset as int;
    let ghost mut done: Seq<Seq<Cell>> = Seq::empty();
    let ghost mut sc: LineScan = start_of_line();
    let mut state = ParserState::NwLine;
    proof {
        lemma_route_fresh::<S>(n);
        assert(flat(done) + sc.cells =~= Seq::<Cell>::empty());
        assert(prepend(done, goal) == goal) by {
            match goal {
                Ok(more) => {
                    assert(done + more =~= more);
                },
                Err(_) => {},
            }
        }
    }
    while core.offset < core.length && sink.get_num_lines() < target
        invariant
            buffer@.len() == core.length,
            core.same_setup(old(core)),
            core.rules() == rules,
            rules == old(core).rules(),
            goal == rows(
                rules,
                buffer@.skip(old(core).offset as int),
                old(core).fln as int,
                target as int,
            ),
            n == S::lane_total(sink.field_total()),
            sink.field_total() == old(sink).field_total(),
            0 <= ls <= core.offset <= core.length,
            core.fln <= ls,
            core.field_counter <= core.offset,
            forall|k: int| ls <= k < core.offset ==> !is_stop(rules, buffer@[k]),
            sc == scan(rules, buffer@.subrange(ls, core.offset as int)),
            sc.state == ParserState::NwLine ==> ls == core.offset,
            done.len() == target ==> sc.state == ParserState::NwLine,
            synced(state, core, sink, flat(done), sc),
            sink.line_total() == done.len() <= target,
            goal == prepend(
                done,
                rows(rules, buffer@.skip(ls), core.fln as int, target - done.len()),
            ),
        decreases core.length - core.offset,
    {
        let ghost i = core.offset as int;
        let ghost b = buffer@[i];
        let ghost s = buffer@.skip(ls);
        let ghost fln = core.fln as int;
        let ghost cap = target - done.len();
        match state.next(buffer, core, sink, Ghost(flat(done)), Ghost(sc)) {
            Ok(st) => {
                proof {
                    if is_stop(rules, b) {
                        lemma_line_at(rules, buffer@, ls, i);
                        match close(rules, sc) {
                            LineEnd::Skip => {},
                            LineEnd::Row(cells) => {
                                lemma_flat_push(done, cells);
                                lemma_prepend_push(
                                    done,
                                    cells,
                                    rows(
                                        rules,
                                        buffer@.skip(core.offset as int),
                                        fln + 1,
                                        cap - 1,
                                    ),
                                );
                                done = done.push(cells);
                            },
                            _ => {},
                        }
                        ls = core.offset as int;
                        sc = start_of_line();
                        assert(buffer@.subrange(ls, core.offset as int) =~= Seq::<u8>::empty());
                    } else {
                        lemma_scan_push(rules, buffer@, ls, i);
                        sc = step(rules, sc, b);
                    }
                }
                state = st;
            },
            Err(e) => {
                proof {
                    lemma_line_at(rules, buffer@, ls, i);
                    assert(rows(rules, s, fln, cap) == Err::<Seq<Seq<Cell>>, ReaderError>(e));
                }
                return Err(e);
            },
        }
    }
    let count = sink.get_num_lines();
    if state != ParserState::NwLine && count < target {
        let ghost s = buffer@.skip(ls);
        let ghost fln = core.fln as int;
        let ghost cap = target - done.len();
        proof {
            if ls == core.offset {
                assert(buffer@.subrange(ls, ls) =~= Seq::<u8>::empty());
            }
            assert(ls < core.offset == core.length);
            lemma_line_at(rules, buffer@, ls, core.offset as int);
            assert(s.skip(line_span(rules, s)).len() == 0);
        }
        match state.close_line(core, sink, Ghost(flat(done)), Ghost(sc)) {
            Ok(_) => {
                proof {
                    assert(rows(rules, s.skip(line_span(rules, s)), fln + 1, cap) == Ok::<
                        Seq<Seq<Cell>>,
                        ReaderError,
                    >(Seq::empty()));
                    assert(rows(rules, s.skip(line_span(rules, s)), fln + 1, cap - 1) == Ok::<
                        Seq<Seq<Cell>>,
                        ReaderError,
                    >(Seq::empty()));
                    match close(rules, sc) {
                        LineEnd::Row(cells) => {
                            assert(rows(rules, s, fln, cap) == Ok::<Seq<Seq<Cell>>, ReaderError>(
                                seq![cells] + Seq::<Seq<Cell>>::empty(),
                            ));
                            lemma_flat_push(done, cells);
                            assert(done + seq![cells] =~= done.push(cells));
                            assert(seq![cells] + Seq::<Seq<Cell>>::empty() =~= seq![cells]);
                            assert(flat(done.push(cells)) + start_of_line().cells =~= flat(
                                done.push(cells),
                            ));
                            assert(goal == Ok::<Seq<Seq<Cell>>, ReaderError>(done.push(cells)));
                        },
                        _ => {
                            assert(rows(rules, s, fln, cap) == Ok::<Seq<Seq<Cell>>, ReaderError>(
                                Seq::empty(),
                            ));
                            assert(done + Seq::<Seq<Cell>>::empty() =~= done);
                            assert(flat(done) + start_of_line().cells =~= flat(done));
                        },
                    }
                }
                Ok(())
            },
            Err(e) => {
                proof {
                    assert(rows(rules, s, fln, cap) == Err::<Seq<Seq<Cell>>, ReaderError>(e));
                }
                Err(e)
            },
        }
    } else {
        proof {
            assert(buffer@.subrange(ls, ls) =~= Seq::<u8>::empty());
            assert(sc == start_of_line());
            assert(done + Seq::<Seq<Cell>>::empty() =~= done);
            assert(flat(done) + sc.cells =~= flat(done));
            assert(sc.open =~= Seq::<u8>::empty());
            crate::reader::raw_results::lemma_route_idle::<S>(flat(done), sc.slot, 0, n);
        }
        Ok(())
    }
}

/// The named columns as 1-based field numbers, or the error that
/// `cols_error` gives for them.
pub fn check_cols(named: &Vec<usize>, tot_fields: usize) -> (r: Result<Vec<usize>, ReaderError>)
    ensures
        match cols_error(named@, tot_fields as int) {
            Some(e) => r == Err::<Vec<usize>, ReaderError>(e),
            None => r.is_ok() && r.unwrap()@.map_values(|x: usize| x as int) == named@.map_values(
                |c: usize| c + 1,
            ),
        },
{
    let n = named.len();
    if n > tot_fields {
        return Err(ReaderError::TooManyColumns { fields: tot_fields });
    }
    let mut cols: Vec<usize> = Vec::new();
    let mut i: usize = 0;
    while i < n
        invariant
            n == named@.len(),
            n <= tot_fields,
            i <= n,
            cols@.len() == i,
            forall|k: int| 0 <= k < i ==> #[trigger] named@[k] < tot_fields,
            forall|k: int| 0 <= k < i ==> #[trigger] cols@[k] == named@[k] + 1,
        decreases n - i,
    {
        if named[i] >= tot_fields {
            assert(0 <= i < named@.len() && named@[i as int] >= tot_fields);
            return Err(ReaderError::ColumnOutOfRange { fields: tot_fields });
        }
        cols.push(named[i] + 1);
        i += 1;
    }
    let mut j: usize = 0;
    while j < n
        invariant
            n == named@.len(),
            n <= tot_fields,
            cols@.len() == n,
            forall|k: int| 0 <= k < n ==> #[trigger] named@[k] < tot_fields,
            forall|k: int| 0 <= k < n ==> #[trigger] cols@[k] == named@[k] + 1,
            j <= n,
            forall|a: int, b: int|
                0 <= a < b < j ==> #[trigger] named@[a] != #[trigger] named@[b],
        decreases n - j,
    {
        let mut k: usize = 0;
        while k < j
            invariant
                n == named@.len(),
                n <= tot_fields,
                forall|k: int| 0 <= k < n ==> #[trigger] named@[k] < tot_fields,
                k <= j < n,
                forall|a: int| 0 <= a < k ==> #[trigger] named@[a] != named@[j as int],
            decreases j - k,
        {
            if named[k] == named[j] {
                assert(0 <= k < j < named@.len() && named@[k as int] == named@[j as int]);
                return Err(ReaderError::RepeatedColumn);
            }
            k += 1;
        }
        j += 1;
    }
    assert(cols@.map_values(|x: usize| x as int) =~= named@.map_values(|c: usize| c + 1));
    Ok(cols)
}

/// Reads `data` with the parameters `params` into a raw result of kind `T`.
///
/// The read fails if a skip is not below the number of usable lines, if the
/// skips together leave no line, if the named columns do not fit the fields
/// of a line, or if a line that is read is refused. Otherwise the result
/// holds the fields of the kept lines, in their order, and their number.
pub fn parse_txt<T: RawReaderParse>(data: &[u8], params: &ReaderParams) -> (r: Result<
    T,
    ReaderError,
>)
    ensures
        match parse_model(data@, *params) {
            Ok(t) => {
                &&& r.is_ok()
                &&& r.unwrap().wf()
                &&& r.unwrap().field_total() == t.fields
                &&& r.unwrap().line_total() == t.rows.len()
                &&& r.unwrap().lanes() == route::<T>(
                    flat(t.rows),
                    0,
                    Seq::empty(),
                    T::lane_total(t.fields),
                )
            },
            Err(e) => r == Err::<T, ReaderError>(e),
        },
{
    let cmt = match params.comments {
        Some(x) => x,
        None => LF,
    };
    let num_lines = read_num_file_lines(data, cmt);

    match params.skip_header {
        Some(x) => {
            if x >= num_lines {
                return Err(ReaderError::SkipHeader);
            }
        },
        None => (),
    }
    let sk_h = match params.skip_header {
        Some(x) => x,
        None => 0,
    };
    match params.skip_footer {
        Some(x) => {
            if x >= num_lines {
                return Err(ReaderError::SkipFooter);
            }
        },
        None => (),
    }
    let sk_f = match params.skip_footer {
        Some(x) => x,
        None => 0,
    };
    if num_lines == 0 || sk_f >= num_lines - sk_h {
        return Err(ReaderError::SkipBoth);
    }
    let num_lines_read = match params.max_rows {
        Some(x) => {
            let diff_lines = num_lines - sk_h - sk_f;
            if diff_lines > x {
                x
            } else {
                diff_lines
            }
        },
        None => num_lines - sk_h - sk_f,
    };

    let delim_ws = match params.delimiter {
        Delimiter::WhiteSpace => true,
        Delimiter::Any(_b) => false,
    };
    let delim = match params.delimiter {
        Delimiter::WhiteSpace => SPACE,
        Delimiter::Any(b) => b,
    };

    let length = data.len();
    let mut fln: usize = 0;
    let start = skip_header_lines(data, &mut fln, cmt, sk_h);

    let rest = slice_subrange(data, start, length);
    assert(rest@ =~= data@.skip(start as int));
    let tot_fields = count_num_fields(rest, cmt, delim, delim_ws);

    let cols = match &params.usecols {
        Some(x) => {
            match check_cols(x, tot_fields) {
                Ok(c) => c,
                Err(e) => {
                    return Err(e);
                },
            }
        },
        None => Vec::<usize>::new(),
    };
    proof {
        if params.usecols.is_none() {
            assert(cols@.map_values(|x: usize| x as int) =~= named_cols(*params).map_values(
                |c: usize| c + 1,
            ));
        }
    }

    let nfields = if cols.len() != 0 {
        cols.len()
    } else {
        tot_fields
    };
    let mut results: T = T::new(nfields, num_lines_read);

    let mut core_data = CoreData {
        length,
        offset: start,
        cmt,
        delim_ws,
        delim,
        fln,
        cols: &cols,
        field_counter: 0,
        current_field: 0,
        tot_fields,
        gap: false,
    };
    assert(core_data.rules() == rules_of(*params, tot_fields as int));
    match scan_rows(data, &mut core_data, &mut results, num_lines_read) {
        Ok(()) => Ok(results),
        Err(e) => Err(e),
    }
}

} // verus!
