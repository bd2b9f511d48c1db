//! A read that keeps some columns, beside the same read that keeps all.

use vstd::prelude::*;
use crate::reader::column_order::in_order;
use crate::reader::line_lemmas::{lemma_find_from, lemma_stop_bounds};
use crate::reader::line_model::{
    Cell, LineEnd, LineScan, Rules, close, closed_cells, first_line, is_stop, kept_fields,
    line_span, rows, scan, select, step, stop_from,
};
use crate::reader::parser_core::ParserState;
use crate::reader::row_shape::{home, lemma_home, lemma_scan_shape, shape_ok, slots_of, valid_cols};
use crate::reader::table_model::cell_of;

verus! {

/// The rules `r` without the column filter.
pub open spec fn unfiltered(r: Rules) -> Rules {
    Rules { cols: Seq::empty(), ..r }
}

/// Of the fields `all` of a line, each with its number as its slot, those
/// that `r` keeps, each with the slot that `r` gives it.
pub open spec fn pick(r: Rules, all: Seq<Cell>) -> Seq<Cell>
    decreases all.len(),
{
    if all.len() == 0 {
        Seq::empty()
    } else if select(r, all.last().slot) != 0 {
        pick(r, all.drop_last()).push(
            Cell { slot: select(r, all.last().slot), bytes: all.last().bytes },
        )
    } else {
        pick(r, all.drop_last())
    }
}

/// The scan `sc` under `r` and the scan `all` of the same bytes under the
/// rules without the filter go together: same place in the line, same count,
/// and `sc` holds the kept ones among the fields of `all`.
pub open spec fn paired(r: Rules, sc: LineScan, all: LineScan) -> bool {
    &&& sc.counter == all.counter
    &&& (sc.state == ParserState::NwLine || sc.state == ParserState::Delim || sc.state
        == ParserState::Space ==> all.state == sc.state)
    &&& (sc.state == ParserState::Field || sc.state == ParserState::SkField ==> all.state
        == ParserState::Field || all.state == ParserState::SkField)
    &&& (sc.state == ParserState::Field ==> all.state == ParserState::Field && sc.open == all.open)
    &&& sc.cells == pick(r, all.cells)
}

/// A kept field is one of the fields of a line.
pub proof fn lemma_kept_is_field(r: Rules, k: int)
    requires
        valid_cols(r),
        select(r, k) != 0,
    ensures
        1 <= k <= r.tot_fields,
        select(unfiltered(r), k) == k,
{
    if r.cols.len() > 0 {
        lemma_find_from(r.cols, k, 0);
    }
}

/// A step keeps the two scans together.
pub proof fn lemma_step_paired(r: Rules, sc: LineScan, all: LineScan, b: u8)
    requires
        valid_cols(r),
        shape_ok(r, sc),
        shape_ok(unfiltered(r), all),
        paired(r, sc, all),
        !is_stop(r, b),
    ensures
        paired(r, step(r, sc, b), step(unfiltered(r), all, b)),
{
    let r0 = unfiltered(r);
    let next = step(r, sc, b);
    let next_all = step(r0, all, b);
    if select(r, sc.counter) != 0 {
        lemma_kept_is_field(r, sc.counter);
    }
    if select(r, 1) != 0 {
        lemma_kept_is_field(r, 1);
    }
    if next_all.cells.len() == all.cells.len() + 1 {
        let added = Cell { slot: all.slot, bytes: all.open };
        assert(next_all.cells == all.cells.push(added));
        assert(next_all.cells.drop_last() =~= all.cells);
        assert(all.state == ParserState::Field);
        assert(all.slot == all.counter);
    }
}

/// The scans of the same bytes under `r` and under the rules without the
/// filter go together.
pub proof fn lemma_scan_paired(r: Rules, line: Seq<u8>)
    requires
        valid_cols(r),
        forall|k: int| 0 <= k < line.len() ==> !is_stop(r, line[k]),
    ensures
        paired(r, scan(r, line), scan(unfiltered(r), line)),
    decreases line.len(),
{
    let r0 = unfiltered(r);
    if line.len() > 0 {
        let front = line.drop_last();
        lemma_scan_paired(r, front);
        lemma_scan_shape(r, front);
        assert forall|k: int| 0 <= k < front.len() implies !is_stop(r0, front[k]) by {
            assert(front[k] == line[k]);
        }
        lemma_scan_shape(r0, front);
        lemma_step_paired(r, scan(r, front), scan(r0, front), line.last());
    }
}

/// Where both reads keep a line, the read with the filter keeps the kept
/// ones among the fields that the read without it keeps.
pub proof fn lemma_close_paired(r: Rules, sc: LineScan, all: LineScan)
    requires
        valid_cols(r),
        shape_ok(r, sc),
        shape_ok(unfiltered(r), all),
        paired(r, sc, all),
    ensures
        close(r, sc) is Skip <==> close(unfiltered(r), all) is Skip,
        close(r, sc) is Row && close(unfiltered(r), all) is Row ==> close(r, sc)->Row_0 == pick(
            r,
            close(unfiltered(r), all)->Row_0,
        ),
{
    let r0 = unfiltered(r);
    if close(r, sc) is Row && close(r0, all) is Row {
        if select(r, sc.counter) != 0 {
            lemma_kept_is_field(r, sc.counter);
        }
        let row0 = closed_cells(all);
        if all.state == ParserState::Field {
            assert(row0.drop_last() =~= all.cells);
            assert(all.slot == all.counter);
        }
    }
}

/// The rows of the read with the filter are the kept fields of the rows of
/// the read without it, line by line.
pub proof fn lemma_rows_paired(r: Rules, s: Seq<u8>, before: int, cap: int)
    requires
        valid_cols(r),
        rows(r, s, before, cap) is Ok,
        rows(unfiltered(r), s, before, cap) is Ok,
    ensures
        rows(r, s, before, cap)->Ok_0.len() == rows(unfiltered(r), s, before, cap)->Ok_0.len(),
        forall|i: int|
            0 <= i < rows(r, s, before, cap)->Ok_0.len() ==> #[trigger] rows(
                r,
                s,
                before,
                cap,
            )->Ok_0[i] == pick(r, rows(unfiltered(r), s, before, cap)->Ok_0[i]),
    decreases s.len(),
{
    let r0 = unfiltered(r);
    if cap <= 0 || s.len() == 0 {
    } else {
        lemma_stop_bounds(r, s, 0);
        crate::reader::line_lemmas::lemma_eol_bounds(s, stop_from(r, s, 0));
        assert forall|k: int| 0 <= k < stop_from(r, s, 0) implies !is_stop(r0, s[k]) by {
            assert(!is_stop(r, s[k]));
        }
        if stop_from(r, s, 0) < s.len() {
            assert(is_stop(r, s[stop_from(r, s, 0)]));
        }
        crate::reader::line_lemmas::lemma_stop_from(r0, s, 0, stop_from(r, s, 0));
        let line = first_line(r, s);
        let rest = s.skip(line_span(r, s));
        assert(first_line(r0, s) == line);
        assert(line_span(r0, s) == line_span(r, s));
        assert forall|k: int| 0 <= k < line.len() implies !is_stop(r0, line[k]) && !is_stop(
            r,
            line[k],
        ) by {
            assert(line[k] == s[k]);
        }
        lemma_scan_shape(r, line);
        lemma_scan_shape(r0, line);
        lemma_scan_paired(r, line);
        lemma_close_paired(r, scan(r, line), scan(r0, line));
        match close(r, scan(r, line)) {
            LineEnd::Skip => {
                lemma_rows_paired(r, rest, before + 1, cap);
            },
            LineEnd::Row(cells) => {
                lemma_rows_paired(r, rest, before + 1, cap - 1);
                let cells0 = close(r0, scan(r0, line))->Row_0;
                let more = rows(r, rest, before + 1, cap - 1)->Ok_0;
                let more0 = rows(r0, rest, before + 1, cap - 1)->Ok_0;
                assert(rows(r, s, before, cap)->Ok_0 == seq![cells] + more);
                assert(rows(r0, s, before, cap)->Ok_0 == seq![cells0] + more0);
            },
            _ => {},
        }
    }
}

/// Of the fields of a line in their order, the one that `r` gives the slot
/// `slot` is the one with the number that `r` keeps there.
pub proof fn lemma_pick_cell(r: Rules, all: Seq<Cell>, slot: int)
    requires
        valid_cols(r),
        1 <= slot <= kept_fields(r),
        slots_of(all) == in_order(all.len() as int),
    ensures
        cell_of(pick(r, all), slot) == cell_of(all, home(r, slot)),
    decreases all.len(),
{
    if all.len() > 0 {
        let front = all.drop_last();
        let last = all.last();
        assert(slots_of(all)[all.len() - 1] == last.slot);
        assert(slots_of(front) =~= in_order(front.len() as int)) by {
            assert forall|i: int| 0 <= i < front.len() implies slots_of(front)[i] == i + 1 by {
                assert(slots_of(all)[i] == all[i].slot);
            }
        }
        lemma_pick_cell(r, front, slot);
        lemma_home(r, last.slot, slot);
        if select(r, last.slot) != 0 {
            assert(pick(r, all).drop_last() =~= pick(r, front));
        }
    }
}

} // verus!
