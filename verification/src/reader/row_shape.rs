//! The shape of a row: which slots its fields go to, in which order.

use vstd::prelude::*;
use crate::reader::line_lemmas::{lemma_find_from, lemma_select_range, lemma_stop_bounds};
use crate::reader::line_model::{
    Cell, LineEnd, LineScan, Rules, close, closed_cells, find_from, first_line, flat, is_stop,
    kept_fields, line_span, rows, scan, scan_ok, select, start_of_line, step,
};
use crate::reader::parser_core::ParserState;

verus! {

/// The slots of the kept fields among the first `k` fields of a line, in the
/// order of the fields.
pub open spec fn slots_upto(r: Rules, k: int) -> Seq<int>
    decreases k,
{
    if k <= 0 {
        Seq::empty()
    } else if select(r, k) != 0 {
        slots_upto(r, k - 1).push(select(r, k))
    } else {
        slots_upto(r, k - 1)
    }
}

/// The slots of `cells`, in their order.
pub open spec fn slots_of(cells: Seq<Cell>) -> Seq<int> {
    cells.map_values(|c: Cell| c.slot)
}

/// The number of fields that the scan `s` has behind it.
pub open spec fn passed(s: LineScan) -> int {
    if s.counter <= 0 {
        0
    } else if s.state == ParserState::NwLine {
        0
    } else {
        s.counter - 1
    }
}

/// The kept fields that have ended are those among the fields that the scan
/// has behind it, unless one of them held only blanks; and the scan is in a
/// kept field exactly if it has a slot for it.
pub open spec fn shape_ok(r: Rules, s: LineScan) -> bool {
    &&& scan_ok(r, s)
    &&& (s.state == ParserState::SkField ==> select(r, s.counter) == 0)
    &&& (!s.gap ==> slots_of(s.cells) == slots_upto(r, passed(s)))
}

/// A step keeps the shape.
pub proof fn lemma_step_shape(r: Rules, s: LineScan, b: u8)
    requires
        r.tot_fields >= 0,
        shape_ok(r, s),
        !is_stop(r, b),
    ensures
        shape_ok(r, step(r, s, b)),
        step(r, s, b).state != ParserState::NwLine,
{
    let t = step(r, s, b);
    lemma_select_range(r, s.counter);
    lemma_select_range(r, 1);
    if !t.gap {
        assert(slots_of(t.cells) =~= slots_upto(r, passed(t))) by {
            if t.cells.len() == s.cells.len() + 1 {
                assert(t.cells == s.cells.push(Cell { slot: s.slot, bytes: s.open }));
                assert(slots_of(t.cells) =~= slots_of(s.cells).push(s.slot));
            } else {
                assert(t.cells == s.cells);
            }
        }
    }
}

/// Every scan of a line has the shape.
pub proof fn lemma_scan_shape(r: Rules, line: Seq<u8>)
    requires
        r.tot_fields >= 0,
        forall|k: int| 0 <= k < line.len() ==> !is_stop(r, line[k]),
    ensures
        shape_ok(r, scan(r, line)),
        line.len() > 0 ==> scan(r, line).state != ParserState::NwLine,
    decreases line.len(),
{
    if line.len() > 0 {
        lemma_scan_shape(r, line.drop_last());
        lemma_step_shape(r, scan(r, line.drop_last()), line.last());
    } else {
        assert(slots_of(start_of_line().cells) =~= slots_upto(r, 0));
    }
}

/// A kept line has a field for each kept column among the fields of a line,
/// in the order of the fields.
pub proof fn lemma_row_shape(r: Rules, s: LineScan)
    requires
        r.tot_fields >= 0,
        shape_ok(r, s),
        close(r, s) is Row,
    ensures
        slots_of(close(r, s)->Row_0) == slots_upto(r, r.tot_fields),
        forall|i: int|
            0 <= i < close(r, s)->Row_0.len() ==> (#[trigger] close(r, s)->Row_0[i]).bytes.len() > 0,
{
    let cells = closed_cells(s);
    lemma_select_range(r, s.counter);
    if s.state == ParserState::Field {
        assert(slots_of(cells) =~= slots_of(s.cells).push(s.slot));
    }
}

/// Every row of an input has a field for each kept column among the fields
/// of a line, in the order of the fields.
pub proof fn lemma_rows_shape(r: Rules, s: Seq<u8>, before: int, cap: int)
    requires
        r.tot_fields >= 0,
        rows(r, s, before, cap) is Ok,
    ensures
        forall|i: int|
            0 <= i < rows(r, s, before, cap)->Ok_0.len() ==> slots_of(
                #[trigger] rows(r, s, before, cap)->Ok_0[i],
            ) == slots_upto(r, r.tot_fields),
        forall|i: int, j: int|
            0 <= i < rows(r, s, before, cap)->Ok_0.len() && 0 <= j < rows(
                r,
                s,
                before,
                cap,
            )->Ok_0[i].len() ==> (#[trigger] rows(r, s, before, cap)->Ok_0[i][j]).bytes.len() > 0,
        rows(r, s, before, cap)->Ok_0.len() <= cap || rows(r, s, before, cap)->Ok_0.len() == 0,
    decreases s.len(),
{
    if cap <= 0 || s.len() == 0 || line_span(r, s) <= 0 {
    } else {
        let rest = s.skip(line_span(r, s));
        lemma_stop_bounds(r, s, 0);
        lemma_scan_shape(r, first_line(r, s));
        let sc = scan(r, first_line(r, s));
        match close(r, sc) {
            LineEnd::Skip => {
                lemma_rows_shape(r, rest, before + 1, cap);
            },
            LineEnd::Row(cells) => {
                lemma_rows_shape(r, rest, before + 1, cap - 1);
                lemma_row_shape(r, sc);
                let more = rows(r, rest, before + 1, cap - 1)->Ok_0;
                assert(rows(r, s, before, cap)->Ok_0 == seq![cells] + more);
            },
            _ => {},
        }
    }
}

/// The named columns fit lines of `r.tot_fields` fields: each is one of the
/// fields, and none is named twice.
pub open spec fn valid_cols(r: Rules) -> bool {
    &&& r.tot_fields >= 0
    &&& forall|i: int| 0 <= i < r.cols.len() ==> 1 <= #[trigger] r.cols[i] <= r.tot_fields
    &&& forall|i: int, j: int|
        0 <= i < j < r.cols.len() ==> #[trigger] r.cols[i] != #[trigger] r.cols[j]
}

/// The number of the field that goes to `slot`.
pub open spec fn home(r: Rules, slot: int) -> int {
    if r.cols.len() == 0 {
        slot
    } else {
        r.cols[slot - 1]
    }
}

/// Exactly one field goes to each slot.
pub proof fn lemma_home(r: Rules, k: int, slot: int)
    requires
        valid_cols(r),
        1 <= slot <= kept_fields(r),
    ensures
        select(r, k) == slot <==> k == home(r, slot),
        1 <= home(r, slot) <= r.tot_fields,
{
    if r.cols.len() > 0 {
        lemma_find_from(r.cols, k, 0);
        let p = find_from(r.cols, k, 0);
        if k == home(r, slot) {
            if p != slot - 1 {
                assert(r.cols[p] == r.cols[slot - 1]);
            }
        }
    }
}

/// How often `x` occurs in `s`.
pub open spec fn count_of(s: Seq<int>, x: int) -> int
    decreases s.len(),
{
    if s.len() == 0 {
        0
    } else {
        count_of(s.drop_last(), x) + if s.last() == x {
            1int
        } else {
            0int
        }
    }
}

/// A slot occurs once among the slots of the first `k` fields if its field is
/// among them, and not at all if it is not.
pub proof fn lemma_slots_count(r: Rules, k: int, slot: int)
    requires
        valid_cols(r),
        1 <= slot <= kept_fields(r),
        0 <= k,
    ensures
        count_of(slots_upto(r, k), slot) == if home(r, slot) <= k {
            1int
        } else {
            0int
        },
    decreases k,
{
    lemma_home(r, k, slot);
    if k > 0 {
        lemma_slots_count(r, k - 1, slot);
        if select(r, k) != 0 {
            assert(slots_upto(r, k).drop_last() =~= slots_upto(r, k - 1));
        }
    }
}

/// The sum over the slots 1 to `n` of how often each occurs in `s`.
pub open spec fn count_sum(s: Seq<int>, n: int) -> int
    decreases n,
{
    if n <= 0 {
        0
    } else {
        count_sum(s, n - 1) + count_of(s, n)
    }
}

/// One more element that is a slot raises the sum by one.
pub proof fn lemma_count_sum_push(s: Seq<int>, x: int, n: int)
    requires
        0 <= n,
    ensures
        count_sum(s.push(x), n) == count_sum(s, n) + if 1 <= x <= n {
            1int
        } else {
            0int
        },
    decreases n,
{
    if n > 0 {
        lemma_count_sum_push(s, x, n - 1);
        assert(s.push(x).drop_last() =~= s);
    }
}

/// A sequence of slots is as long as the sum says.
pub proof fn lemma_count_sum_len(s: Seq<int>, n: int)
    requires
        0 <= n,
        forall|i: int| 0 <= i < s.len() ==> 1 <= #[trigger] s[i] <= n,
    ensures
        count_sum(s, n) == s.len(),
    decreases s.len(),
{
    if s.len() == 0 {
        assert(s =~= Seq::<int>::empty());
        lemma_count_sum_none(n);
    } else {
        assert(s.drop_last().push(s.last()) =~= s);
        lemma_count_sum_len(s.drop_last(), n);
        lemma_count_sum_push(s.drop_last(), s.last(), n);
    }
}

/// Nothing occurs in the empty sequence.
pub proof fn lemma_count_sum_none(n: int)
    ensures
        count_sum(Seq::<int>::empty(), n) == 0,
    decreases n,
{
    if n > 0 {
        lemma_count_sum_none(n - 1);
    }
}

/// Where each slot occurs once, the sum is the number of slots.
pub proof fn lemma_count_sum_ones(s: Seq<int>, n: int, m: int)
    requires
        0 <= m <= n,
        forall|j: int| 1 <= j <= n ==> count_of(s, j) == 1,
    ensures
        count_sum(s, m) == m,
    decreases m,
{
    if m > 0 {
        lemma_count_sum_ones(s, n, m - 1);
    }
}

/// The slots of the fields of a line lie among the kept fields.
pub proof fn lemma_slots_range(r: Rules, k: int)
    requires
        r.tot_fields >= 0,
    ensures
        forall|i: int|
            0 <= i < slots_upto(r, k).len() ==> 1 <= #[trigger] slots_upto(r, k)[i] <= kept_fields(
                r,
            ),
    decreases k,
{
    if k > 0 {
        lemma_slots_range(r, k - 1);
        lemma_select_range(r, k);
        let s = slots_upto(r, k);
        assert forall|i: int| 0 <= i < s.len() implies 1 <= #[trigger] s[i] <= kept_fields(r) by {
            if i < slots_upto(r, k - 1).len() {
                assert(s[i] == slots_upto(r, k - 1)[i]);
            }
        }
    }
}

/// A line has as many kept fields as there are kept columns.
pub proof fn lemma_slots_len(r: Rules)
    requires
        valid_cols(r),
    ensures
        slots_upto(r, r.tot_fields).len() == kept_fields(r),
{
    let s = slots_upto(r, r.tot_fields);
    let n = kept_fields(r);
    lemma_slots_range(r, r.tot_fields);
    lemma_count_sum_len(s, n);
    assert forall|j: int| 1 <= j <= n implies count_of(s, j) == 1 by {
        lemma_slots_count(r, r.tot_fields, j);
        lemma_home(r, 0, j);
    }
    lemma_count_sum_ones(s, n, n);
}

/// Rows of `n` fields each hold `n` fields per row in all.
pub proof fn lemma_flat_len<A>(rs: Seq<Seq<A>>, n: int)
    requires
        forall|i: int| 0 <= i < rs.len() ==> (#[trigger] rs[i]).len() == n,
    ensures
        flat(rs).len() == rs.len() * n,
    decreases rs.len(),
{
    if rs.len() > 0 {
        lemma_flat_len(rs.drop_last(), n);
        assert(rs.len() * n == (rs.len() - 1) * n + n) by (nonlinear_arith);
    }
}

/// Field `c` of row `i` is at `i * n + c` among all fields of rows of `n`
/// fields each.
pub proof fn lemma_flat_index<A>(rs: Seq<Seq<A>>, n: int, i: int, c: int)
    requires
        forall|k: int| 0 <= k < rs.len() ==> (#[trigger] rs[k]).len() == n,
        0 <= i < rs.len(),
        0 <= c < n,
    ensures
        0 <= i * n + c < flat(rs).len(),
        flat(rs)[i * n + c] == rs[i][c],
    decreases rs.len(),
{
    lemma_flat_len(rs, n);
    lemma_flat_len(rs.drop_last(), n);
    assert(0 <= i * n + c < rs.len() * n && (rs.len() - 1) * n <= i * n + c ==> i == rs.len() - 1)
        by (nonlinear_arith)
        requires
            0 <= i < rs.len(),
            0 <= c < n,
    ;
    if i < rs.len() - 1 {
        lemma_flat_index(rs.drop_last(), n, i, c);
        assert(i * n + c < (rs.len() - 1) * n) by (nonlinear_arith)
            requires
                0 <= i < rs.len() - 1,
                0 <= c < n,
        ;
    } else {
        assert(i * n == (rs.len() - 1) * n);
    }
}

} // verus!
