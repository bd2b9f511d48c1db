//! The fields of the rows of a read as they lie in a raw result.

use vstd::prelude::*;
use crate::reader::{ReaderError, ReaderParams};
use crate::reader::line_lemmas::lemma_stop_bounds;
use crate::reader::line_model::{
    kept_fields,
    Cell, Rules, first_field_count, first_line, flat, line_span, observed, rows, scan,
};
use crate::reader::parser::{
    behind_header, count_rules_of, lines_before, read_rows, read_rules, row_cap, start_of_rows,
    RawTable, cols_error, fields_per_line, named_cols, parse_model, rules_of,
};
use crate::reader::raw_results::{
    RawReaderParse, RawReaderResultsCols, RawReaderResultsRows, lane_fields,
};
use crate::reader::row_shape::{
    count_of, lemma_home, lemma_rows_shape, lemma_scan_shape, lemma_slots_count, lemma_slots_len,
    slots_of, slots_upto, valid_cols,
};

verus! {

/// The bytes of `cells`, in their order.
pub open spec fn bytes_of(cells: Seq<Cell>) -> Seq<Seq<u8>> {
    cells.map_values(|c: Cell| c.bytes)
}

/// The bytes of the field of `row` that goes to `slot`.
pub open spec fn cell_of(row: Seq<Cell>, slot: int) -> Seq<u8>
    decreases row.len(),
{
    if row.len() == 0 {
        Seq::empty()
    } else if row.last().slot == slot {
        row.last().bytes
    } else {
        cell_of(row.drop_last(), slot)
    }
}

/// The fields of `rows` that go to `slot`, row after row.
pub open spec fn column(rows: Seq<Seq<Cell>>, slot: int) -> Seq<Seq<u8>> {
    Seq::new(rows.len(), |i: int| cell_of(rows[i], slot))
}

/// The columns of `rows` for the slots 1 to `fields`.
pub open spec fn columns(rows: Seq<Seq<Cell>>, fields: int) -> Seq<Seq<Seq<u8>>> {
    Seq::new(fields as nat, |l: int| column(rows, l + 1))
}

/// The fields of a table in the order in which they are stored: row after
/// row, each row in the order of its fields in the line; or column after
/// column, each column in the order of the rows.
pub open spec fn stored_cells(t: RawTable, row_format: bool) -> Seq<Seq<u8>> {
    if row_format {
        bytes_of(flat(t.rows))
    } else {
        flat(columns(t.rows, t.fields))
    }
}

/// A store that keeps rows holds all fields in its one lane.
pub proof fn lemma_lane_rows(cells: Seq<Cell>)
    ensures
        lane_fields::<RawReaderResultsRows>(cells, 0) == bytes_of(cells),
    decreases cells.len(),
{
    if cells.len() > 0 {
        lemma_lane_rows(cells.drop_last());
        assert(bytes_of(cells.drop_last()).push(cells.last().bytes) =~= bytes_of(cells));
    } else {
        assert(bytes_of(cells) =~= Seq::<Seq<u8>>::empty());
    }
}

/// What goes to a lane from two runs of fields is what goes to it from the
/// first, then from the second.
pub proof fn lemma_lane_concat<S: RawReaderParse>(a: Seq<Cell>, b: Seq<Cell>, l: int)
    ensures
        lane_fields::<S>(a + b, l) == lane_fields::<S>(a, l) + lane_fields::<S>(b, l),
    decreases b.len(),
{
    if b.len() == 0 {
        assert(a + b =~= a);
        assert(lane_fields::<S>(a, l) + lane_fields::<S>(b, l) =~= lane_fields::<S>(a, l));
    } else {
        lemma_lane_concat::<S>(a, b.drop_last(), l);
        assert((a + b).drop_last() =~= a + b.drop_last());
        assert((a + b).last() == b.last());
        if S::lane_of(b.last().slot) == l {
            assert((lane_fields::<S>(a, l) + lane_fields::<S>(b.drop_last(), l)).push(
                b.last().bytes,
            ) =~= lane_fields::<S>(a, l) + lane_fields::<S>(b.drop_last(), l).push(
                b.last().bytes,
            ));
        }
    }
}

/// Nothing occurs less than never.
pub proof fn lemma_count_floor(s: Seq<int>, x: int)
    ensures
        count_of(s, x) >= 0,
    decreases s.len(),
{
    if s.len() > 0 {
        lemma_count_floor(s.drop_last(), x);
    }
}

/// From a row with one field for a slot, that field goes to the slot's lane
/// of a store that keeps columns; from a row with none, nothing.
pub proof fn lemma_lane_single(row: Seq<Cell>, l: int)
    requires
        count_of(slots_of(row), l + 1) <= 1,
    ensures
        count_of(slots_of(row), l + 1) == 1 ==> lane_fields::<RawReaderResultsCols>(row, l)
            == seq![cell_of(row, l + 1)],
        count_of(slots_of(row), l + 1) == 0 ==> lane_fields::<RawReaderResultsCols>(row, l)
            == Seq::<Seq<u8>>::empty(),
    decreases row.len(),
{
    if row.len() > 0 {
        assert(slots_of(row).drop_last() =~= slots_of(row.drop_last()));
        lemma_count_floor(slots_of(row.drop_last()), l + 1);
        lemma_lane_single(row.drop_last(), l);
        if row.last().slot == l + 1 {
            assert(Seq::<Seq<u8>>::empty().push(row.last().bytes) =~= seq![cell_of(row, l + 1)]);
        }
    }
}

/// From rows with one field each for a slot, the slot's lane of a store that
/// keeps columns holds the column of that slot.
pub proof fn lemma_lane_cols(rows: Seq<Seq<Cell>>, l: int)
    requires
        forall|i: int| 0 <= i < rows.len() ==> count_of(slots_of(#[trigger] rows[i]), l + 1) == 1,
    ensures
        lane_fields::<RawReaderResultsCols>(flat(rows), l) == column(rows, l + 1),
    decreases rows.len(),
{
    if rows.len() > 0 {
        let front = rows.drop_last();
        lemma_lane_cols(front, l);
        lemma_lane_concat::<RawReaderResultsCols>(flat(front), rows.last(), l);
        lemma_lane_single(rows.last(), l);
        assert(column(front, l + 1) + seq![cell_of(rows.last(), l + 1)] =~= column(rows, l + 1));
    } else {
        assert(column(rows, l + 1) =~= Seq::<Seq<u8>>::empty());
    }
}

/// A line holds no fewer than no fields.
pub proof fn lemma_field_count_floor(r: Rules, s: Seq<u8>)
    requires
        r.tot_fields >= 0,
    ensures
        first_field_count(r, s) >= 0,
    decreases s.len(),
{
    if s.len() == 0 || line_span(r, s) <= 0 {
    } else {
        lemma_stop_bounds(r, s, 0);
        lemma_scan_shape(r, first_line(r, s));
        if observed(scan(r, first_line(r, s))) <= 0 {
            lemma_field_count_floor(r, s.skip(line_span(r, s)));
        }
    }
}

/// Named columns that are not refused fit the lines.
pub proof fn lemma_cols_valid(p: ReaderParams, tot: int)
    requires
        tot >= 0,
        cols_error(named_cols(p), tot).is_none(),
    ensures
        valid_cols(rules_of(p, tot)),
{
    let named = named_cols(p);
    let r = rules_of(p, tot);
    assert forall|i: int| 0 <= i < r.cols.len() implies 1 <= #[trigger] r.cols[i] <= tot by {
        assert(r.cols[i] == named[i] + 1);
        if named[i] >= tot {
            assert(0 <= i < named.len() && named[i] >= tot);
        }
    }
    assert forall|i: int, j: int| 0 <= i < j < r.cols.len() implies #[trigger] r.cols[i]
        != #[trigger] r.cols[j] by {
        assert(r.cols[i] == named[i] + 1);
        assert(r.cols[j] == named[j] + 1);
        if named[i] == named[j] {
            assert(0 <= i < j < named.len() && named[i] == named[j]);
        }
    }
}

/// The rules of a read that succeeds fit its lines, and its rows are the
/// rows of the input behind the header under them.
pub proof fn lemma_read_rules(data: Seq<u8>, p: ReaderParams)
    requires
        parse_model(data, p) is Ok,
    ensures
        read_rules(data, p).tot_fields >= 0,
        valid_cols(read_rules(data, p)),
        read_rows(data, p) == Ok::<Seq<Seq<Cell>>, ReaderError>(parse_model(data, p)->Ok_0.rows),
        parse_model(data, p)->Ok_0.fields == kept_fields(read_rules(data, p)),
        parse_model(data, p)->Ok_0.fields >= 0,
{
    lemma_field_count_floor(count_rules_of(p), data.skip(start_of_rows(data, p)));
    lemma_cols_valid(p, fields_per_line(data, p));
}

/// Every row of a read holds one field for each kept column: as many fields
/// as the table has columns, and for each slot exactly one, none of them
/// empty.
pub proof fn lemma_table_shape(data: Seq<u8>, p: ReaderParams)
    requires
        parse_model(data, p) is Ok,
    ensures
        parse_model(data, p)->Ok_0.fields >= 0,
        forall|i: int|
            0 <= i < parse_model(data, p)->Ok_0.rows.len() ==> (#[trigger] parse_model(
                data,
                p,
            )->Ok_0.rows[i]).len() == parse_model(data, p)->Ok_0.fields,
        forall|i: int, slot: int|
            0 <= i < parse_model(data, p)->Ok_0.rows.len() && 1 <= slot <= parse_model(
                data,
                p,
            )->Ok_0.fields ==> #[trigger] count_of(
                slots_of(parse_model(data, p)->Ok_0.rows[i]),
                slot,
            ) == 1,
        forall|i: int|
            0 <= i < parse_model(data, p)->Ok_0.rows.len() ==> slots_of(
                #[trigger] parse_model(data, p)->Ok_0.rows[i],
            ) == slots_upto(read_rules(data, p), fields_per_line(data, p)),
        forall|i: int, j: int|
            0 <= i < parse_model(data, p)->Ok_0.rows.len() && 0 <= j < parse_model(
                data,
                p,
            )->Ok_0.rows[i].len() ==> (#[trigger] parse_model(data, p)->Ok_0.rows[i][j]).bytes.len()
                > 0,
{
    let t = parse_model(data, p)->Ok_0;
    let r = read_rules(data, p);
    lemma_read_rules(data, p);
    lemma_slots_len(r);
    lemma_rows_shape(r, behind_header(data, p), lines_before(data, p), row_cap(data, p));
    assert forall|i: int, slot: int|
        0 <= i < t.rows.len() && 1 <= slot <= t.fields implies #[trigger] count_of(
        slots_of(t.rows[i]),
        slot,
    ) == 1 by {
        lemma_slots_count(r, r.tot_fields, slot);
        lemma_home(r, 0, slot);
    }
    assert forall|i: int| 0 <= i < t.rows.len() implies (#[trigger] t.rows[i]).len()
        == t.fields by {
        assert(slots_of(t.rows[i]).len() == t.rows[i].len());
    }
}

/// The field of a row for a slot that occurs in the row is one of the fields
/// of the row.
pub proof fn lemma_cell_in_row(row: Seq<Cell>, slot: int)
    requires
        count_of(slots_of(row), slot) >= 1,
    ensures
        exists|j: int| 0 <= j < row.len() && cell_of(row, slot) == (#[trigger] row[j]).bytes,
    decreases row.len(),
{
    if row.len() > 0 {
        assert(slots_of(row).drop_last() =~= slots_of(row.drop_last()));
        if row.last().slot == slot {
            assert(cell_of(row, slot) == row[row.len() - 1].bytes);
        } else {
            lemma_cell_in_row(row.drop_last(), slot);
            let j = choose|j: int|
                0 <= j < row.drop_last().len() && cell_of(row.drop_last(), slot) == (
                #[trigger] row.drop_last()[j]).bytes;
            assert(row[j] == row.drop_last()[j]);
        }
    }
}

} // verus!
