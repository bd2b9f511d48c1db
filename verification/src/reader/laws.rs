//! What holds of every read.

use vstd::prelude::*;
use vstd::arithmetic::div_mod::{
    lemma_div_pos_is_pos, lemma_fundamental_div_mod, lemma_mod_pos_bound, lemma_multiply_divide_lt,
};
use crate::reader::{Delimiter, ReaderError, ReaderParams};
use crate::reader::classify::is_eol;
use crate::reader::column_order::{in_order, lemma_slots_in_order, lemma_slots_plain, rising};
use crate::reader::column_subset::{lemma_pick_cell, lemma_rows_paired, unfiltered};
use crate::reader::convert::{FromField, bad_from, lemma_bad_from};
use crate::reader::line_model::{
    Cell, LineEnd, counting_rules, header_lines, header_span, rows, usable_lines,
};
use crate::reader::line_structure::{
    lemma_header_line, lemma_header_usable, lemma_rows_count, lemma_rows_nth, line_end, plain_lines,
    usable_line,
};
use crate::reader::load::read_as;
use crate::reader::parser::{
    behind_header, count_rules_of, lines_before, read_rules, row_cap,
    comment_byte, delim_byte, fields_per_line, lines_to_read, named_cols, or_zero, parse_model,
    rules_of, start_of_rows,
};
use crate::reader::reader_results::{ReaderResults, ReaderTable};
use crate::reader::row_shape::{count_of, lemma_flat_index, lemma_flat_len, slots_of};
use crate::reader::table_model::{
    lemma_read_rules,
    cell_of, column, columns, lemma_cell_in_row, lemma_cols_valid, lemma_field_count_floor,
    lemma_table_shape, stored_cells,
};
use crate::reader::transparency::{
    agree, aligned, lemma_count_behind, lemma_header_behind, lemma_rows_before, lemma_rows_behind,
    lemma_skipped_line, lemma_usable_behind, transparent,
};

verus! {

/// The number of columns of the table of a read: the number of named
/// columns, or without them the number of fields of a line.
pub open spec fn columns_of(data: Seq<u8>, p: ReaderParams) -> int {
    if named_cols(p).len() == 0 {
        fields_per_line(data, p)
    } else {
        named_cols(p).len() as int
    }
}

/// The place of row `r` and column `c` in the storage of a table of `lines`
/// rows and `fields` columns.
pub open spec fn place(row_format: bool, fields: int, lines: int, r: int, c: int) -> int {
    if row_format {
        r * fields + c
    } else {
        c * lines + r
    }
}

/// Field-count consistency. Every kept line gives the table exactly one
/// field for each of its columns, so the table holds as many fields as it
/// has rows times columns, in either order of storage.
pub proof fn law_field_count(data: Seq<u8>, p: ReaderParams)
    requires
        parse_model(data, p) is Ok,
    ensures
        parse_model(data, p)->Ok_0.fields == columns_of(data, p),
        forall|i: int|
            0 <= i < parse_model(data, p)->Ok_0.rows.len() ==> (#[trigger] parse_model(
                data,
                p,
            )->Ok_0.rows[i]).len() == columns_of(data, p),
        stored_cells(parse_model(data, p)->Ok_0, true).len() == parse_model(data, p)->Ok_0.rows.len()
            * columns_of(data, p),
        stored_cells(parse_model(data, p)->Ok_0, false).len() == parse_model(
            data,
            p,
        )->Ok_0.rows.len() * columns_of(data, p),
{
    let t = parse_model(data, p)->Ok_0;
    lemma_table_shape(data, p);
    lemma_flat_len(t.rows, t.fields);
    lemma_flat_len(columns(t.rows, t.fields), t.rows.len() as int);
    assert(t.fields * t.rows.len() == t.rows.len() * t.fields) by (nonlinear_arith);
}

/// The field of row `r` and column `c` stands at its place in the storage:
/// in a table stored column by column whatever the order of the named
/// columns, in one stored row by row where they are named in rising order (or
/// not at all).
pub proof fn lemma_field_place(data: Seq<u8>, p: ReaderParams, row_format: bool, r: int, c: int)
    requires
        parse_model(data, p) is Ok,
        row_format ==> rising(read_rules(data, p).cols),
        0 <= r < parse_model(data, p)->Ok_0.rows.len(),
        0 <= c < parse_model(data, p)->Ok_0.fields,
    ensures
        0 <= place(
            row_format,
            parse_model(data, p)->Ok_0.fields,
            parse_model(data, p)->Ok_0.rows.len() as int,
            r,
            c,
        ) < stored_cells(parse_model(data, p)->Ok_0, row_format).len(),
        stored_cells(parse_model(data, p)->Ok_0, row_format)[place(
            row_format,
            parse_model(data, p)->Ok_0.fields,
            parse_model(data, p)->Ok_0.rows.len() as int,
            r,
            c,
        )] == cell_of(parse_model(data, p)->Ok_0.rows[r], c + 1),
{
    let t = parse_model(data, p)->Ok_0;
    lemma_table_shape(data, p);
    if row_format {
        lemma_flat_index(t.rows, t.fields, r, c);
        lemma_flat_len(t.rows, t.fields);
        lemma_read_rules(data, p);
        lemma_slots_in_order(read_rules(data, p));
        let row = t.rows[r];
        assert(slots_of(row) == in_order(t.fields));
        lemma_cell_in_order(row, c);
    } else {
        lemma_flat_index(columns(t.rows, t.fields), t.rows.len() as int, c, r);
        lemma_flat_len(columns(t.rows, t.fields), t.rows.len() as int);
    }
}

/// In a row whose fields go to the slots in order, the field at `c` is the
/// field of slot `c + 1`.
pub proof fn lemma_cell_in_order(row: Seq<Cell>, c: int)
    requires
        slots_of(row) == in_order(row.len() as int),
        0 <= c < row.len(),
    ensures
        cell_of(row, c + 1) == row[c].bytes,
    decreases row.len(),
{
    assert(slots_of(row)[row.len() - 1] == row.last().slot);
    if c < row.len() - 1 {
        let front = row.drop_last();
        assert(slots_of(front) =~= in_order(front.len() as int)) by {
            assert forall|i: int| 0 <= i < front.len() implies slots_of(front)[i] == i + 1 by {
                assert(slots_of(row)[i] == row[i].slot);
            }
        }
        lemma_cell_in_order(front, c);
    }
}

/// Orientation equivalence. Row `r` and column `c` of a read hold the same
/// field whether the table is stored row by row or column by column, where
/// the named columns are in rising order (or there are none).
pub proof fn law_orientation(data: Seq<u8>, p: ReaderParams, r: int, c: int)
    requires
        parse_model(data, p) is Ok,
        rising(read_rules(data, p).cols),
        0 <= r < parse_model(data, p)->Ok_0.rows.len(),
        0 <= c < parse_model(data, p)->Ok_0.fields,
    ensures
        stored_cells(parse_model(data, p)->Ok_0, true)[place(
            true,
            parse_model(data, p)->Ok_0.fields,
            parse_model(data, p)->Ok_0.rows.len() as int,
            r,
            c,
        )] == stored_cells(parse_model(data, p)->Ok_0, false)[place(
            false,
            parse_model(data, p)->Ok_0.fields,
            parse_model(data, p)->Ok_0.rows.len() as int,
            r,
            c,
        )],
{
    lemma_field_place(data, p, true, r, c);
    lemma_field_place(data, p, false, r, c);
}

/// The value of row `r` and column `c` of the table of a read is the value
/// of the field that the line of that row holds in that column: in a table
/// stored column by column whatever the order of the named columns, in one
/// stored row by row where they are named in rising order (or not at all).
pub proof fn law_value_of_field<T: FromField + Clone>(
    data: Seq<u8>,
    p: ReaderParams,
    res: Result<ReaderTable<T>, ReaderError>,
    r: int,
    c: int,
)
    requires
        read_as::<T>(data, p, res),
        res is Ok,
        p.row_format ==> rising(read_rules(data, p).cols),
        0 <= r < res->Ok_0.lines(),
        0 <= c < res->Ok_0.fields(),
    ensures
        parse_model(data, p) is Ok,
        T::parses_to(cell_of(parse_model(data, p)->Ok_0.rows[r], c + 1), res->Ok_0.value(r, c)),
{
    let t = parse_model(data, p)->Ok_0;
    let cells = stored_cells(t, p.row_format);
    lemma_bad_from::<T>(cells, 0);
    lemma_field_place(data, p, p.row_format, r, c);
    let at = place(p.row_format, t.fields, t.rows.len() as int, r, c);
    assert(T::parses_to(cells[at], res->Ok_0.values()[at]));
}

/// A place in a storage of `lanes` lanes of `lane` values each lies in one
/// lane, at one place of it.
pub proof fn lemma_split_index(k: int, lane: int, lanes: int)
    requires
        0 <= k < lanes * lane,
        0 <= lane,
    ensures
        0 < lane,
        0 <= k / lane < lanes,
        0 <= k % lane < lane,
        (k / lane) * lane + k % lane == k,
{
    assert(lane > 0) by (nonlinear_arith)
        requires
            0 <= k < lanes * lane,
            lane >= 0,
    ;
    lemma_fundamental_div_mod(k, lane);
    lemma_mod_pos_bound(k, lane);
    lemma_div_pos_is_pos(k, lane);
    assert(k < lane * lanes) by (nonlinear_arith)
        requires
            k < lanes * lane,
    ;
    lemma_multiply_divide_lt(k, lane, lanes);
    assert((k / lane) * lane + k % lane == k) by (nonlinear_arith)
        requires
            k == lane * (k / lane) + k % lane,
    ;
}

/// Every field of a table stored column by column is a field of the table
/// stored row by row, and the other way round, where the named columns are
/// in rising order (or there are none).
pub proof fn lemma_same_fields(
    data: Seq<u8>,
    p: ReaderParams,
    row_format: bool,
    other: bool,
    k: int,
)
    requires
        other != row_format,
        parse_model(data, p) is Ok,
        rising(read_rules(data, p).cols),
        0 <= k < stored_cells(parse_model(data, p)->Ok_0, row_format).len(),
    ensures
        exists|j: int|
            0 <= j < stored_cells(parse_model(data, p)->Ok_0, other).len() && stored_cells(
                parse_model(data, p)->Ok_0,
                row_format,
            )[k] == #[trigger] stored_cells(parse_model(data, p)->Ok_0, other)[j],
{
    let t = parse_model(data, p)->Ok_0;
    let nf = t.fields;
    let nl = t.rows.len() as int;
    law_field_count(data, p);
    let lane = if row_format {
        nf
    } else {
        nl
    };
    let lanes = if row_format {
        nl
    } else {
        nf
    };
    assert(lanes * lane == nl * nf) by (nonlinear_arith)
        requires
            (lanes == nl && lane == nf) || (lanes == nf && lane == nl),
    ;
    lemma_split_index(k, lane, lanes);
    let a = k / lane;
    let b = k % lane;
    let (r, c) = if row_format {
        (a, b)
    } else {
        (b, a)
    };
    lemma_field_place(data, p, true, r, c);
    lemma_field_place(data, p, false, r, c);
    let j = place(other, nf, nl, r, c);
    assert(stored_cells(t, row_format)[k] == stored_cells(t, other)[j]);
}

/// Orientation equivalence, for values. Where the text of a field decides
/// its value, a read into a table stored row by row and the same read into
/// one stored column by column both fail or both succeed, and then the two
/// tables hold the same value in every row and column. The named columns are
/// in rising order (or there are none).
pub proof fn law_orientation_values<T: FromField + Clone>(
    data: Seq<u8>,
    p: ReaderParams,
    q: ReaderParams,
    by_rows: Result<ReaderTable<T>, ReaderError>,
    by_cols: Result<ReaderTable<T>, ReaderError>,
)
    requires
        p.row_format,
        q == (ReaderParams { row_format: false, ..p }),
        read_as::<T>(data, p, by_rows),
        read_as::<T>(data, q, by_cols),
        rising(read_rules(data, p).cols),
        forall|b: Seq<u8>, v: T, w: T|
            #[trigger] T::parses_to(b, v) && #[trigger] T::parses_to(b, w) ==> v == w,
    ensures
        by_rows is Ok <==> by_cols is Ok,
        by_rows is Ok ==> {
            &&& by_rows->Ok_0.lines() == by_cols->Ok_0.lines()
            &&& by_rows->Ok_0.fields() == by_cols->Ok_0.fields()
            &&& forall|r: int, c: int|
                0 <= r < by_rows->Ok_0.lines() && 0 <= c < by_rows->Ok_0.fields()
                    ==> #[trigger] by_rows->Ok_0.value(r, c) == by_cols->Ok_0.value(r, c)
        },
{
    assert(parse_model(data, p) == parse_model(data, q));
    assert(read_rules(data, p) == rules_of(q, fields_per_line(data, q)));
    if parse_model(data, p) is Ok {
        let t = parse_model(data, p)->Ok_0;
        let in_rows = stored_cells(t, true);
        let in_cols = stored_cells(t, false);
        lemma_bad_from::<T>(in_rows, 0);
        lemma_bad_from::<T>(in_cols, 0);
        if by_rows is Ok && by_cols is Err {
            let k = bad_from::<T>(in_cols, 0);
            lemma_same_fields(data, p, false, true, k);
        }
        if by_cols is Ok && by_rows is Err {
            let k = bad_from::<T>(in_rows, 0);
            lemma_same_fields(data, p, true, false, k);
        }
        if by_rows is Ok && by_cols is Ok {
            assert forall|r: int, c: int|
                0 <= r < by_rows->Ok_0.lines() && 0 <= c < by_rows->Ok_0.fields()
                    implies #[trigger] by_rows->Ok_0.value(r, c) == by_cols->Ok_0.value(r, c) by {
                law_value_of_field::<T>(data, p, by_rows, r, c);
                law_value_of_field::<T>(data, q, by_cols, r, c);
            }
        }
    }
}

/// Skip arithmetic. A read of an input with `U` usable lines that skips `h`
/// of them at the start and `f` at the end gives `U - h - f` rows, or
/// `max_rows` if that is less. Row number `i` is what usable line number
/// `h + i` gives, both counted from 0. The delimiter is no line terminator
/// and not the comment byte.
pub proof fn law_skip_arithmetic(data: Seq<u8>, p: ReaderParams)
    requires
        parse_model(data, p) is Ok,
        plain_lines(read_rules(data, p)),
    ensures
        parse_model(data, p)->Ok_0.rows.len() == lines_to_read(
            p,
            usable_lines(data, comment_byte(p)),
        ),
        p.max_rows is None ==> parse_model(data, p)->Ok_0.rows.len() == usable_lines(
            data,
            comment_byte(p),
        ) - or_zero(p.skip_header) - or_zero(p.skip_footer),
        forall|i: int|
            0 <= i < parse_model(data, p)->Ok_0.rows.len() ==> line_end(
                read_rules(data, p),
                usable_line(data, comment_byte(p), or_zero(p.skip_header) + i),
            ) == LineEnd::Row(#[trigger] parse_model(data, p)->Ok_0.rows[i]),
{
    let t = parse_model(data, p)->Ok_0;
    let cmt = comment_byte(p);
    let h = or_zero(p.skip_header);
    let rules = read_rules(data, p);
    lemma_read_rules(data, p);
    lemma_header_usable(data, cmt, h);
    lemma_rows_count(rules, behind_header(data, p), lines_before(data, p), row_cap(data, p));
    assert forall|i: int| 0 <= i < t.rows.len() implies line_end(
        rules,
        usable_line(data, cmt, h + i),
    ) == LineEnd::Row(#[trigger] t.rows[i]) by {
        lemma_rows_nth(rules, behind_header(data, p), lines_before(data, p), row_cap(data, p), i);
        lemma_header_line(data, cmt, h, i);
    }
}

/// Column subsetting. Where a read that names columns and the same read
/// without names both succeed, they keep the same lines, and the field of
/// slot `j + 1` of a row of the first is the field of the column that is
/// named at `j`, in the same row of the second.
pub proof fn law_column_subset(data: Seq<u8>, p: ReaderParams, q: ReaderParams, i: int, j: int)
    requires
        q == (ReaderParams { usecols: None, ..p }),
        parse_model(data, p) is Ok,
        parse_model(data, q) is Ok,
        0 <= i < parse_model(data, p)->Ok_0.rows.len(),
        0 <= j < named_cols(p).len(),
    ensures
        parse_model(data, p)->Ok_0.rows.len() == parse_model(data, q)->Ok_0.rows.len(),
        named_cols(p)[j] < parse_model(data, q)->Ok_0.fields,
        cell_of(parse_model(data, p)->Ok_0.rows[i], j + 1) == cell_of(
            parse_model(data, q)->Ok_0.rows[i],
            named_cols(p)[j] + 1,
        ),
{
    let all = parse_model(data, q)->Ok_0;
    let rules = read_rules(data, p);
    assert(read_rules(data, q) =~= unfiltered(rules)) by {
        assert(read_rules(data, q).cols =~= unfiltered(rules).cols);
    }
    lemma_read_rules(data, p);
    lemma_read_rules(data, q);
    lemma_rows_paired(rules, behind_header(data, p), lines_before(data, p), row_cap(data, p));
    lemma_table_shape(data, q);
    lemma_slots_plain(unfiltered(rules), rules.tot_fields);
    assert(slots_of(all.rows[i]).len() == all.rows[i].len());
    lemma_pick_cell(rules, all.rows[i], j + 1);
    assert(rules.cols[j] == named_cols(p)[j] + 1);
}

/// Column subsetting, for values. Where the text of a field decides its
/// value and both reads succeed, column `j` of the table of the read that
/// names columns holds the values of the column named at `j` in the table of
/// the read without names. The table of the first is stored column by
/// column, or its columns are named in rising order.
pub proof fn law_column_subset_values<T: FromField + Clone>(
    data: Seq<u8>,
    p: ReaderParams,
    q: ReaderParams,
    some: Result<ReaderTable<T>, ReaderError>,
    all: Result<ReaderTable<T>, ReaderError>,
    i: int,
    j: int,
)
    requires
        q == (ReaderParams { usecols: None, ..p }),
        read_as::<T>(data, p, some),
        read_as::<T>(data, q, all),
        some is Ok,
        all is Ok,
        p.row_format ==> rising(read_rules(data, p).cols),
        forall|b: Seq<u8>, v: T, w: T|
            #[trigger] T::parses_to(b, v) && #[trigger] T::parses_to(b, w) ==> v == w,
        0 <= i < some->Ok_0.lines(),
        0 <= j < named_cols(p).len(),
    ensures
        some->Ok_0.lines() == all->Ok_0.lines(),
        some->Ok_0.fields() == named_cols(p).len(),
        named_cols(p)[j] < all->Ok_0.fields(),
        some->Ok_0.value(i, j) == all->Ok_0.value(i, named_cols(p)[j] as int),
{
    law_field_count(data, p);
    law_column_subset(data, p, q, i, j);
    law_value_of_field::<T>(data, p, some, i, j);
    assert(rules_of(q, fields_per_line(data, q)).cols =~= Seq::<int>::empty());
    law_value_of_field::<T>(data, q, all, i, named_cols(p)[j] as int);
}

/// Transparency of blank lines and comment lines. One more blank line or
/// comment line between two lines of an input, or before the first or behind
/// the last, leaves the number of usable lines as it is, and a read that
/// succeeds gives the same table: the same number of columns and the same
/// rows. Blanks are no delimiters, and the delimiter is no line terminator
/// and not the comment byte.
pub proof fn law_transparency(a: Seq<u8>, line: Seq<u8>, eol: u8, b: Seq<u8>, p: ReaderParams)
    requires
        aligned(a),
        is_eol(eol),
        transparent(rules_of(p, 0), line),
    ensures
        usable_lines(a + line.push(eol) + b, comment_byte(p)) == usable_lines(
            a + b,
            comment_byte(p),
        ),
        parse_model(a + line.push(eol) + b, p) is Ok <==> parse_model(a + b, p) is Ok,
        parse_model(a + b, p) is Ok ==> parse_model(a + line.push(eol) + b, p) == parse_model(
            a + b,
            p,
        ),
{
    let ins = line.push(eol);
    let x = a + ins + b;
    let y = a + b;
    assert(x =~= a + (ins + b));
    let cmt = comment_byte(p);
    let h = or_zero(p.skip_header);
    let rc = count_rules_of(p);
    assert(transparent(rc, line));
    // The usable lines.
    lemma_skipped_line(rc, line, eol, b);
    lemma_usable_behind(a, ins + b, b, cmt);
    // Behind the header.
    lemma_header_behind(rc, a, line, eol, b, h);
    let hx = header_span(x, cmt, h);
    let hy = header_span(y, cmt, h);
    let sx = x.skip(hx);
    let sy = y.skip(hy);
    if hx == hy && 0 <= hy <= a.len() && aligned(a.skip(hy)) {
        let front = a.skip(hy);
        assert(sx =~= front + (ins + b));
        assert(sy =~= front + b);
        lemma_count_behind(rc, front, ins + b, b);
        let tot = fields_per_line(y, p);
        assert(fields_per_line(x, p) == tot);
        let rules = rules_of(p, tot);
        assert(transparent(rules, line));
        lemma_skipped_line(rules, line, eol, b);
        assert forall|u: int, v: int, c: int| agree(
            #[trigger] rows(rules, ins + b, u, c),
            #[trigger] rows(rules, b, v, c),
        ) by {
            lemma_rows_before(rules, b, u + 1, v, c);
        }
        lemma_rows_behind(
            rules,
            front,
            ins + b,
            b,
            header_lines(x, cmt, h),
            header_lines(y, cmt, h),
            lines_to_read(p, usable_lines(y, cmt)),
        );
    } else {
        assert(sx =~= sy);
        let tot = fields_per_line(y, p);
        let rules = rules_of(p, tot);
        lemma_rows_before(
            rules,
            sy,
            header_lines(x, cmt, h),
            header_lines(y, cmt, h),
            lines_to_read(p, usable_lines(y, cmt)),
        );
    }
}

/// Every field of the table of a read holds at least one byte.
pub proof fn law_fields_hold_bytes(data: Seq<u8>, p: ReaderParams, row_format: bool, k: int)
    requires
        parse_model(data, p) is Ok,
        0 <= k < stored_cells(parse_model(data, p)->Ok_0, row_format).len(),
    ensures
        stored_cells(parse_model(data, p)->Ok_0, row_format)[k].len() > 0,
{
    let t = parse_model(data, p)->Ok_0;
    lemma_table_shape(data, p);
    law_field_count(data, p);
    let nf = t.fields;
    let nl = t.rows.len() as int;
    let lane = if row_format {
        nf
    } else {
        nl
    };
    let lanes = if row_format {
        nl
    } else {
        nf
    };
    assert(lanes * lane == nl * nf) by (nonlinear_arith)
        requires
            (lanes == nl && lane == nf) || (lanes == nf && lane == nl),
    ;
    lemma_split_index(k, lane, lanes);
    let a = k / lane;
    let b = k % lane;
    if row_format {
        lemma_flat_index(t.rows, nf, a, b);
        assert(stored_cells(t, true)[k] == t.rows[a][b].bytes);
    } else {
        lemma_flat_index(columns(t.rows, nf), nl, a, b);
        assert(stored_cells(t, false)[k] == cell_of(t.rows[b], a + 1));
        assert(count_of(slots_of(t.rows[b]), a + 1) == 1);
        lemma_cell_in_row(t.rows[b], a + 1);
    }
}

} // verus!
