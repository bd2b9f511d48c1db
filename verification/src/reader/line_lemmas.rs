//! Facts about lines that the passes over the input rest on.

use vstd::prelude::*;
use crate::reader::ReaderError;
use crate::reader::classify::{is_blank, is_eol};
use crate::reader::line_model::{
    Cell, Rules, after_eol, eol_from, find_from, first_line, flat, is_stop, kept_fields, line_span,
    mark_from, prepend, scan, select, step, stop_from,
};

verus! {

/// The scan of a line ends at `j` if no byte before `j` ends it and the byte
/// at `j` does, or `j` is the end.
pub proof fn lemma_stop_from(r: Rules, s: Seq<u8>, i: int, j: int)
    requires
        0 <= i <= j <= s.len(),
        forall|k: int| i <= k < j ==> !is_stop(r, s[k]),
        j == s.len() || is_stop(r, s[j]),
    ensures
        stop_from(r, s, i) == j,
    decreases j - i,
{
    if i < j {
        lemma_stop_from(r, s, i + 1, j);
    }
}

/// The first byte that is no blank is at `j` if only blanks stand before `j`
/// and none at `j`, or `j` is the end.
pub proof fn lemma_mark_from(s: Seq<u8>, i: int, j: int)
    requires
        0 <= i <= j <= s.len(),
        forall|k: int| i <= k < j ==> is_blank(s[k]),
        j == s.len() || !is_blank(s[j]),
    ensures
        mark_from(s, i) == j,
    decreases j - i,
{
    if i < j {
        lemma_mark_from(s, i + 1, j);
    }
}

/// Where the first line terminator stands: within the input, behind bytes
/// that are none.
pub proof fn lemma_eol_bounds(s: Seq<u8>, i: int)
    requires
        0 <= i <= s.len(),
    ensures
        i <= eol_from(s, i) <= s.len(),
        eol_from(s, i) < s.len() ==> is_eol(s[eol_from(s, i)]),
        forall|k: int| i <= k < eol_from(s, i) ==> !is_eol(s[k]),
        i <= after_eol(s, i) <= s.len(),
        i < s.len() ==> i < after_eol(s, i),
    decreases s.len() - i,
{
    if i < s.len() && !is_eol(s[i]) {
        lemma_eol_bounds(s, i + 1);
    }
}

/// Where the scan of a line ends: within the input, behind bytes that do not
/// end it.
pub proof fn lemma_stop_bounds(r: Rules, s: Seq<u8>, i: int)
    requires
        0 <= i <= s.len(),
    ensures
        i <= stop_from(r, s, i) <= s.len(),
        stop_from(r, s, i) < s.len() ==> is_stop(r, s[stop_from(r, s, i)]),
        forall|k: int| i <= k < stop_from(r, s, i) ==> !is_stop(r, s[k]),
    decreases s.len() - i,
{
    if i < s.len() && !is_stop(r, s[i]) {
        lemma_stop_bounds(r, s, i + 1);
    }
}

/// Where the first byte that is no blank stands.
pub proof fn lemma_mark_bounds(s: Seq<u8>, i: int)
    requires
        0 <= i <= s.len(),
    ensures
        i <= mark_from(s, i) <= s.len(),
        mark_from(s, i) < s.len() ==> !is_blank(s[mark_from(s, i)]),
        forall|k: int| i <= k < mark_from(s, i) ==> is_blank(s[k]),
    decreases s.len() - i,
{
    if i < s.len() && is_blank(s[i]) {
        lemma_mark_bounds(s, i + 1);
    }
}

/// The first line terminator of a tail of the input is the first one of the
/// input from there on.
pub proof fn lemma_eol_shift(s: Seq<u8>, a: int, i: int)
    requires
        0 <= a,
        0 <= i,
        a + i <= s.len(),
    ensures
        eol_from(s.skip(a), i) + a == eol_from(s, a + i),
        after_eol(s.skip(a), i) + a == after_eol(s, a + i),
{
    lemma_eol_bounds(s, a + i);
    let j = eol_from(s, a + i);
    assert forall|k: int| i <= k < j - a implies !is_eol(s.skip(a)[k]) by {
        assert(s.skip(a)[k] == s[a + k]);
    }
    if j < s.len() {
        assert(s.skip(a)[j - a] == s[j]);
    }
    crate::reader::parser_utility::lemma_eol_from(s.skip(a), i, j - a);
}

/// The scan of one more byte is one step from the scan of the bytes before
/// it.
pub proof fn lemma_scan_push(r: Rules, s: Seq<u8>, from: int, to: int)
    requires
        0 <= from <= to < s.len(),
    ensures
        scan(r, s.subrange(from, to + 1)) == step(r, scan(r, s.subrange(from, to)), s[to]),
{
    let longer = s.subrange(from, to + 1);
    assert(longer.drop_last() =~= s.subrange(from, to));
    assert(longer.last() == s[to]);
}

/// The fields of rows with one more row.
pub proof fn lemma_flat_push<A>(rows: Seq<Seq<A>>, row: Seq<A>)
    ensures
        flat(rows.push(row)) == flat(rows) + row,
{
    assert(rows.push(row).drop_last() =~= rows);
}

/// Rows in front of a row in front of a rest.
pub proof fn lemma_prepend_push(
    rows: Seq<Seq<Cell>>,
    row: Seq<Cell>,
    rest: Result<Seq<Seq<Cell>>, ReaderError>,
)
    ensures
        prepend(rows, prepend(seq![row], rest)) == prepend(rows.push(row), rest),
{
    match rest {
        Ok(more) => {
            assert(rows + (seq![row] + more) =~= rows.push(row) + more);
        },
        Err(_) => {},
    }
}

/// The first index at which `cols` holds `x` lies within `cols`, or is its
/// length.
pub proof fn lemma_find_from(cols: Seq<int>, x: int, i: int)
    requires
        0 <= i <= cols.len(),
    ensures
        i <= find_from(cols, x, i) <= cols.len(),
        find_from(cols, x, i) < cols.len() ==> cols[find_from(cols, x, i)] == x,
        forall|j: int| i <= j < find_from(cols, x, i) ==> cols[j] != x,
    decreases cols.len() - i,
{
    if i < cols.len() && cols[i] != x {
        lemma_find_from(cols, x, i + 1);
    }
}

/// A slot is 0 or one of the kept fields.
pub proof fn lemma_select_range(r: Rules, k: int)
    requires
        r.tot_fields >= 0,
    ensures
        0 <= select(r, k) <= kept_fields(r),
{
    if r.cols.len() > 0 {
        lemma_find_from(r.cols, k, 0);
    }
}

/// The line of `data` that starts at `ls` and is scanned up to `i`, where a
/// byte ends the scan or the input ends: the tokenizer scans the bytes from
/// `ls` to `i`, and the next line starts behind the first line terminator
/// from `i` on.
pub proof fn lemma_line_at(r: Rules, data: Seq<u8>, ls: int, i: int)
    requires
        0 <= ls <= i <= data.len(),
        forall|k: int| ls <= k < i ==> !is_stop(r, data[k]),
        i == data.len() || is_stop(r, data[i]),
    ensures
        first_line(r, data.skip(ls)) == data.subrange(ls, i),
        line_span(r, data.skip(ls)) == after_eol(data, i) - ls,
        data.skip(ls).skip(line_span(r, data.skip(ls))) == data.skip(after_eol(data, i)),
        i <= after_eol(data, i) <= data.len(),
        i < data.len() ==> i < after_eol(data, i),
{
    let s = data.skip(ls);
    assert forall|k: int| 0 <= k < i - ls implies !is_stop(r, s[k]) by {
        assert(s[k] == data[ls + k]);
    }
    if i < data.len() {
        assert(s[i - ls] == data[i]);
    }
    lemma_stop_from(r, s, 0, i - ls);
    assert(first_line(r, s) =~= data.subrange(ls, i));
    lemma_eol_shift(data, ls, i - ls);
    lemma_eol_bounds(data, i);
    assert(s.skip(line_span(r, s)) =~= data.skip(after_eol(data, i)));
}

} // verus!
