//! Blank lines and comment lines make no difference to a read.

use vstd::prelude::*;
use crate::reader::ReaderError;
use crate::reader::classify::{is_blank, is_eol};
use crate::reader::line_lemmas::{
    lemma_eol_bounds, lemma_mark_bounds, lemma_mark_from, lemma_stop_bounds, lemma_stop_from,
};
use crate::reader::line_model::{
    Cell, LineEnd, Rules, after_eol, close, eol_from, first_field_count, first_line, first_usable,
    header_span, is_stop, line_span, mark_from, observed, plain_span, rows, scan, stop_from,
    usable_lines,
};
use crate::reader::line_structure::{lemma_spans_agree, plain_lines};
use crate::reader::parser_core::ParserState;
use crate::reader::parser_utility::lemma_eol_from;

verus! {

/// `a` ends where a line ends.
pub open spec fn aligned(a: Seq<u8>) -> bool {
    a.len() == 0 || is_eol(a.last())
}

/// The bytes `line` are a blank line or a comment line under `r`: blanks,
/// then nothing or the comment byte and what follows it, and no line
/// terminator. Blanks are no delimiters, and lines are kept apart as the
/// count of usable lines keeps them.
pub open spec fn transparent(r: Rules, line: Seq<u8>) -> bool {
    &&& plain_lines(r)
    &&& (r.delim_ws || !is_blank(r.delim))
    &&& forall|k: int| 0 <= k < line.len() ==> !is_eol(#[trigger] line[k])
    &&& (mark_from(line, 0) == line.len() || line[mark_from(line, 0)] == r.cmt)
}

/// Two reads agree: both fail, or both give the same rows.
pub open spec fn agree(
    x: Result<Seq<Seq<Cell>>, ReaderError>,
    y: Result<Seq<Seq<Cell>>, ReaderError>,
) -> bool {
    &&& x is Ok <==> y is Ok
    &&& x is Ok ==> x->Ok_0 == y->Ok_0
}

/// The first line of an input that starts with bytes that end where a line
/// ends lies within those bytes.
pub proof fn lemma_head(a: Seq<u8>, x: Seq<u8>)
    requires
        a.len() > 0,
        is_eol(a.last()),
    ensures
        eol_from(a + x, 0) == eol_from(a, 0),
        eol_from(a, 0) < a.len(),
        mark_from(a + x, 0) == mark_from(a, 0),
        mark_from(a, 0) <= eol_from(a, 0),
        after_eol(a + x, 0) == after_eol(a, 0),
        plain_span(a + x) == after_eol(a, 0),
        plain_span(a) == after_eol(a, 0),
        0 < after_eol(a, 0) <= a.len(),
        (a + x).skip(after_eol(a, 0)) == a.skip(after_eol(a, 0)) + x,
        aligned(a.skip(after_eol(a, 0))),
        forall|com: u8| first_usable(a + x, com) == first_usable(a, com),
{
    lemma_eol_bounds(a, 0);
    lemma_mark_bounds(a, 0);
    let e = eol_from(a, 0);
    let m = mark_from(a, 0);
    if e >= a.len() {
        assert(!is_eol(a[a.len() - 1]));
    }
    if m > e {
        assert(is_blank(a[e]));
    }
    assert forall|k: int| 0 <= k <= e implies (a + x)[k] == a[k] by {}
    lemma_eol_from(a + x, 0, e);
    lemma_mark_from(a + x, 0, m);
    lemma_eol_from(a, m, e);
    lemma_eol_from(a + x, m, e);
    assert((a + x).skip(e + 1) =~= a.skip(e + 1) + x);
    let tail = a.skip(e + 1);
    if tail.len() > 0 {
        assert(tail.last() == a.last());
    }
}

/// And so does what the tokenizer scans of it.
pub proof fn lemma_head_scan(r: Rules, a: Seq<u8>, x: Seq<u8>)
    requires
        plain_lines(r),
        a.len() > 0,
        is_eol(a.last()),
    ensures
        first_line(r, a + x) == first_line(r, a),
        line_span(r, a + x) == after_eol(a, 0),
        line_span(r, a) == after_eol(a, 0),
{
    lemma_head(a, x);
    lemma_spans_agree(r, a);
    lemma_spans_agree(r, a + x);
    lemma_stop_bounds(r, a, 0);
    let stop = stop_from(r, a, 0);
    assert forall|k: int| 0 <= k < stop implies !is_stop(r, (a + x)[k]) by {
        assert((a + x)[k] == a[k]);
    }
    assert((a + x)[stop] == a[stop]);
    lemma_stop_from(r, a + x, 0, stop);
    assert((a + x).take(stop) =~= a.take(stop));
}

/// The scan of blanks, where blanks are no delimiters, has met no field.
pub proof fn lemma_blank_scan(r: Rules, line: Seq<u8>)
    requires
        r.delim_ws || !is_blank(r.delim),
        forall|k: int| 0 <= k < line.len() ==> is_blank(#[trigger] line[k]),
    ensures
        close(r, scan(r, line)) is Skip,
        observed(scan(r, line)) == 0,
        scan(r, line).state != ParserState::Field,
        scan(r, line).state != ParserState::SkField,
        scan(r, line).state == ParserState::Delim ==> r.delim_ws && scan(r, line).counter == 1,
        scan(r, line).state == ParserState::Space ==> scan(r, line).counter == 0,
    decreases line.len(),
{
    if line.len() > 0 {
        let front = line.drop_last();
        assert forall|k: int| 0 <= k < front.len() implies is_blank(#[trigger] front[k]) by {
            assert(front[k] == line[k]);
        }
        lemma_blank_scan(r, front);
        assert(is_blank(line[line.len() - 1]));
    }
}

/// A blank line or comment line at the start of an input is no usable line
/// and is skipped by the tokenizer; the input goes on behind it.
pub proof fn lemma_skipped_line(r: Rules, line: Seq<u8>, eol: u8, b: Seq<u8>)
    requires
        transparent(r, line),
        is_eol(eol),
    ensures
        !first_usable(line.push(eol) + b, r.cmt),
        plain_span(line.push(eol) + b) == line.len() + 1,
        line_span(r, line.push(eol) + b) == line.len() + 1,
        (line.push(eol) + b).skip(line.len() as int + 1) == b,
        close(r, scan(r, first_line(r, line.push(eol) + b))) is Skip,
        observed(scan(r, first_line(r, line.push(eol) + b))) == 0,
{
    let x = line.push(eol) + b;
    let n = line.len() as int;
    lemma_mark_bounds(line, 0);
    let m = mark_from(line, 0);
    assert(x[n] == eol);
    assert forall|k: int| 0 <= k < n implies x[k] == line[k] by {}
    lemma_eol_from(x, 0, n);
    lemma_mark_from(x, 0, m);
    lemma_eol_from(x, m, n);
    lemma_spans_agree(r, x);
    assert forall|k: int| 0 <= k < m implies !is_stop(r, x[k]) by {
        assert(is_blank(line[k]));
    }
    assert(is_stop(r, x[m])) by {
        if m < n {
            assert(x[m] == r.cmt);
            assert(!is_blank(x[m]));
            assert(!is_eol(line[m]));
        }
    }
    lemma_stop_from(r, x, 0, m);
    lemma_eol_from(x, m, n);
    let head = first_line(r, x);
    assert(head =~= line.take(m));
    assert forall|k: int| 0 <= k < head.len() implies is_blank(#[trigger] head[k]) by {
        assert(head[k] == line[k]);
    }
    lemma_blank_scan(r, head);
    assert(x.skip(n + 1) =~= b);
}

/// The number of the lines before an input makes no difference to its rows.
pub proof fn lemma_rows_before(r: Rules, s: Seq<u8>, b1: int, b2: int, cap: int)
    ensures
        agree(rows(r, s, b1, cap), rows(r, s, b2, cap)),
    decreases s.len(),
{
    if cap <= 0 || s.len() == 0 || line_span(r, s) <= 0 {
    } else {
        let rest = s.skip(line_span(r, s));
        lemma_rows_before(r, rest, b1 + 1, b2 + 1, cap);
        lemma_rows_before(r, rest, b1 + 1, b2 + 1, cap - 1);
    }
}

/// The count of usable lines behind bytes that end where a line ends goes by
/// the count of what follows them.
pub proof fn lemma_usable_behind(a: Seq<u8>, t1: Seq<u8>, t2: Seq<u8>, com: u8)
    requires
        aligned(a),
        usable_lines(t1, com) == usable_lines(t2, com),
    ensures
        usable_lines(a + t1, com) == usable_lines(a + t2, com),
    decreases a.len(),
{
    if a.len() == 0 {
        assert(a + t1 =~= t1);
        assert(a + t2 =~= t2);
    } else {
        lemma_head(a, t1);
        lemma_head(a, t2);
        lemma_usable_behind(a.skip(after_eol(a, 0)), t1, t2, com);
    }
}

/// And so does the count of the fields of the first line that holds any.
pub proof fn lemma_count_behind(r: Rules, a: Seq<u8>, t1: Seq<u8>, t2: Seq<u8>)
    requires
        plain_lines(r),
        aligned(a),
        first_field_count(r, t1) == first_field_count(r, t2),
    ensures
        first_field_count(r, a + t1) == first_field_count(r, a + t2),
    decreases a.len(),
{
    if a.len() == 0 {
        assert(a + t1 =~= t1);
        assert(a + t2 =~= t2);
    } else {
        lemma_head(a, t1);
        lemma_head(a, t2);
        lemma_head_scan(r, a, t1);
        lemma_head_scan(r, a, t2);
        lemma_count_behind(r, a.skip(after_eol(a, 0)), t1, t2);
    }
}

/// And so do the rows.
pub proof fn lemma_rows_behind(
    r: Rules,
    a: Seq<u8>,
    t1: Seq<u8>,
    t2: Seq<u8>,
    b1: int,
    b2: int,
    cap: int,
)
    requires
        plain_lines(r),
        aligned(a),
        forall|x: int, y: int, c: int| agree(#[trigger] rows(r, t1, x, c), #[trigger] rows(r, t2, y, c)),
    ensures
        agree(rows(r, a + t1, b1, cap), rows(r, a + t2, b2, cap)),
    decreases a.len(),
{
    if a.len() == 0 {
        assert(a + t1 =~= t1);
        assert(a + t2 =~= t2);
    } else if cap <= 0 {
    } else {
        lemma_head(a, t1);
        lemma_head(a, t2);
        lemma_head_scan(r, a, t1);
        lemma_head_scan(r, a, t2);
        let rest = a.skip(after_eol(a, 0));
        lemma_rows_behind(r, rest, t1, t2, b1 + 1, b2 + 1, cap);
        lemma_rows_behind(r, rest, t1, t2, b1 + 1, b2 + 1, cap - 1);
        match close(r, scan(r, first_line(r, a))) {
            LineEnd::Skip => {},
            LineEnd::Row(_) => {},
            _ => {},
        }
    }
}

/// The header of an input with one more blank line or comment line ends at
/// the same place within the bytes before that line, or behind the line by
/// as much as the line takes.
pub proof fn lemma_header_behind(
    r: Rules,
    a: Seq<u8>,
    line: Seq<u8>,
    eol: u8,
    b: Seq<u8>,
    n: int,
)
    requires
        aligned(a),
        transparent(r, line),
        is_eol(eol),
    ensures
        ({
            let hx = header_span(a + (line.push(eol) + b), r.cmt, n);
            let hy = header_span(a + b, r.cmt, n);
            ||| (hx == hy && 0 <= hy <= a.len() && aligned(a.skip(hy)))
            ||| (hx == hy + line.len() + 1 && a.len() <= hy <= a.len() + b.len())
        }),
    decreases a.len(),
{
    let ins = line.push(eol);
    let x = a + (ins + b);
    let y = a + b;
    if n <= 0 {
        assert(a.skip(0) =~= a);
    } else if a.len() == 0 {
        assert(x =~= ins + b);
        assert(y =~= b);
        lemma_skipped_line(r, line, eol, b);
        lemma_header_bounds(b, r.cmt, n);
    } else {
        lemma_head(a, ins + b);
        lemma_head(a, b);
        let span = after_eol(a, 0);
        let rest = a.skip(span);
        let m = if first_usable(a, r.cmt) {
            n - 1
        } else {
            n
        };
        lemma_header_behind(r, rest, line, eol, b, m);
        let hy = header_span(rest + b, r.cmt, m);
        if hy <= rest.len() {
            assert(rest.skip(hy) =~= a.skip(span + hy));
        }
    }
}

/// A header ends within the input.
pub proof fn lemma_header_bounds(s: Seq<u8>, com: u8, n: int)
    ensures
        0 <= header_span(s, com, n) <= s.len(),
    decreases s.len(),
{
    if n <= 0 || s.len() == 0 || plain_span(s) <= 0 {
    } else {
        lemma_mark_bounds(s, 0);
        lemma_eol_bounds(s, mark_from(s, 0));
        lemma_header_bounds(
            s.skip(plain_span(s)),
            com,
            if first_usable(s, com) {
                n - 1
            } else {
                n
            },
        );
    }
}

} // verus!
