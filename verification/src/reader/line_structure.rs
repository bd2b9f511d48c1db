//! How the lines that the tokenizer reads and the usable lines that are
//! counted before it go together.

use vstd::prelude::*;
use crate::reader::classify::{ByteClass, class_of, is_blank, is_eol};
use crate::reader::line_lemmas::{lemma_eol_bounds, lemma_mark_bounds, lemma_stop_bounds};
use crate::reader::line_model::{
    LineEnd, LineScan, Rules, after_eol, close, eol_from, first_line, first_usable, header_span,
    is_stop, kept_fields, line_span, mark_from, observed, plain_span, rows, scan, scan_ok, step,
    stop_from, usable_lines,
};
use crate::reader::parser_core::ParserState;
use crate::reader::parser_utility::lemma_eol_from;
use crate::reader::row_shape::{
    lemma_row_shape, lemma_scan_shape, lemma_slots_len, slots_of, valid_cols,
};

verus! {

/// The rules keep lines apart as the count of usable lines does: a line
/// terminator is no delimiter, and the comment byte is none either.
pub open spec fn plain_lines(r: Rules) -> bool {
    r.delim_ws || (!is_eol(r.delim) && r.delim != r.cmt)
}

/// Under such rules a line of the tokenizer is a line of the count: both end
/// behind the first line terminator.
pub proof fn lemma_spans_agree(r: Rules, s: Seq<u8>)
    requires
        plain_lines(r),
    ensures
        line_span(r, s) == after_eol(s, 0),
        plain_span(s) == after_eol(s, 0),
        stop_from(r, s, 0) <= eol_from(s, 0),
        mark_from(s, 0) <= eol_from(s, 0),
{
    lemma_eol_bounds(s, 0);
    lemma_stop_bounds(r, s, 0);
    lemma_mark_bounds(s, 0);
    let e = eol_from(s, 0);
    let stop = stop_from(r, s, 0);
    let mark = mark_from(s, 0);
    if e < s.len() {
        assert(is_stop(r, s[e]));
        assert(!is_blank(s[e]));
    }
    lemma_eol_from(s, stop, e);
    lemma_eol_from(s, mark, e);
}

/// The scan has met a byte that is no blank: the line will not be skipped.
pub open spec fn engaged(r: Rules, sc: LineScan) -> bool {
    observed(sc) >= 1 || (sc.state == ParserState::Delim && !r.delim_ws)
}

/// A byte that is no blank engages the scan, and an engaged scan stays so.
pub proof fn lemma_engaged_step(r: Rules, sc: LineScan, b: u8)
    requires
        scan_ok(r, sc),
        !is_stop(r, b),
        engaged(r, sc) || !is_blank(b),
    ensures
        engaged(r, step(r, sc, b)),
{
}

/// The scan of a line with a byte that is no blank is engaged.
pub proof fn lemma_engaged_scan(r: Rules, line: Seq<u8>, m: int)
    requires
        r.tot_fields >= 0,
        forall|k: int| 0 <= k < line.len() ==> !is_stop(r, line[k]),
        0 <= m < line.len(),
        !is_blank(line[m]),
    ensures
        engaged(r, scan(r, line)),
    decreases line.len(),
{
    let front = line.drop_last();
    lemma_scan_shape(r, front);
    if m < line.len() - 1 {
        lemma_engaged_scan(r, front, m);
    }
    lemma_engaged_step(r, scan(r, front), line.last());
}

/// A usable line is not skipped by the tokenizer.
pub proof fn lemma_usable_not_skipped(r: Rules, s: Seq<u8>)
    requires
        r.tot_fields >= 0,
        plain_lines(r),
        first_usable(s, r.cmt),
    ensures
        !(close(r, scan(r, first_line(r, s))) is Skip),
{
    lemma_stop_bounds(r, s, 0);
    lemma_mark_bounds(s, 0);
    let mark = mark_from(s, 0);
    let stop = stop_from(r, s, 0);
    assert(!is_stop(r, s[mark]));
    assert(mark < stop);
    let line = first_line(r, s);
    assert(line[mark] == s[mark]);
    lemma_engaged_scan(r, line, mark);
}

/// A read that is not refused and is asked for no more lines than there are
/// usable ones gives as many rows as it is asked for.
pub proof fn lemma_rows_count(r: Rules, s: Seq<u8>, before: int, cap: int)
    requires
        r.tot_fields >= 0,
        plain_lines(r),
        rows(r, s, before, cap) is Ok,
        0 <= cap <= usable_lines(s, r.cmt),
    ensures
        rows(r, s, before, cap)->Ok_0.len() == cap,
    decreases s.len(),
{
    if cap <= 0 || s.len() == 0 {
    } else {
        lemma_spans_agree(r, s);
        lemma_eol_bounds(s, 0);
        let rest = s.skip(line_span(r, s));
        if first_usable(s, r.cmt) {
            lemma_usable_not_skipped(r, s);
        }
        match close(r, scan(r, first_line(r, s))) {
            LineEnd::Skip => {
                lemma_rows_count(r, rest, before + 1, cap);
            },
            LineEnd::Row(cells) => {
                lemma_rows_count(r, rest, before + 1, cap - 1);
                let more = rows(r, rest, before + 1, cap - 1)->Ok_0;
                assert(rows(r, s, before, cap)->Ok_0 == seq![cells] + more);
            },
            _ => {},
        }
    }
}

/// The usable lines behind a header of `n` usable lines are all but `n`.
pub proof fn lemma_header_usable(s: Seq<u8>, com: u8, n: int)
    requires
        0 <= n <= usable_lines(s, com),
    ensures
        0 <= header_span(s, com, n) <= s.len(),
        usable_lines(s.skip(header_span(s, com, n)), com) == usable_lines(s, com) - n,
    decreases s.len(),
{
    if n <= 0 || s.len() == 0 || plain_span(s) <= 0 {
        assert(s.skip(0) =~= s);
    } else {
        lemma_mark_bounds(s, 0);
        lemma_eol_bounds(s, mark_from(s, 0));
        let span = plain_span(s);
        let rest = s.skip(span);
        let m = if first_usable(s, com) {
            n - 1
        } else {
            n
        };
        lemma_header_usable(rest, com, m);
        assert(rest.skip(header_span(rest, com, m)) =~= s.skip(span + header_span(rest, com, m)));
    }
}

/// The bytes of usable line number `k` of `s`, counted from 0, without its
/// terminator; nothing if `s` has no such line.
pub open spec fn usable_line(s: Seq<u8>, com: u8, k: int) -> Seq<u8>
    decreases s.len(),
{
    if s.len() == 0 || plain_span(s) <= 0 || k < 0 {
        Seq::empty()
    } else if first_usable(s, com) && k == 0 {
        s.take(eol_from(s, 0))
    } else {
        usable_line(
            s.skip(plain_span(s)),
            com,
            if first_usable(s, com) {
                k - 1
            } else {
                k
            },
        )
    }
}

/// What becomes of a line with the bytes `line`.
pub open spec fn line_end(r: Rules, line: Seq<u8>) -> LineEnd {
    close(r, scan(r, first_line(r, line)))
}

/// The scan of a line ends in the line as it ends in the input.
pub proof fn lemma_first_line_of_line(r: Rules, s: Seq<u8>)
    requires
        plain_lines(r),
    ensures
        first_line(r, s.take(eol_from(s, 0))) == first_line(r, s),
{
    lemma_spans_agree(r, s);
    lemma_eol_bounds(s, 0);
    lemma_stop_bounds(r, s, 0);
    let e = eol_from(s, 0);
    let stop = stop_from(r, s, 0);
    let line = s.take(e);
    assert forall|k: int| 0 <= k < stop implies !is_stop(r, line[k]) by {
        assert(line[k] == s[k]);
    }
    if stop < e {
        assert(line[stop] == s[stop]);
    }
    crate::reader::line_lemmas::lemma_stop_from(r, line, 0, stop);
    assert(line.take(stop) =~= s.take(stop));
}

/// The bytes of a line are content.
pub open spec fn has_content(r: Rules, line: Seq<u8>) -> bool {
    exists|m: int|
        0 <= m < line.len() && class_of(#[trigger] line[m], r.delim_ws, r.delim, r.cmt)
            == ByteClass::Content
}

/// A line without content has no field.
pub proof fn lemma_no_content(r: Rules, line: Seq<u8>)
    requires
        forall|k: int| 0 <= k < line.len() ==> !is_stop(r, line[k]),
        !has_content(r, line),
    ensures
        scan(r, line).cells.len() == 0,
        scan(r, line).state != ParserState::Field,
        scan(r, line).state != ParserState::SkField,
    decreases line.len(),
{
    if line.len() > 0 {
        let front = line.drop_last();
        assert forall|m: int| 0 <= m < front.len() implies class_of(
            #[trigger] front[m],
            r.delim_ws,
            r.delim,
            r.cmt,
        ) != ByteClass::Content by {
            assert(front[m] == line[m]);
        }
        lemma_no_content(r, front);
        assert(class_of(line[line.len() - 1], r.delim_ws, r.delim, r.cmt) != ByteClass::Content);
    }
}

/// A line that the tokenizer keeps is a usable line.
pub proof fn lemma_row_is_usable(r: Rules, s: Seq<u8>)
    requires
        valid_cols(r),
        plain_lines(r),
        close(r, scan(r, first_line(r, s))) is Row,
    ensures
        first_usable(s, r.cmt),
{
    lemma_stop_bounds(r, s, 0);
    lemma_mark_bounds(s, 0);
    let line = first_line(r, s);
    let sc = scan(r, line);
    lemma_scan_shape(r, line);
    lemma_row_shape(r, sc);
    lemma_slots_len(r);
    assert(slots_of(close(r, sc)->Row_0).len() == close(r, sc)->Row_0.len());
    assert(kept_fields(r) >= 1);
    if !has_content(r, line) {
        lemma_no_content(r, line);
    }
    let m = choose|m: int|
        0 <= m < line.len() && class_of(#[trigger] line[m], r.delim_ws, r.delim, r.cmt)
            == ByteClass::Content;
    assert(line[m] == s[m]);
    let mark = mark_from(s, 0);
    let stop = stop_from(r, s, 0);
    assert(!is_blank(s[m]));
    assert(mark <= m < stop);
    assert(!is_stop(r, s[mark]));
}

/// Row number `i` of a read comes from usable line number `i` of its input.
pub proof fn lemma_rows_nth(r: Rules, s: Seq<u8>, before: int, cap: int, i: int)
    requires
        valid_cols(r),
        plain_lines(r),
        rows(r, s, before, cap) is Ok,
        0 <= i < rows(r, s, before, cap)->Ok_0.len(),
    ensures
        line_end(r, usable_line(s, r.cmt, i)) == LineEnd::Row(rows(r, s, before, cap)->Ok_0[i]),
    decreases s.len(),
{
    if cap <= 0 || s.len() == 0 {
    } else {
        lemma_spans_agree(r, s);
        lemma_eol_bounds(s, 0);
        let rest = s.skip(line_span(r, s));
        let end = close(r, scan(r, first_line(r, s)));
        if first_usable(s, r.cmt) {
            lemma_usable_not_skipped(r, s);
        }
        if end is Row {
            lemma_row_is_usable(r, s);
        }
        match end {
            LineEnd::Skip => {
                lemma_rows_nth(r, rest, before + 1, cap, i);
            },
            LineEnd::Row(cells) => {
                let more = rows(r, rest, before + 1, cap - 1)->Ok_0;
                assert(rows(r, s, before, cap)->Ok_0 == seq![cells] + more);
                if i == 0 {
                    lemma_first_line_of_line(r, s);
                } else {
                    lemma_rows_nth(r, rest, before + 1, cap - 1, i - 1);
                }
            },
            _ => {},
        }
    }
}

/// Usable line number `i` behind a header of `n` usable lines is usable line
/// number `n + i` of the input.
pub proof fn lemma_header_line(s: Seq<u8>, com: u8, n: int, i: int)
    requires
        0 <= n <= usable_lines(s, com),
        0 <= i,
    ensures
        usable_line(s.skip(header_span(s, com, n)), com, i) == usable_line(s, com, n + i),
    decreases s.len(),
{
    if n <= 0 || s.len() == 0 || plain_span(s) <= 0 {
        assert(s.skip(0) =~= s);
    } else {
        lemma_mark_bounds(s, 0);
        lemma_eol_bounds(s, mark_from(s, 0));
        let span = plain_span(s);
        let rest = s.skip(span);
        let m = if first_usable(s, com) {
            n - 1
        } else {
            n
        };
        lemma_header_usable(rest, com, m);
        lemma_header_line(rest, com, m, i);
        assert(rest.skip(header_span(rest, com, m)) =~= s.skip(span + header_span(rest, com, m)));
    }
}

} // verus!
