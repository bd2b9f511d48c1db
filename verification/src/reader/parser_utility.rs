//! Passes over the input that come before the tokenizer: counting lines,
//! skipping the header and counting the fields of a line.

use vstd::prelude::*;
use vstd::slice::slice_subrange;
use crate::reader::classify::{ByteClass, CR, LF, SPACE, TAB, classify, is_blank, is_eol};
use crate::reader::line_lemmas::{
    lemma_eol_bounds, lemma_eol_shift, lemma_line_at, lemma_mark_from, lemma_scan_push,
};
use crate::reader::line_model::{
    LineScan, after_eol, counting_rules, eol_from, first_field_count, header_lines, header_span,
    is_stop, line_span, plain_span, scan, start_of_line, step, usable_lines,
};
use crate::reader::parser_core::ParserState;

verus! {

/// `memchr::memchr2` returns the index of the first byte of `haystack` that
/// equals one of the two needles, and `None` if no byte does.
pub assume_specification[ memchr::memchr2 ](needle1: u8, needle2: u8, haystack: &[u8]) -> (r:
    Option<usize>)
    ensures
        match r {
            Some(i) => {
                &&& i < haystack@.len()
                &&& (haystack@[i as int] == needle1 || haystack@[i as int] == needle2)
                &&& forall|j: int|
                    0 <= j < i ==> haystack@[j] != needle1 && haystack@[j] != needle2
            },
            None => forall|j: int|
                0 <= j < haystack@.len() ==> haystack@[j] != needle1 && haystack@[j] != needle2,
        },
;

/// The first line terminator from `i` on is at `j` if none stands before `j`
/// and one stands at `j`, or `j` is the end.
pub proof fn lemma_eol_from(s: Seq<u8>, i: int, j: int)
    requires
        0 <= i <= j <= s.len(),
        forall|k: int| i <= k < j ==> !is_eol(s[k]),
        j == s.len() || is_eol(s[j]),
    ensures
        eol_from(s, i) == j,
    decreases j - i,
{
    if i < j {
        lemma_eol_from(s, i + 1, j);
    }
}

/// The index just behind the first line terminator of `buffer` from `from`
/// on, or the length of `buffer` if there is none.
pub fn find_eol(buffer: &[u8], from: usize) -> (end: usize)
    requires
        from <= buffer@.len(),
    ensures
        end == after_eol(buffer@, from as int),
        from <= end <= buffer@.len(),
        from < buffer@.len() ==> from < end,
{
    let rest = slice_subrange(buffer, from, buffer.len());
    match memchr::memchr2(LF, CR, rest) {
        Some(i) => {
            proof {
                assert(rest@[i as int] == buffer@[from + i]);
                assert forall|k: int| from <= k < from + i implies !is_eol(buffer@[k]) by {
                    assert(rest@[k - from] == buffer@[k]);
                }
                lemma_eol_from(buffer@, from as int, from + i);
            }
            from + i + 1
        },
        None => {
            proof {
                assert forall|k: int| from <= k < buffer@.len() implies !is_eol(buffer@[k]) by {
                    assert(rest@[k - from] == buffer@[k]);
                }
                lemma_eol_from(buffer@, from as int, buffer@.len() as int);
            }
            buffer.len()
        },
    }
}

/// The number of bytes of `s` that equal `b`.
pub open spec fn occurrences(s: Seq<u8>, b: u8) -> nat {
    s.filter(|x: u8| x == b).len()
}

/// `bytecount::count` returns the number of bytes of `haystack` that equal
/// `needle`.
pub assume_specification[ bytecount::count ](haystack: &[u8], needle: u8) -> (n: usize)
    ensures
        n == occurrences(haystack@, needle),
;

/// The number of bytes of `buf` that equal `eol`.
fn count_lines(buf: &[u8], eol: u8) -> (n: usize)
    ensures
        n == occurrences(buf@, eol),
{
    bytecount::count(buf, eol)
}

/// The number of line feeds in `buffer`: the number of lines of an input in
/// which a line feed ends every line. Comments and blank lines count.
pub fn read_num_file_tot_lines(buffer: &[u8]) -> (count: usize)
    ensures
        count == occurrences(buffer@, LF),
{
    count_lines(buffer, LF)
}

/// The number of usable lines of `buffer`: the lines whose first byte that is
/// no space or tab is neither a line terminator nor the comment byte `com`.
/// Line feed and carriage return each end a line.
pub fn read_num_file_lines(buffer: &[u8], com: u8) -> (count: usize)
    ensures
        count == usable_lines(buffer@, com),
{
    let length = buffer.len();
    let mut count: usize = 0;
    let mut i: usize = 0;
    let ghost mut ls: int = 0;
    proof {
        assert(buffer@.skip(0) =~= buffer@);
    }
    while i < length
        invariant
            length == buffer@.len(),
            0 <= ls <= i <= length,
            count <= ls,
            forall|k: int| ls <= k < i ==> is_blank(buffer@[k]),
            count + usable_lines(buffer@.skip(ls), com) == usable_lines(buffer@, com),
        decreases length - i,
    {
        let b = buffer[i];
        if b == SPACE || b == TAB {
            i += 1;
        } else {
            let ghost s = buffer@.skip(ls);
            proof {
                assert forall|k: int| 0 <= k < i - ls implies is_blank(s[k]) by {
                    assert(s[k] == buffer@[ls + k]);
                }
                assert(s[i - ls] == b);
                lemma_mark_from(s, 0, i - ls);
                lemma_eol_shift(buffer@, ls, i - ls);
                lemma_eol_bounds(buffer@, i as int);
                assert(s.skip(plain_span(s)) =~= buffer@.skip(after_eol(buffer@, i as int)));
            }
            if !(b == LF || b == CR || b == com) {
                count += 1;
            }
            i = find_eol(buffer, i);
            proof {
                ls = i as int;
            }
        }
    }
    proof {
        let s = buffer@.skip(ls);
        assert forall|k: int| 0 <= k < s.len() implies is_blank(s[k]) by {
            assert(s[k] == buffer@[ls + k]);
        }
        lemma_mark_from(s, 0, s.len() as int);
        if s.len() > 0 {
            assert(plain_span(s) == s.len());
            assert(s.skip(plain_span(s)).len() == 0);
            assert(usable_lines(s.skip(plain_span(s)), com) == 0);
        }
        assert(usable_lines(s, com) == 0);
    }
    count
}

/// Passes over the first `sk_h` usable lines of `buffer`, with the blank and
/// comment lines before and between them, and returns the index behind them:
/// behind the terminator of the last of those lines, or the length of
/// `buffer` if it has no more usable lines than that. `fln` goes up by the
/// number of lines passed.
pub fn skip_header_lines(buffer: &[u8], fln: &mut usize, cmt: u8, sk_h: usize) -> (pos: usize)
    requires
        *old(fln) + buffer@.len() <= usize::MAX,
    ensures
        pos == header_span(buffer@, cmt, sk_h as int),
        pos <= buffer@.len(),
        *final(fln) == *old(fln) + header_lines(buffer@, cmt, sk_h as int),
        *final(fln) - *old(fln) <= pos,
{
    let length = buffer.len();
    let mut count: usize = 0;
    let mut i: usize = 0;
    let ghost mut ls: int = 0;
    proof {
        assert(buffer@.skip(0) =~= buffer@);
    }
    while i < length && count < sk_h
        invariant
            length == buffer@.len(),
            0 <= ls <= i <= length,
            count <= sk_h,
            count == sk_h ==> ls == i,
            *old(fln) + length <= usize::MAX,
            *old(fln) <= *fln <= *old(fln) + ls,
            forall|k: int| ls <= k < i ==> is_blank(buffer@[k]),
            ls + header_span(buffer@.skip(ls), cmt, sk_h - count) == header_span(
                buffer@,
                cmt,
                sk_h as int,
            ),
            *fln - *old(fln) + header_lines(buffer@.skip(ls), cmt, sk_h - count) == header_lines(
                buffer@,
                cmt,
                sk_h as int,
            ),
        decreases length - i,
    {
        let b = buffer[i];
        if b == SPACE || b == TAB {
            i += 1;
        } else {
            let ghost s = buffer@.skip(ls);
            proof {
                assert forall|k: int| 0 <= k < i - ls implies is_blank(s[k]) by {
                    assert(s[k] == buffer@[ls + k]);
                }
                assert(s[i - ls] == b);
                lemma_mark_from(s, 0, i - ls);
                lemma_eol_shift(buffer@, ls, i - ls);
                lemma_eol_bounds(buffer@, i as int);
                assert(s.skip(plain_span(s)) =~= buffer@.skip(after_eol(buffer@, i as int)));
            }
            if !(b == LF || b == CR || b == cmt) {
                count += 1;
            }
            i = find_eol(buffer, i);
            *fln += 1;
            proof {
                ls = i as int;
            }
        }
    }
    proof {
        let s = buffer@.skip(ls);
        if count < sk_h {
            assert forall|k: int| 0 <= k < s.len() implies is_blank(s[k]) by {
                assert(s[k] == buffer@[ls + k]);
            }
            lemma_mark_from(s, 0, s.len() as int);
            if s.len() > 0 {
                assert(plain_span(s) == s.len());
                assert(s.skip(plain_span(s)).len() == 0);
                assert(header_span(s.skip(plain_span(s)), cmt, sk_h - count) == 0);
                assert(header_lines(s.skip(plain_span(s)), cmt, sk_h - count) == 0);
            }
            assert(header_span(s, cmt, sk_h - count) == s.len());
            assert(header_lines(s, cmt, sk_h - count) == 0);
        }
    }
    i
}

/// The number of fields of the first line of `buffer` that holds any, or 0
/// if no line does. Fields are counted as the tokenizer counts them: by the
/// comment byte `cmt`, the delimiter `delim`, and blanks as separators if
/// `delim_ws` is set; a separator at the end of the line opens no field.
pub fn count_num_fields(buffer: &[u8], cmt: u8, delim: u8, delim_ws: bool) -> (fields: usize)
    ensures
        fields == first_field_count(counting_rules(cmt, delim, delim_ws), buffer@),
{
    let ghost rules = counting_rules(cmt, delim, delim_ws);
    let length = buffer.len();
    let mut field_counter: usize = 0;
    let mut state = ParserState::NwLine;
    let mut i: usize = 0;
    let ghost mut ls: int = 0;
    let ghost mut sc: LineScan = start_of_line();
    proof {
        assert(buffer@.skip(0) =~= buffer@);
        assert(buffer@.subrange(0, 0) =~= Seq::<u8>::empty());
    }
    while i < length
        invariant
            length == buffer@.len(),
            rules == counting_rules(cmt, delim, delim_ws),
            0 <= ls <= i <= length,
            forall|k: int| ls <= k < i ==> !is_stop(rules, buffer@[k]),
            sc == scan(rules, buffer@.subrange(ls, i as int)),
            state == sc.state,
            state != ParserState::Field,
            field_counter == sc.counter,
            field_counter <= i - ls,
            state == ParserState::Delim ==> field_counter >= 1,
            state == ParserState::NwLine ==> ls == i,
            first_field_count(rules, buffer@.skip(ls)) == first_field_count(rules, buffer@),
        decreases length - i,
    {
        let b = buffer[i];
        let ghost s = buffer@.skip(ls);
        match classify(b, delim_ws, delim, cmt) {
            ByteClass::Newline | ByteClass::Comment => {
                let seen = match state {
                    ParserState::NwLine => 0,
                    ParserState::Delim => field_counter - 1,
                    _ => field_counter,
                };
                proof {
                    lemma_line_at(rules, buffer@, ls, i as int);
                }
                if seen > 0 {
                    return seen;
                }
                i = find_eol(buffer, i);
                state = ParserState::NwLine;
                field_counter = 0;
                proof {
                    ls = i as int;
                    sc = start_of_line();
                    assert(buffer@.subrange(ls, ls) =~= Seq::<u8>::empty());
                }
            },
            class => {
                proof {
                    lemma_scan_push(rules, buffer@, ls, i as int);
                    sc = step(rules, sc, b);
                }
                let blank_pads = class == ByteClass::Whitespace && !delim_ws;
                if class == ByteClass::Content {
                    state =
                    match state {
                        ParserState::NwLine => {
                            field_counter = 1;
                            ParserState::SkField
                        },
                        ParserState::Space => {
                            if field_counter == 0 {
                                field_counter = 1;
                            }
                            ParserState::SkField
                        },
                        _ => ParserState::SkField,
                    };
                } else if blank_pads {
                    state =
                    match state {
                        ParserState::NwLine | ParserState::Delim | ParserState::Space => {
                            ParserState::Space
                        },
                        other => other,
                    };
                } else {
                    state =
                    match state {
                        ParserState::NwLine => {
                            field_counter = 1;
                            ParserState::Delim
                        },
                        ParserState::Delim => ParserState::Delim,
                        _ => {
                            field_counter += 1;
                            ParserState::Delim
                        },
                    };
                }
                i += 1;
            },
        }
    }
    let seen = match state {
        ParserState::NwLine => 0,
        ParserState::Delim => field_counter - 1,
        _ => field_counter,
    };
    proof {
        let s = buffer@.skip(ls);
        lemma_line_at(rules, buffer@, ls, i as int);
        if s.len() > 0 {
            assert(s.skip(line_span(rules, s)).len() == 0);
            assert(first_field_count(rules, s.skip(line_span(rules, s))) == 0);
        }
    }
    seen
}

} // verus!
