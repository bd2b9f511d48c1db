//! The typed read: from the bytes of an input to a table of values.

use vstd::prelude::*;
use crate::reader::{ReaderError, ReaderParams};
use crate::reader::convert::{
    FromField, bad_from, convert_lane, lemma_bad_at, read_by, reads, reads_some, stopped_at,
    typed_as,
};
use crate::reader::line_model::flat;
use crate::reader::parser::{parse_model, parse_txt};
use crate::reader::raw_results::{
    ROOM_MAX,
    RawReaderParse, RawReaderResultsCols, RawReaderResultsRows, fields_of,
};
use crate::reader::reader_results::{ReaderResults, ReaderResultsCol, ReaderResultsRow, ReaderTable};
use crate::reader::row_shape::{lemma_flat_index, lemma_flat_len};
use crate::reader::table_model::{
    bytes_of, column, columns, lemma_lane_cols, lemma_lane_rows, lemma_table_shape, stored_cells,
};

verus! {

/// The values of a raw result stored row by row, read with the parser
/// `parse`.
pub fn from_raw_rows<T: Clone, F: Fn(&[u8]) -> Option<T>>(
    raw: &RawReaderResultsRows,
    parse: &F,
) -> (r: Result<ReaderResultsRow<T>, ReaderError>)
    requires
        raw.wf(),
        raw.index@.len() == raw.num_lines * raw.num_fields,
        forall|b: &[u8]| #[trigger] parse.requires((b,)),
    ensures
        match r {
            Ok(table) => {
                &&& table.wf()
                &&& table.num_fields == raw.num_fields
                &&& table.num_lines == raw.num_lines
                &&& read_by(*parse, fields_of(raw.results@, raw.index@), table.results@)
            },
            Err(e) => e matches ReaderError::Conversion { index: at } && stopped_at::<T, F>(
                *parse,
                fields_of(raw.results@, raw.index@),
                at as int,
            ),
        },
{
    let num_items = raw.index.len();
    let mut results: Vec<T> = Vec::new();
    if num_items <= ROOM_MAX {
        results.reserve(num_items);
    }
    match convert_lane::<T, F>(&raw.results, &raw.index, &mut results, parse) {
        Ok(()) => {
            assert(results@.subrange(0, results@.len() as int) =~= results@);
            Ok(
                ReaderResultsRow {
                    num_fields: raw.num_fields,
                    num_lines: raw.num_lines,
                    results,
                },
            )
        },
        Err(e) => Err(e),
    }
}

/// The fields of a raw result stored column by column, column after column.
pub open spec fn cols_cells(raw: &RawReaderResultsCols) -> Seq<Seq<u8>> {
    flat(
        Seq::new(
            raw.num_fields as nat,
            |l: int| fields_of(raw.results@[l]@, raw.index@[l]@),
        ),
    )
}

/// The values of a raw result stored column by column, read with the parser
/// `parse`.
pub fn from_raw_cols<T: Clone, F: Fn(&[u8]) -> Option<T>>(
    raw: &RawReaderResultsCols,
    parse: &F,
) -> (r: Result<ReaderResultsCol<T>, ReaderError>)
    requires
        raw.wf(),
        forall|l: int| 0 <= l < raw.num_fields ==> (#[trigger] raw.index@[l])@.len() == raw.num_lines,
        forall|b: &[u8]| #[trigger] parse.requires((b,)),
    ensures
        match r {
            Ok(table) => {
                &&& table.wf()
                &&& table.num_fields == raw.num_fields
                &&& table.num_lines == raw.num_lines
                &&& read_by(*parse, cols_cells(raw), table.results@)
            },
            Err(e) => e matches ReaderError::Conversion { index: at } && stopped_at::<T, F>(
                *parse,
                cols_cells(raw),
                at as int,
            ),
        },
{
    let nf = raw.num_fields;
    let nl = raw.num_lines;
    let ghost lanes = Seq::new(nf as nat, |l: int| fields_of(raw.results@[l]@, raw.index@[l]@));
    let ghost cells = cols_cells(raw);
    proof {
        lemma_flat_len(lanes, nl as int);
        assert(nf * nl == nl * nf) by (nonlinear_arith);
    }
    let mut results: Vec<T> = Vec::new();
    let mut l: usize = 0;
    while l < nf
        invariant
            raw.wf(),
            nf == raw.num_fields,
            nl == raw.num_lines,
            forall|b: &[u8]| #[trigger] parse.requires((b,)),
            forall|k: int| 0 <= k < nf ==> (#[trigger] raw.index@[k])@.len() == nl,
            lanes == Seq::new(nf as nat, |k: int| fields_of(raw.results@[k]@, raw.index@[k]@)),
            cells == flat(lanes),
            cells.len() == nf * nl,
            l <= nf,
            results@.len() == l * nl,
            forall|k: int|
                0 <= k < l * nl ==> reads(*parse, cells[k], Some(#[trigger] results@[k])),
        decreases nf - l,
    {
        let ghost lane = lanes[l as int];
        let ghost before = results@;
        proof {
            assert(l * nl + nl <= nf * nl && 0 <= l * nl) by (nonlinear_arith)
                requires
                    0 <= l < nf,
                    0 <= nl,
            ;
            assert(raw.index@[l as int]@.len() == nl);
            assert forall|k: int| 0 <= k < nl implies cells[l * nl + k] == #[trigger] lane[k] by {
                lemma_flat_index(lanes, nl as int, l as int, k);
            }
        }
        if nl <= ROOM_MAX {
            results.reserve(nl);
        }
        match convert_lane::<T, F>(&raw.results[l], &raw.index[l], &mut results, parse) {
            Ok(()) => {
                proof {
                    let tail = results@.subrange(before.len() as int, results@.len() as int);
                    assert((l + 1) * nl == l * nl + nl) by (nonlinear_arith);
                    assert forall|k: int| 0 <= k < (l + 1) * nl implies reads(
                        *parse,
                        cells[k],
                        Some(#[trigger] results@[k]),
                    ) by {
                        if k >= l * nl {
                            assert(cells[l * nl + (k - l * nl)] == lane[k - l * nl]);
                            assert(results@[k] == tail[k - l * nl]);
                        } else {
                            assert(results@[k] == before[k]);
                        }
                    }
                }
            },
            Err(e) => {
                proof {
                    let at = e->index;
                    let b = at - l * nl;
                    assert(cells[l * nl + b] == lane[b]);
                    assert forall|k: int| 0 <= k < l * nl + b implies reads_some::<T, F>(
                        *parse,
                        #[trigger] cells[k],
                    ) by {
                        if k >= l * nl {
                            assert(cells[l * nl + (k - l * nl)] == lane[k - l * nl]);
                        } else {
                            assert(reads(*parse, cells[k], Some(before[k])));
                        }
                    }
                }
                return Err(e);
            },
        }
        l += 1;
    }
    Ok(ReaderResultsCol { num_fields: nf, num_lines: nl, results })
}

/// What a read of `data` with the parameters `p` and the parser `f` gives.
///
/// Where the raw read fails, its error. Otherwise the fields are handed to
/// the parser in the order of storage. Where it gives no value for a field,
/// a conversion error that names the place of that field; it gave a value
/// for each field before. Where it gives a value for every field, a table in
/// the order that `p.row_format` asks for, with the columns and rows of the
/// raw read and with the value of every field in its place.
pub open spec fn read_with<T: Clone, F: Fn(&[u8]) -> Option<T>>(
    data: Seq<u8>,
    p: ReaderParams,
    f: F,
    r: Result<ReaderTable<T>, ReaderError>,
) -> bool {
    match parse_model(data, p) {
        Err(e) => r == Err::<ReaderTable<T>, ReaderError>(e),
        Ok(t) => {
            let cells = stored_cells(t, p.row_format);
            match r {
                Ok(table) => {
                    &&& table.wf()
                    &&& table is Row <==> p.row_format
                    &&& table.fields() == t.fields
                    &&& table.lines() == t.rows.len()
                    &&& read_by(f, cells, table.values())
                },
                Err(e) => e matches ReaderError::Conversion { index: at } && stopped_at::<T, F>(
                    f,
                    cells,
                    at as int,
                ),
            }
        },
    }
}

/// Reads `data` with the parameters `params` into a table of the values
/// that the parser `parse` gives for the fields, stored row by row if
/// `params.row_format` is set and column by column if not.
pub fn load_text_with<T: Clone, F: Fn(&[u8]) -> Option<T>>(
    data: &[u8],
    params: &ReaderParams,
    parse: F,
) -> (r: Result<ReaderTable<T>, ReaderError>)
    requires
        forall|b: &[u8]| #[trigger] parse.requires((b,)),
    ensures
        read_with(data@, *params, parse, r),
{
    if params.row_format {
        let raw = match parse_txt::<RawReaderResultsRows>(data, params) {
            Ok(raw) => raw,
            Err(e) => {
                return Err(e);
            },
        };
        proof {
            let t = parse_model(data@, *params)->Ok_0;
            lemma_table_shape(data@, *params);
            lemma_lane_rows(flat(t.rows));
            lemma_flat_len(t.rows, t.fields);
            assert(raw.lanes()[0].closed == bytes_of(flat(t.rows)));
            assert(bytes_of(flat(t.rows)).len() == flat(t.rows).len());
        }
        match from_raw_rows::<T, F>(&raw, &parse) {
            Ok(table) => Ok(ReaderTable::Row(table)),
            Err(e) => Err(e),
        }
    } else {
        let raw = match parse_txt::<RawReaderResultsCols>(data, params) {
            Ok(raw) => raw,
            Err(e) => {
                return Err(e);
            },
        };
        proof {
            let t = parse_model(data@, *params)->Ok_0;
            lemma_table_shape(data@, *params);
            assert forall|l: int| 0 <= l < raw.num_fields implies fields_of(
                #[trigger] raw.results@[l]@,
                raw.index@[l]@,
            ) == column(t.rows, l + 1) by {
                lemma_lane_cols(t.rows, l);
                assert(raw.lanes()[l].closed == column(t.rows, l + 1));
            }
            assert(Seq::new(
                raw.num_fields as nat,
                |l: int| fields_of(raw.results@[l]@, raw.index@[l]@),
            ) =~= columns(t.rows, t.fields));
            lemma_flat_len(columns(t.rows, t.fields), t.rows.len() as int);
            assert forall|l: int| 0 <= l < raw.num_fields implies (#[trigger] raw.index@[l])@.len()
                == raw.num_lines by {
                assert(fields_of(raw.results@[l]@, raw.index@[l]@).len() == raw.index@[l]@.len());
            }
        }
        match from_raw_cols::<T, F>(&raw, &parse) {
            Ok(table) => Ok(ReaderTable::Col(table)),
            Err(e) => Err(e),
        }
    }
}

/// What a read of `data` with the parameters `p` into a table of values of
/// `T` gives.
///
/// Where the raw read fails, its error. Where a field is not the text of a
/// value, a conversion error that names the place of the first such field in
/// the order of storage. Otherwise a table in the order that `p.row_format`
/// asks for, with the columns and rows of the raw read and with the value of
/// every field in its place.
pub open spec fn read_as<T: FromField + Clone>(
    data: Seq<u8>,
    p: ReaderParams,
    r: Result<ReaderTable<T>, ReaderError>,
) -> bool {
    match parse_model(data, p) {
        Err(e) => r == Err::<ReaderTable<T>, ReaderError>(e),
        Ok(t) => {
            let cells = stored_cells(t, p.row_format);
            if bad_from::<T>(cells, 0) < cells.len() {
                r == Err::<ReaderTable<T>, ReaderError>(
                    ReaderError::Conversion { index: bad_from::<T>(cells, 0) as usize },
                )
            } else {
                &&& r.is_ok()
                &&& r.unwrap().wf()
                &&& r.unwrap() is Row <==> p.row_format
                &&& r.unwrap().fields() == t.fields
                &&& r.unwrap().lines() == t.rows.len()
                &&& typed_as::<T>(cells, r.unwrap().values())
            }
        },
    }
}

/// Reads `data` with the parameters `params` into a table of values of `T`,
/// stored row by row if `params.row_format` is set and column by column if
/// not.
///
/// The read fails as the raw read does, and where a field is not the text of
/// a value: the error then names the place of the first such field in the
/// order of storage. Otherwise the table holds the value of every field of
/// the kept lines.
pub fn load_text<T: FromField + Clone>(data: &[u8], params: &ReaderParams) -> (r: Result<
    ReaderTable<T>,
    ReaderError,
>)
    ensures
        read_as::<T>(data@, *params, r),
{
    let parse = |b: &[u8]| -> (v: Option<T>)
        ensures
            v.is_some() == T::parsable(b@),
            v.is_some() ==> T::parses_to(b@, v.unwrap()),
        { T::parse_field(b) };
    let r = load_text_with::<T, _>(data, params, parse);
    proof {
        match parse_model(data@, *params) {
            Err(_) => {},
            Ok(t) => {
                let cells = stored_cells(t, params.row_format);
                if r.is_ok() {
                        let table = r->Ok_0;
                        assert forall|k: int| 0 <= k < cells.len() implies T::parsable(
                            #[trigger] cells[k],
                        ) && T::parses_to(cells[k], table.values()[k]) by {
                            assert(reads(parse, cells[k], Some(table.values()[k])));
                        }
                        lemma_bad_at::<T>(cells, 0, cells.len() as int);
                } else {
                        let e = r->Err_0;
                        let at = e->index as int;
                        assert forall|k: int| 0 <= k < at implies T::parsable(
                            #[trigger] cells[k],
                        ) by {
                            assert(reads_some::<T, _>(parse, cells[k]));
                        }
                        lemma_bad_at::<T>(cells, 0, at);
                }
            },
        }
    }
    r
}

} // verus!
