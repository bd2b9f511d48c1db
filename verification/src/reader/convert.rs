//! From the bytes of a field to a value: what a type needs to be read, and
//! the pass that turns a raw result into typed values.

use vstd::prelude::*;
use vstd::slice::slice_subrange;
use crate::reader::ReaderError;
use crate::reader::raw_results::{ends_in_order, fields_of, start_of};

verus! {

/// The error of `lexical`'s parsers. Nothing is known of a value of it.
#[verifier::external_type_specification]
#[verifier::external_body]
pub struct ExLexicalError(lexical::Error);

/// A type whose values can be read from the bytes of a field.
pub trait FromField: Sized {
    /// Whether `bytes` are the text of a value.
    spec fn parsable(bytes: Seq<u8>) -> bool;

    /// Whether `v` is the value that `bytes` are the text of.
    spec fn parses_to(bytes: Seq<u8>, v: Self) -> bool;

    /// The value that `bytes` are the text of, if they are the text of one.
    fn parse_field(bytes: &[u8]) -> (r: Option<Self>)
        ensures
            r.is_some() == Self::parsable(bytes@),
            r.is_some() ==> Self::parses_to(bytes@, r.unwrap()),
    ;
}

/// The first index from `i` on at which `cells` holds bytes that are not the
/// text of a value of `T`, or the length of `cells`.
pub open spec fn bad_from<T: FromField>(cells: Seq<Seq<u8>>, i: int) -> int
    decreases cells.len() - i,
{
    if i < 0 || i >= cells.len() {
        cells.len() as int
    } else if !T::parsable(cells[i]) {
        i
    } else {
        bad_from::<T>(cells, i + 1)
    }
}

/// `values` are the values of the fields `cells`, one for one.
pub open spec fn typed_as<T: FromField>(cells: Seq<Seq<u8>>, values: Seq<T>) -> bool {
    &&& values.len() == cells.len()
    &&& forall|i: int| 0 <= i < cells.len() ==> T::parses_to(cells[i], #[trigger] values[i])
}

/// Where the first field stands that is not the text of a value.
pub proof fn lemma_bad_from<T: FromField>(cells: Seq<Seq<u8>>, i: int)
    requires
        0 <= i <= cells.len(),
    ensures
        i <= bad_from::<T>(cells, i) <= cells.len(),
        bad_from::<T>(cells, i) < cells.len() ==> !T::parsable(cells[bad_from::<T>(cells, i)]),
        forall|k: int| i <= k < bad_from::<T>(cells, i) ==> T::parsable(#[trigger] cells[k]),
    decreases cells.len() - i,
{
    if i < cells.len() && T::parsable(cells[i]) {
        lemma_bad_from::<T>(cells, i + 1);
    }
}

/// The first field that is not the text of a value is at `j` if all fields
/// before `j` are and the one at `j` is not, or `j` is the end.
pub proof fn lemma_bad_at<T: FromField>(cells: Seq<Seq<u8>>, i: int, j: int)
    requires
        0 <= i <= j <= cells.len(),
        forall|k: int| i <= k < j ==> T::parsable(#[trigger] cells[k]),
        j == cells.len() || !T::parsable(cells[j]),
    ensures
        bad_from::<T>(cells, i) == j,
    decreases j - i,
{
    if i < j {
        lemma_bad_at::<T>(cells, i + 1, j);
    }
}

/// The parser `f` may give `r` for the bytes `bytes`.
pub open spec fn reads<T, F: Fn(&[u8]) -> Option<T>>(f: F, bytes: Seq<u8>, r: Option<T>) -> bool {
    exists|b: &[u8]| b@ == bytes && #[trigger] f.ensures((b,), r)
}

/// The parser `f` may give a value for the bytes `bytes`.
pub open spec fn reads_some<T, F: Fn(&[u8]) -> Option<T>>(f: F, bytes: Seq<u8>) -> bool {
    exists|v: T| #[trigger] reads(f, bytes, Some(v))
}

/// The parser gave the values `values` for the fields `cells`, one for one.
pub open spec fn read_by<T, F: Fn(&[u8]) -> Option<T>>(
    f: F,
    cells: Seq<Seq<u8>>,
    values: Seq<T>,
) -> bool {
    &&& values.len() == cells.len()
    &&& forall|i: int| 0 <= i < cells.len() ==> reads(f, cells[i], Some(#[trigger] values[i]))
}

/// The parser gave no value for the field `i` of `cells`, and a value for
/// each field before it.
pub open spec fn stopped_at<T, F: Fn(&[u8]) -> Option<T>>(f: F, cells: Seq<Seq<u8>>, i: int) -> bool {
    &&& 0 <= i < cells.len()
    &&& reads(f, cells[i], None::<T>)
    &&& forall|k: int| 0 <= k < i ==> reads_some::<T, F>(f, #[trigger] cells[k])
}

/// Reads the fields of one buffer of a raw result with the parser `parse`
/// and adds their values to `out`, in their order. The first field for which
/// the parser gives no value stops the pass; the error names its position,
/// counted from the number of values that `out` held before, and `out` holds
/// the values of the fields before it.
pub fn convert_lane<T, F: Fn(&[u8]) -> Option<T>>(
    results: &Vec<u8>,
    index: &Vec<usize>,
    out: &mut Vec<T>,
    parse: &F,
) -> (r: Result<(), ReaderError>)
    requires
        ends_in_order(index@, results@.len() as int),
        forall|b: &[u8]| #[trigger] parse.requires((b,)),
    ensures
        match r {
            Ok(()) => {
                &&& final(out)@.len() == old(out)@.len() + index@.len()
                &&& final(out)@.subrange(0, old(out)@.len() as int) == old(out)@
                &&& read_by(
                    *parse,
                    fields_of(results@, index@),
                    final(out)@.subrange(old(out)@.len() as int, final(out)@.len() as int),
                )
            },
            Err(e) => e matches ReaderError::Conversion { index: at } && {
                &&& stopped_at::<T, F>(*parse, fields_of(results@, index@), at - old(out)@.len())
                &&& final(out)@.len() == at
                &&& final(out)@.subrange(0, old(out)@.len() as int) == old(out)@
                &&& read_by(
                    *parse,
                    fields_of(results@, index@).take(at - old(out)@.len()),
                    final(out)@.subrange(old(out)@.len() as int, at as int),
                )
            },
        },
{
    let ghost cells = fields_of(results@, index@);
    let ghost before = out@;
    let num_items = index.len();
    let mut i: usize = 0;
    while i < num_items
        invariant
            num_items == index@.len(),
            cells == fields_of(results@, index@),
            ends_in_order(index@, results@.len() as int),
            forall|b: &[u8]| #[trigger] parse.requires((b,)),
            i <= num_items,
            before == old(out)@,
            out@.len() == before.len() + i,
            out@.subrange(0, before.len() as int) == before,
            forall|k: int|
                0 <= k < i ==> reads(*parse, cells[k], Some(#[trigger] out@[before.len() + k])),
        decreases num_items - i,
    {
        let j: usize = if i == 0 {
            0
        } else {
            index[i - 1]
        };
        let k: usize = index[i];
        assert(j == start_of(index@, i as int));
        let slice = slice_subrange(results.as_slice(), j, k);
        assert(slice@ == cells[i as int]);
        match parse(slice) {
            Some(value) => {
                let ghost prior = out@;
                out.push(value);
                assert(out@.subrange(0, before.len() as int) =~= prior.subrange(
                    0,
                    before.len() as int,
                ));
            },
            None => {
                proof {
                    assert forall|k: int| 0 <= k < i implies reads_some::<T, F>(
                        *parse,
                        #[trigger] cells[k],
                    ) by {
                        assert(reads(*parse, cells[k], Some(out@[before.len() + k])));
                    }
                    let tail = out@.subrange(before.len() as int, out@.len() as int);
                    assert forall|k: int| 0 <= k < i implies reads(
                        *parse,
                        cells.take(i as int)[k],
                        Some(#[trigger] tail[k]),
                    ) by {
                        assert(tail[k] == out@[before.len() + k]);
                    }
                }
                return Err(ReaderError::Conversion { index: out.len() });
            },
        }
        i += 1;
    }
    proof {
        let tail = out@.subrange(before.len() as int, out@.len() as int);
        assert forall|k: int| 0 <= k < cells.len() implies reads(
            *parse,
            cells[k],
            Some(#[trigger] tail[k]),
        ) by {
            assert(tail[k] == out@[before.len() + k]);
        }
    }
    Ok(())
}

} // verus!
