//! Reader parameters, errors and the modules of the reader.

use vstd::prelude::*;

/// Byte classes.
pub mod classify;
/// The meaning of a read.
pub mod line_model;
/// Facts about lines.
pub mod line_lemmas;
/// The tokenizer.
pub mod parser_core;
/// Raw results.
pub mod raw_results;
/// The shape of a row.
pub mod row_shape;
/// From bytes to values.
pub mod convert;
/// Fields as they are stored.
pub mod table_model;
/// The typed read.
pub mod load;
/// Readers of signed integers.
pub mod int_reader;
/// Readers of unsigned integers.
pub mod uint_reader;
/// Readers of texts, truth values and characters.
pub mod prim_reader;
/// The order of the kept columns.
pub mod column_order;
/// What holds of every read.
pub mod laws;
/// Lines of the tokenizer and usable lines.
pub mod line_structure;
/// Kept columns beside all columns.
pub mod column_subset;
/// Blank lines and comment lines.
pub mod transparency;
/// Typed tables.
pub mod reader_results;
/// The read itself.
pub mod parser;
/// Passes that come before the tokenizer.
pub mod parser_utility;

pub use self::classify::{classify, ByteClass};
pub use self::convert::FromField;
pub use self::int_reader::{load_txt_i128, load_txt_i16, load_txt_i32, load_txt_i64, load_txt_i8};
pub use self::load::{load_text, load_text_with};
pub use self::parser::parse_txt;
pub use self::parser_utility::{
    count_num_fields, read_num_file_lines, read_num_file_tot_lines, skip_header_lines,
};
pub use self::prim_reader::{load_txt_bool, load_txt_char, load_txt_string};
pub use self::raw_results::{RawReaderParse, RawReaderResultsCols, RawReaderResultsRows};
pub use self::reader_results::{ReaderResults, ReaderResultsCol, ReaderResultsRow, ReaderTable};
pub use self::uint_reader::{
    load_txt_u128, load_txt_u16, load_txt_u32, load_txt_u64, load_txt_u8, load_txt_usize,
};

verus! {

/// The separator between two fields of a line.
#[derive(Clone, Copy, Debug, PartialEq, Eq, Structural)]
pub enum Delimiter {
    /// Spaces and tabs separate fields; a run of them counts once.
    WhiteSpace,
    /// One explicit byte separates fields; spaces and tabs are padding.
    Any(u8),
}

/// The scalar types that a table can hold.
#[derive(Clone, Copy, Debug, PartialEq, Eq, Structural)]
pub enum DataType {
    Float32,
    Float64,
    Int8,
    Int16,
    Int32,
    Int64,
    Int128,
    Uint8,
    Uint16,
    Uint32,
    Uint64,
    Uint128,
    Uintsize,
    Boolean,
    Strings,
}

/// What a read should do.
///
/// `comments`: the byte that starts a comment; `None` switches comments off.
///
/// `delimiter`: what separates the fields of a line.
///
/// `skip_header`, `skip_footer`: how many usable lines to leave out at the
/// start and at the end. Blank and comment lines are not counted.
///
/// `usecols`: the 0-based columns to keep; `None` keeps all of them.
///
/// `max_rows`: the largest number of lines to keep.
///
/// `row_format`: `true` for a row-major table, `false` for a column-major one.
#[derive(Clone, Debug)]
pub struct ReaderParams {
    pub comments: Option<u8>,
    pub delimiter: Delimiter,
    pub skip_header: Option<usize>,
    pub skip_footer: Option<usize>,
    pub usecols: Option<Vec<usize>>,
    pub max_rows: Option<usize>,
    pub row_format: bool,
}

impl Default for ReaderParams {
    /// Comments start with `#`, blanks separate fields, nothing is skipped,
    /// every column is kept and the table is row-major.
    fn default() -> (p: ReaderParams)
        ensures
            p.comments == Some(0x23u8),
            p.delimiter == Delimiter::WhiteSpace,
            p.skip_header.is_none(),
            p.skip_footer.is_none(),
            p.usecols.is_none(),
            p.max_rows.is_none(),
            p.row_format,
    {
        ReaderParams {
            comments: Some(0x23u8),
            delimiter: Delimiter::WhiteSpace,
            skip_header: None,
            skip_footer: None,
            usecols: None,
            max_rows: None,
            row_format: true,
        }
    }
}

/// Why a read failed. A failed read returns no table.
#[derive(Clone, Copy, Debug, PartialEq, Eq, Structural)]
pub enum ReaderError {
    /// `skip_header` is not below the number of usable lines.
    SkipHeader,
    /// `skip_footer` is not below the number of usable lines.
    SkipFooter,
    /// `skip_header` and `skip_footer` together leave no usable line.
    SkipBoth,
    /// `usecols` names more columns than a line has fields.
    TooManyColumns { fields: usize },
    /// `usecols` names a column that no line has.
    ColumnOutOfRange { fields: usize },
    /// `usecols` names a column twice.
    RepeatedColumn,
    /// The line holds `found` fields where the first kept line held `expected`.
    /// `line` is the 1-based number of the line in the input, where a line
    /// feed and a carriage return each end a line.
    FieldCount { line: usize, found: usize, expected: usize },
    /// The line ends with the explicit delimiter.
    TrailingDelimiter { line: usize },
    /// The line has a kept column that holds only blanks.
    MissingField { line: usize },
    /// The field at this place of the table, counted from 0 in the order of
    /// storage, is not the text of a value.
    Conversion { index: usize },
}

} // verus!
