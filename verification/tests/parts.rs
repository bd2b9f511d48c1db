use data_reader::reader::convert::convert_lane;
use data_reader::reader::load::{from_raw_cols, from_raw_rows};
use data_reader::reader::parser::{check_cols, scan_rows};
use data_reader::reader::parser_core::CoreData;
use data_reader::reader::parser_utility::find_eol;
use data_reader::reader::{
    load_text, load_text_with, FromField, RawReaderParse, RawReaderResultsCols,
    RawReaderResultsRows, ReaderError, ReaderParams, ReaderResults,
};

fn digits(bytes: &[u8]) -> Option<u32> {
    let mut value: u32 = 0;
    for b in bytes {
        if !b.is_ascii_digit() {
            return None;
        }
        value = value * 10 + (b - b'0') as u32;
    }
    Some(value)
}

#[test]
fn behind_the_first_line_terminator() {
    assert_eq!(find_eol(b"ab\ncd\n", 0), 3);
    assert_eq!(find_eol(b"ab\ncd\n", 2), 3);
    assert_eq!(find_eol(b"ab\ncd\n", 3), 6);
    assert_eq!(find_eol(b"ab\rcd", 0), 3);
    assert_eq!(find_eol(b"ab\rcd", 3), 5);
    assert_eq!(find_eol(b"", 0), 0);
    assert_eq!(find_eol(b"abc", 3), 3);
}

#[test]
fn named_columns_become_field_numbers() {
    assert_eq!(check_cols(&vec![1, 0], 2), Ok(vec![2, 1]));
    assert_eq!(check_cols(&vec![], 0), Ok(vec![]));
    assert_eq!(
        check_cols(&vec![0, 1, 2], 2),
        Err(ReaderError::TooManyColumns { fields: 2 })
    );
    // A column out of range comes before a repeated one.
    assert_eq!(
        check_cols(&vec![0, 0, 5], 3),
        Err(ReaderError::ColumnOutOfRange { fields: 3 })
    );
    assert_eq!(check_cols(&vec![2, 0, 2], 3), Err(ReaderError::RepeatedColumn));
}

#[test]
fn slots_of_fields() {
    let none: Vec<usize> = vec![];
    let core = CoreData {
        length: 0,
        offset: 0,
        cmt: b'#',
        delim_ws: true,
        delim: b' ',
        fln: 0,
        cols: &none,
        field_counter: 0,
        current_field: 0,
        tot_fields: 3,
        gap: false,
    };
    assert_eq!(core.slot_of(0), 0);
    assert_eq!(core.slot_of(1), 1);
    assert_eq!(core.slot_of(3), 3);
    assert_eq!(core.slot_of(4), 0);

    let some: Vec<usize> = vec![3, 1];
    let core = CoreData { cols: &some, ..core };
    assert_eq!(core.slot_of(3), 1);
    assert_eq!(core.slot_of(1), 2);
    assert_eq!(core.slot_of(2), 0);
}

#[test]
fn tokenizer_from_the_middle_of_a_buffer() {
    let data = b"skip me\n1,2\n3,4\n5,6\n";
    let none: Vec<usize> = vec![];
    let mut core = CoreData {
        length: data.len(),
        offset: 8,
        cmt: b'#',
        delim_ws: false,
        delim: b',',
        fln: 1,
        cols: &none,
        field_counter: 0,
        current_field: 0,
        tot_fields: 2,
        gap: false,
    };
    let mut sink = RawReaderResultsRows::new(2, 2);
    assert_eq!(scan_rows(data, &mut core, &mut sink, 2), Ok(()));
    assert_eq!(sink.num_lines, 2);
    assert_eq!(sink.results, b"1234".to_vec());
    assert_eq!(sink.index, vec![1, 2, 3, 4]);

    let mut core = CoreData {
        offset: 0,
        fln: 0,
        field_counter: 0,
        gap: false,
        ..core
    };
    let mut sink = RawReaderResultsCols::new(2, 4);
    assert_eq!(
        scan_rows(data, &mut core, &mut sink, 4),
        Err(ReaderError::FieldCount {
            line: 1,
            found: 1,
            expected: 2
        })
    );
}

#[test]
fn values_of_one_buffer() {
    let results = b"12345".to_vec();
    let index = vec![2, 3, 5];
    let mut out = vec![7];
    assert_eq!(convert_lane(&results, &index, &mut out, &digits), Ok(()));
    assert_eq!(out, vec![7, 12, 3, 45]);

    let results = b"12x45".to_vec();
    let mut out = vec![7];
    assert_eq!(
        convert_lane(&results, &index, &mut out, &digits),
        Err(ReaderError::Conversion { index: 2 })
    );
}

#[test]
fn values_of_raw_results() {
    let rows = RawReaderResultsRows {
        num_fields: 2,
        num_lines: 2,
        results: b"1234567".to_vec(),
        index: vec![2, 3, 4, 7],
    };
    let table = from_raw_rows(&rows, &digits).unwrap();
    assert_eq!(table.results, vec![12, 3, 4, 567]);
    assert_eq!(table.get_value(1, 1), 567);

    let cols = RawReaderResultsCols {
        num_fields: 2,
        num_lines: 2,
        results: vec![b"124".to_vec(), b"3567".to_vec()],
        index: vec![vec![2, 3], vec![1, 4]],
    };
    let table = from_raw_cols(&cols, &digits).unwrap();
    assert_eq!(table.results, vec![12, 4, 3, 567]);
    assert_eq!(table.get_value(1, 1), 567);
    assert_eq!(table.get_value(0, 1), 3);

    let bad = RawReaderResultsCols {
        results: vec![b"124".to_vec(), b"3x67".to_vec()],
        ..cols
    };
    assert_eq!(
        from_raw_cols(&bad, &digits).unwrap_err(),
        ReaderError::Conversion { index: 3 }
    );
}

#[test]
fn a_parser_of_the_callers_own() {
    let p = ReaderParams::default();
    let t = load_text_with(b"1 22\n333 4\n", &p, digits).unwrap();
    assert_eq!(*t.get_results(), vec![1, 22, 333, 4]);
    assert_eq!(
        load_text_with(b"1 22\n3-3 4\n", &p, digits).unwrap_err(),
        ReaderError::Conversion { index: 2 }
    );
    // The raw read fails before any field is parsed.
    assert_eq!(
        load_text_with(b"1 22\n333\n", &p, digits).unwrap_err(),
        ReaderError::FieldCount {
            line: 2,
            found: 1,
            expected: 2
        }
    );
}

#[test]
fn fields_as_values_of_a_type() {
    assert_eq!(<i32 as FromField>::parse_field(b"-12"), Some(-12));
    assert_eq!(<i32 as FromField>::parse_field(b"12a"), None);
    assert_eq!(<i32 as FromField>::parse_field(b""), None);
    assert_eq!(<u8 as FromField>::parse_field(b"255"), Some(255));
    assert_eq!(<u8 as FromField>::parse_field(b"256"), None);
    assert_eq!(<bool as FromField>::parse_field(b"true"), Some(true));
    assert_eq!(<bool as FromField>::parse_field(b"false"), Some(false));
    assert_eq!(<bool as FromField>::parse_field(b"tru"), None);
    assert_eq!(<bool as FromField>::parse_field(b"truee"), None);
    assert_eq!(<char as FromField>::parse_field(b"x"), Some('x'));
    assert_eq!(<char as FromField>::parse_field(b""), None);
    assert_eq!(<char as FromField>::parse_field(b"xy"), None);
    assert_eq!(
        <String as FromField>::parse_field(b"text"),
        Some("text".to_string())
    );
    assert_eq!(<String as FromField>::parse_field(b"\xc3"), None);
    let t = load_text::<u16>(b"1 2\n", &ReaderParams::default()).unwrap();
    assert_eq!(*t.get_results(), vec![1, 2]);
}
