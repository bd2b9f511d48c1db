use data_reader::reader::classify::{classify, ByteClass};
use data_reader::reader::{
    count_num_fields, load_txt_bool, load_txt_char, load_txt_i128, load_txt_i32, load_txt_i64,
    load_txt_string, load_txt_u128, load_txt_u16, load_txt_u32, load_txt_u64, load_txt_u8,
    parse_txt, read_num_file_lines, read_num_file_tot_lines, skip_header_lines, DataType,
    Delimiter, RawReaderParse, RawReaderResultsCols, RawReaderResultsRows, ReaderError,
    ReaderParams, ReaderResults, ReaderTable,
};

const TEN: &[u8] =
    b"1 2 3\n4 5 6\n7 8 9\n10 11 12\n13 14 15\n16 17 18\n19 20 21\n22 23 24\n25 26 27\n28 29 30\n";

fn by_rows() -> ReaderParams {
    ReaderParams {
        comments: Some(b'%'),
        ..Default::default()
    }
}

fn by_cols() -> ReaderParams {
    ReaderParams {
        row_format: false,
        ..by_rows()
    }
}

#[test]
fn default_params() {
    let p = ReaderParams::default();
    assert_eq!(p.comments, Some(b'#'));
    assert_eq!(p.delimiter, Delimiter::WhiteSpace);
    assert_eq!(p.skip_header, None);
    assert_eq!(p.skip_footer, None);
    assert_eq!(p.usecols, None);
    assert_eq!(p.max_rows, None);
    assert!(p.row_format);
}

#[test]
fn data_types_are_distinct() {
    assert_ne!(DataType::Int32, DataType::Uint32);
    assert_eq!(DataType::Strings, DataType::Strings);
}

#[test]
fn classify_goes_by_priority() {
    // The explicit delimiter comes first, also where it is a blank or the comment byte.
    assert_eq!(classify(b',', false, b',', b'#'), ByteClass::Delimiter);
    assert_eq!(classify(b'\t', false, b'\t', b'#'), ByteClass::Delimiter);
    assert_eq!(classify(b'#', false, b'#', b'#'), ByteClass::Delimiter);
    // Where blanks separate, the delimiter byte has no class of its own.
    assert_eq!(classify(b' ', true, b' ', b'#'), ByteClass::Whitespace);
    assert_eq!(classify(b',', true, b',', b'#'), ByteClass::Content);
    assert_eq!(classify(b'\t', false, b',', b'#'), ByteClass::Whitespace);
    assert_eq!(classify(b'\n', false, b',', b'#'), ByteClass::Newline);
    assert_eq!(classify(b'\r', true, b' ', b'#'), ByteClass::Newline);
    // A comment byte that is a line terminator never gives a comment.
    assert_eq!(classify(b'\n', true, b' ', b'\n'), ByteClass::Newline);
    assert_eq!(classify(b'#', true, b' ', b'#'), ByteClass::Comment);
    assert_eq!(classify(b'7', true, b' ', b'#'), ByteClass::Content);
}

#[test]
fn total_lines_counts_line_feeds() {
    assert_eq!(read_num_file_tot_lines(b""), 0);
    assert_eq!(read_num_file_tot_lines(b"a\nb\n\n"), 3);
    assert_eq!(read_num_file_tot_lines(b"a\r\nb"), 1);
    let long: Vec<u8> = b"0123456789\n".iter().cycle().take(11 * 100).cloned().collect();
    assert_eq!(read_num_file_tot_lines(&long), 100);
}

#[test]
fn usable_lines_leave_out_blank_and_comment_lines() {
    assert_eq!(read_num_file_lines(b"", b'#'), 0);
    assert_eq!(read_num_file_lines(b"1 2\n", b'#'), 1);
    assert_eq!(read_num_file_lines(b"1 2", b'#'), 1);
    assert_eq!(read_num_file_lines(b"\n\n  \n\t\n", b'#'), 0);
    assert_eq!(read_num_file_lines(b"# c\n  # c\n1\n", b'#'), 1);
    assert_eq!(read_num_file_lines(b"1 # c\n2\n", b'#'), 2);
    assert_eq!(read_num_file_lines(b"1\r\n2\r\n", b'#'), 2);
    assert_eq!(read_num_file_lines(b"# c\n1\n", b'\n'), 2);
}

#[test]
fn header_is_passed_line_by_line() {
    let data = b"a\n#c\nb\nc\n";
    let mut fln = 0;
    assert_eq!(skip_header_lines(data, &mut fln, b'#', 2), 7);
    assert_eq!(fln, 3);

    let mut fln = 10;
    assert_eq!(skip_header_lines(data, &mut fln, b'#', 0), 0);
    assert_eq!(fln, 10);

    // Fewer usable lines than asked for: the whole input is passed.
    let mut fln = 0;
    assert_eq!(skip_header_lines(data, &mut fln, b'#', 9), data.len());
    assert_eq!(fln, 4);

    // Blanks at the end with no terminator behind them are no line.
    let mut fln = 0;
    assert_eq!(skip_header_lines(b"a\n  ", &mut fln, b'#', 5), 4);
    assert_eq!(fln, 1);
}

#[test]
fn fields_of_the_first_line_that_holds_any() {
    assert_eq!(count_num_fields(b"", b'#', b' ', true), 0);
    assert_eq!(count_num_fields(b"  \n# c\n1 2 3 4\n5 6\n", b'#', b' ', true), 4);
    assert_eq!(count_num_fields(b"  1\t2   3  \n", b'#', b' ', true), 3);
    assert_eq!(count_num_fields(b"1 2 3", b'#', b' ', true), 3);
    assert_eq!(count_num_fields(b"1,2 , 3\n", b'#', b',', false), 3);
    assert_eq!(count_num_fields(b"1,,2\n", b'#', b',', false), 2);
    assert_eq!(count_num_fields(b"1,2,\n", b'#', b',', false), 2);
    assert_eq!(count_num_fields(b"1, ,3\n", b'#', b',', false), 3);
    assert_eq!(count_num_fields(b"1 2 # 3 4\n", b'#', b' ', true), 2);
}

#[test]
fn raw_rows_hold_bytes_and_field_ends() {
    let raw: RawReaderResultsRows = parse_txt(b"12 3\n4 567\n", &by_rows()).unwrap();
    assert_eq!(raw.num_fields, 2);
    assert_eq!(raw.num_lines, 2);
    assert_eq!(raw.get_num_lines(), 2);
    assert_eq!(raw.results, b"1234567".to_vec());
    assert_eq!(raw.index, vec![2, 3, 4, 7]);
}

#[test]
fn raw_cols_hold_a_buffer_for_each_column() {
    let raw: RawReaderResultsCols = parse_txt(b"12 3\n4 567\n", &by_rows()).unwrap();
    assert_eq!(raw.num_fields, 2);
    assert_eq!(raw.num_lines, 2);
    assert_eq!(raw.results, vec![b"124".to_vec(), b"3567".to_vec()]);
    assert_eq!(raw.index, vec![vec![2, 3], vec![1, 4]]);
}

#[test]
fn raw_store_by_hand() {
    let mut rows = RawReaderResultsRows::new(2, 4);
    rows.set_results(b'a', 1);
    rows.set_results(b'b', 1);
    rows.set_index(1);
    rows.set_results(b'c', 2);
    rows.set_index(2);
    rows.incr_num_lines();
    assert_eq!(rows.results, b"abc".to_vec());
    assert_eq!(rows.index, vec![2, 3]);
    assert_eq!(rows.get_num_lines(), 1);
    rows.set_num_lines(7);
    assert_eq!(rows.num_lines, 7);

    let mut cols = RawReaderResultsCols::new(2, 4);
    cols.set_results(b'a', 2);
    cols.set_results(b'b', 1);
    cols.set_index(2);
    cols.set_index(1);
    cols.incr_num_lines();
    assert_eq!(cols.results, vec![b"b".to_vec(), b"a".to_vec()]);
    assert_eq!(cols.index, vec![vec![1], vec![1]]);
    assert_eq!(cols.get_num_lines(), 1);
    cols.set_num_lines(3);
    assert_eq!(cols.num_lines, 3);
}

#[test]
fn table_holds_a_value_for_every_row_and_column() {
    for p in [by_rows(), by_cols()] {
        let t = load_txt_i32(TEN, &p).unwrap();
        assert_eq!(t.get_num_fields(), 3);
        assert_eq!(t.get_num_lines(), 10);
        assert_eq!(t.get_results().len(), 30);
    }
    let p = ReaderParams {
        usecols: Some(vec![0, 2]),
        ..by_cols()
    };
    let t = load_txt_i32(TEN, &p).unwrap();
    assert_eq!(t.get_num_fields(), 2);
    assert_eq!(t.get_results().len(), 20);
}

#[test]
fn skips_leave_the_lines_between() {
    let p = ReaderParams {
        skip_header: Some(2),
        skip_footer: Some(3),
        ..by_rows()
    };
    let t = load_txt_i32(TEN, &p).unwrap();
    assert_eq!(t.get_num_lines(), 5);
    assert_eq!(
        *t.get_results(),
        vec![7, 8, 9, 10, 11, 12, 13, 14, 15, 16, 17, 18, 19, 20, 21]
    );

    // Blank and comment lines are not counted among the skipped ones.
    let data = b"% head\n\nx y\n% more\n1 2\n\n3 4\n5 6\n";
    let p = ReaderParams {
        skip_header: Some(1),
        skip_footer: Some(1),
        ..by_rows()
    };
    let t = load_txt_i32(data, &p).unwrap();
    assert_eq!(*t.get_results(), vec![1, 2, 3, 4]);
}

#[test]
fn max_rows_caps_the_lines() {
    let p = ReaderParams {
        max_rows: Some(0),
        ..by_rows()
    };
    let t = load_txt_i32(TEN, &p).unwrap();
    assert_eq!(t.get_num_lines(), 0);
    assert_eq!(t.get_num_fields(), 3);
    assert!(t.get_results().is_empty());

    let p = ReaderParams {
        max_rows: Some(50),
        skip_header: Some(8),
        ..by_rows()
    };
    let t = load_txt_i32(TEN, &p).unwrap();
    assert_eq!(*t.get_results(), vec![25, 26, 27, 28, 29, 30]);

    // A refused line behind the cap is not read.
    let p = ReaderParams {
        max_rows: Some(1),
        skip_footer: Some(1),
        ..by_rows()
    };
    let t = load_txt_i32(b"1 2\n3\n4 5\n", &p).unwrap();
    assert_eq!(*t.get_results(), vec![1, 2]);
}

#[test]
fn named_columns_in_the_order_of_the_names() {
    let p = ReaderParams {
        usecols: Some(vec![2, 0]),
        ..by_cols()
    };
    let t = load_txt_i32(TEN, &p).unwrap();
    let all = load_txt_i32(TEN, &by_cols()).unwrap();
    assert_eq!(t.get_col(0), all.get_col(2));
    assert_eq!(t.get_col(1), all.get_col(0));
    assert_eq!(t.get_value(3, 0), 12);
    assert_eq!(t.get_value(3, 1), 10);

    let p = ReaderParams {
        usecols: Some(vec![0, 2]),
        ..by_rows()
    };
    let t = load_txt_i32(TEN, &p).unwrap();
    let all = load_txt_i32(TEN, &by_rows()).unwrap();
    assert_eq!(t.get_col(0), all.get_col(0));
    assert_eq!(t.get_col(1), all.get_col(2));
    assert_eq!(t.get_row(9), vec![28, 30]);

    // Stored row by row, the fields of a row stand in the order of the line.
    let p = ReaderParams {
        usecols: Some(vec![2, 0]),
        ..by_rows()
    };
    let t = load_txt_i32(TEN, &p).unwrap();
    assert_eq!(t.get_row(0), vec![1, 3]);

    // No names at all keep every column.
    let p = ReaderParams {
        usecols: Some(vec![]),
        ..by_rows()
    };
    assert_eq!(load_txt_i32(TEN, &p).unwrap().get_num_fields(), 3);
}

#[test]
fn both_orders_hold_the_same_values() {
    let r = load_txt_i64(TEN, &by_rows()).unwrap();
    let c = load_txt_i64(TEN, &by_cols()).unwrap();
    assert!(matches!(r, ReaderTable::Row(_)));
    assert!(matches!(c, ReaderTable::Col(_)));
    for row in 0..10 {
        for col in 0..3 {
            assert_eq!(r.get_value(row, col), c.get_value(row, col));
            assert_eq!(r.get_value(row, col), (3 * row + col + 1) as i64);
        }
        assert_eq!(r.get_row(row), c.get_row(row));
    }
    assert_eq!(r.get_cols(vec![1, 2]), c.get_cols(vec![1, 2]));
    assert_eq!(r.get_rows(vec![9, 0]), c.get_rows(vec![9, 0]));
    assert_eq!(
        *c.get_results(),
        vec![
            1, 4, 7, 10, 13, 16, 19, 22, 25, 28, 2, 5, 8, 11, 14, 17, 20, 23, 26, 29, 3, 6, 9, 12,
            15, 18, 21, 24, 27, 30
        ]
    );
}

#[test]
fn lanes_are_rows_or_columns() {
    let mut r = load_txt_i32(b"1 2 3\n4 5 6\n", &by_rows()).unwrap();
    let mut c = load_txt_i32(b"1 2 3\n4 5 6\n", &by_cols()).unwrap();
    assert_eq!(r.get_inner_lanes(1), &[4, 5, 6][..]);
    assert_eq!(c.get_inner_lanes(1), &[2, 5][..]);
    assert_eq!(c.get_inner_lanes(2), &[3, 6][..]);

    r.get_mut_inner_lane(0)[2] = 30;
    assert_eq!(*r.get_results(), vec![1, 2, 30, 4, 5, 6]);
    c.get_mut_inner_lane(2)[0] = 30;
    assert_eq!(*c.get_results(), vec![1, 4, 2, 5, 30, 6]);
    assert_eq!(c.get_value(0, 2), 30);

    r.get_mut_results()[0] = 10;
    assert_eq!(r.get_value(0, 0), 10);
    c.get_mut_results()[1] = 40;
    assert_eq!(c.get_value(1, 0), 40);
}

#[test]
fn blank_and_comment_lines_make_no_difference() {
    let plain = b"1 2 3\n4 5 6\n7 8 9\n";
    let more = b"\n1 2 3\n   \n% a comment\n4 5 6\n \t% another\n7 8 9\n\n% 10 11 12\n";
    assert_eq!(
        read_num_file_lines(plain, b'%'),
        read_num_file_lines(more, b'%')
    );
    for p in [by_rows(), by_cols()] {
        let a = load_txt_i32(plain, &p).unwrap();
        let b = load_txt_i32(more, &p).unwrap();
        assert_eq!(a.get_num_lines(), b.get_num_lines());
        assert_eq!(a.get_num_fields(), b.get_num_fields());
        assert_eq!(a.get_results(), b.get_results());
    }
    let p = ReaderParams {
        skip_header: Some(1),
        skip_footer: Some(1),
        ..by_rows()
    };
    assert_eq!(
        load_txt_i32(plain, &p).unwrap().get_results(),
        load_txt_i32(more, &p).unwrap().get_results()
    );
}

#[test]
fn skips_are_held_against_the_usable_lines() {
    let p = ReaderParams {
        skip_header: Some(10),
        ..by_rows()
    };
    assert_eq!(load_txt_i32(TEN, &p).unwrap_err(), ReaderError::SkipHeader);

    let p = ReaderParams {
        skip_header: Some(3),
        skip_footer: Some(11),
        max_rows: Some(8),
        ..by_rows()
    };
    assert_eq!(load_txt_i32(TEN, &p).unwrap_err(), ReaderError::SkipFooter);

    let p = ReaderParams {
        skip_header: Some(4),
        skip_footer: Some(6),
        ..by_rows()
    };
    assert_eq!(load_txt_i32(TEN, &p).unwrap_err(), ReaderError::SkipBoth);

    let p = ReaderParams {
        skip_header: Some(usize::MAX),
        skip_footer: Some(usize::MAX),
        ..by_rows()
    };
    assert_eq!(load_txt_i32(TEN, &p).unwrap_err(), ReaderError::SkipHeader);

    // An input without a usable line leaves nothing to read.
    assert_eq!(
        load_txt_i32(b"% only\n\n", &by_rows()).unwrap_err(),
        ReaderError::SkipBoth
    );
    assert_eq!(load_txt_i32(b"", &by_rows()).unwrap_err(), ReaderError::SkipBoth);
}

#[test]
fn named_columns_are_held_against_the_fields() {
    let p = ReaderParams {
        usecols: Some(vec![0, 1, 2, 0]),
        ..by_rows()
    };
    assert_eq!(
        load_txt_i32(TEN, &p).unwrap_err(),
        ReaderError::TooManyColumns { fields: 3 }
    );

    let p = ReaderParams {
        usecols: Some(vec![3]),
        ..by_rows()
    };
    assert_eq!(
        load_txt_i32(TEN, &p).unwrap_err(),
        ReaderError::ColumnOutOfRange { fields: 3 }
    );

    let p = ReaderParams {
        usecols: Some(vec![1, 1]),
        ..by_rows()
    };
    assert_eq!(load_txt_i32(TEN, &p).unwrap_err(), ReaderError::RepeatedColumn);
}

#[test]
fn a_line_with_another_number_of_fields_is_refused() {
    let data = b"1 2 3\n4 5 6\n7 8\n10 11 12\n";
    for p in [by_rows(), by_cols()] {
        assert_eq!(
            load_txt_i32(data, &p).unwrap_err(),
            ReaderError::FieldCount {
                line: 3,
                found: 2,
                expected: 3
            }
        );
    }
    // Too many fields, in a line that the input ends in.
    assert_eq!(
        load_txt_i32(b"1 2\n% c\n\n3 4 5", &by_cols()).unwrap_err(),
        ReaderError::FieldCount {
            line: 4,
            found: 3,
            expected: 2
        }
    );
    // The lines of the header count.
    let p = ReaderParams {
        skip_header: Some(1),
        ..by_rows()
    };
    assert_eq!(
        load_txt_i32(b"a b c d\n1 2 3\n4 5\n", &p).unwrap_err(),
        ReaderError::FieldCount {
            line: 3,
            found: 2,
            expected: 3
        }
    );
}

#[test]
fn explicit_delimiter() {
    let p = ReaderParams {
        delimiter: Delimiter::Any(b','),
        ..by_rows()
    };
    assert_eq!(
        *load_txt_i32(b" 1 , 2,3 \n4,5,\t6\n", &p).unwrap().get_results(),
        vec![1, 2, 3, 4, 5, 6]
    );
    // Blanks in a field are dropped; delimiters in a row count once.
    assert_eq!(
        *load_txt_i32(b"1 0,,2\n", &p).unwrap().get_results(),
        vec![10, 2]
    );
    assert_eq!(
        load_txt_i32(b"1,2,\n", &p).unwrap_err(),
        ReaderError::TrailingDelimiter { line: 1 }
    );
    assert_eq!(
        load_txt_i32(b"1,2\n3,4\n,\n", &p).unwrap_err(),
        ReaderError::TrailingDelimiter { line: 3 }
    );
    assert_eq!(
        load_txt_i32(b"1, ,3\n", &p).unwrap_err(),
        ReaderError::MissingField { line: 1 }
    );
    // A column of blanks that is not kept does no harm.
    let q = ReaderParams {
        usecols: Some(vec![0, 2]),
        ..p.clone()
    };
    assert_eq!(
        *load_txt_i32(b"1, ,3\n", &q).unwrap().get_results(),
        vec![1, 3]
    );
    // A tab as the delimiter.
    let tabs = ReaderParams {
        delimiter: Delimiter::Any(b'\t'),
        ..by_rows()
    };
    assert_eq!(
        *load_txt_i32(b"1\t2\n3\t4\n", &tabs).unwrap().get_results(),
        vec![1, 2, 3, 4]
    );
}

#[test]
fn line_ends_and_blanks() {
    let p = by_rows();
    // No terminator behind the last line.
    assert_eq!(
        *load_txt_i32(b"1 2 3\n4 5 6", &p).unwrap().get_results(),
        vec![1, 2, 3, 4, 5, 6]
    );
    // Carriage returns and line feeds.
    assert_eq!(
        *load_txt_i32(b"1 2 3\r\n4 5 6\r\n", &p).unwrap().get_results(),
        vec![1, 2, 3, 4, 5, 6]
    );
    assert_eq!(
        *load_txt_i32(b"1 2 3\r4 5 6\r", &p).unwrap().get_results(),
        vec![1, 2, 3, 4, 5, 6]
    );
    // Blanks before, between and behind the fields.
    assert_eq!(
        *load_txt_i32(b"  1\t 2   3  \n\t4 5 6\t\n", &p).unwrap().get_results(),
        vec![1, 2, 3, 4, 5, 6]
    );
    // A comment byte ends the line wherever it stands.
    assert_eq!(
        *load_txt_i32(b"1 2 3 % 4\n4 5 6% 7 8\n", &p).unwrap().get_results(),
        vec![1, 2, 3, 4, 5, 6]
    );
    // Lines of blanks only are not counted.
    let t = load_txt_i32(b"   \n1 2\n \t \n3 4\n  ", &p).unwrap();
    assert_eq!(t.get_num_lines(), 2);
    assert_eq!(*t.get_results(), vec![1, 2, 3, 4]);
}

#[test]
fn without_comments_every_byte_is_content() {
    let p = ReaderParams {
        comments: None,
        ..by_rows()
    };
    let t = load_txt_string(b"# 1\n% 2\n", &p).unwrap();
    assert_eq!(
        *t.get_results(),
        vec!["#".to_string(), "1".to_string(), "%".to_string(), "2".to_string()]
    );
}

#[test]
fn fields_that_are_no_values() {
    assert_eq!(
        load_txt_i32(b"1 2 x\n", &by_rows()).unwrap_err(),
        ReaderError::Conversion { index: 2 }
    );
    // The place is counted in the order of storage.
    let data = b"1 2 3\n4 x 6\n";
    assert_eq!(
        load_txt_i32(data, &by_rows()).unwrap_err(),
        ReaderError::Conversion { index: 4 }
    );
    assert_eq!(
        load_txt_i32(data, &by_cols()).unwrap_err(),
        ReaderError::Conversion { index: 3 }
    );
    assert_eq!(
        load_txt_u8(b"255 256\n", &by_rows()).unwrap_err(),
        ReaderError::Conversion { index: 1 }
    );
    assert_eq!(
        load_txt_u32(b"-1\n", &by_rows()).unwrap_err(),
        ReaderError::Conversion { index: 0 }
    );
    assert_eq!(
        load_txt_bool(b"true True\n", &by_rows()).unwrap_err(),
        ReaderError::Conversion { index: 1 }
    );
    assert_eq!(
        load_txt_char(b"a bc\n", &by_rows()).unwrap_err(),
        ReaderError::Conversion { index: 1 }
    );
    assert_eq!(
        load_txt_string(b"ok \xff\n", &by_rows()).unwrap_err(),
        ReaderError::Conversion { index: 1 }
    );
}

#[test]
fn numbers_of_every_width() {
    let p = by_rows();
    assert_eq!(
        *load_txt_i32(b"-5 +7 007 -2147483648\n", &p).unwrap().get_results(),
        vec![-5, 7, 7, i32::MIN]
    );
    assert_eq!(
        *load_txt_i64(b"-9223372036854775808 9223372036854775807\n", &p)
            .unwrap()
            .get_results(),
        vec![i64::MIN, i64::MAX]
    );
    assert_eq!(
        *load_txt_i128(b"-170141183460469231731687303715884105728 12\n", &p)
            .unwrap()
            .get_results(),
        vec![i128::MIN, 12]
    );
    assert_eq!(
        *load_txt_u16(b"0 65535\n", &p).unwrap().get_results(),
        vec![0, u16::MAX]
    );
    assert_eq!(
        *load_txt_u32(b"4294967295 1\n", &p).unwrap().get_results(),
        vec![u32::MAX, 1]
    );
    assert_eq!(
        *load_txt_u64(b"18446744073709551615 2\n", &p).unwrap().get_results(),
        vec![u64::MAX, 2]
    );
    assert_eq!(
        *load_txt_u128(b"340282366920938463463374607431768211455 3\n", &p)
            .unwrap()
            .get_results(),
        vec![u128::MAX, 3]
    );
}

#[test]
fn texts_and_characters_beyond_ascii() {
    let p = by_rows();
    let t = load_txt_string("gr\u{fc}n bl\u{e5}\n".as_bytes(), &p).unwrap();
    assert_eq!(
        *t.get_results(),
        vec!["gr\u{fc}n".to_string(), "bl\u{e5}".to_string()]
    );
    let t = load_txt_char("\u{e9} z \u{4e2d}\n".as_bytes(), &p).unwrap();
    assert_eq!(*t.get_results(), vec!['\u{e9}', 'z', '\u{4e2d}']);
    let t = load_txt_bool(b"false true\n", &by_cols()).unwrap();
    assert_eq!(*t.get_results(), vec![false, true]);
}
