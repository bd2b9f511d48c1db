use data_reader::reader::{
    load_text_with, load_txt_bool, load_txt_char, load_txt_i16, load_txt_i32, load_txt_i64, load_txt_i8,
    load_txt_string, load_txt_u8, load_txt_usize, read_num_file_lines, read_num_file_tot_lines,
    Delimiter, ReaderParams, ReaderResults,
};

// Ten lines of three numbers each, no comments.
const INT_V2: &[u8] =
    b"1 2 3\n4 5 6\n7 8 9\n10 11 12\n13 14 15\n16 17 18\n19 20 21\n22 23 24\n25 26 27\n28 29 30\n";

// The same lines, three of them commented out, and two blank lines.
const INT_V3: &[u8] = b"1 2 3\n4 5 6\n%7 8 9\n10 11 12\n\n13 14 15\n%16 17 18\n19 20 21\n%22 23 24\n25 26 27\n\n28 29 30\n";

// As INT_V3, with commas between the numbers.
const INT_V4: &[u8] = b"1,2,3\n4,5,6\n%7,8,9\n10,11,12\n\n13,14,15\n%16,17,18\n19,20,21\n%22,23,24\n25,26,27\n\n28,29,30\n";

const BOOLS: &[u8] = b"true false true\ntrue true true\ntrue true true\nfalse false false\ntrue true true\ntrue false true\n";

const CHARS: &[u8] = b"a b c\nd e f\ng h i\nj k l\nm n o\np q r\ns t u\nv w x\ny z a\n";

fn params(comments: Option<u8>) -> ReaderParams {
    ReaderParams {
        comments,
        delimiter: Delimiter::WhiteSpace,
        skip_header: None,
        skip_footer: None,
        usecols: None,
        max_rows: None,
        row_format: true,
    }
}

#[test]
fn read_num_file_line_test() {
    let tot_num_lines = read_num_file_tot_lines(INT_V3);
    let num_lines = read_num_file_lines(INT_V3, b'%');
    assert_eq!((tot_num_lines - num_lines), 5);
}

#[test]
fn load_txt_i32_test() {
    let params = params(Some(b'%'));

    let results = load_txt_i32(INT_V2, &params);

    assert_eq!(
        *results.unwrap().get_results(),
        vec![
            1, 2, 3, 4, 5, 6, 7, 8, 9, 10, 11, 12, 13, 14, 15, 16, 17, 18, 19, 20, 21, 22, 23, 24,
            25, 26, 27, 28, 29, 30
        ]
    );
}

#[test]
fn load_txt_i32_reader_params_constructor_test() {
    let params = ReaderParams {
        comments: Some(b'%'),
        ..Default::default()
    };

    let results = load_txt_i32(INT_V2, &params);

    assert_eq!(
        *results.unwrap().get_results(),
        vec![
            1, 2, 3, 4, 5, 6, 7, 8, 9, 10, 11, 12, 13, 14, 15, 16, 17, 18, 19, 20, 21, 22, 23, 24,
            25, 26, 27, 28, 29, 30
        ]
    );
}

#[test]
fn load_txt_i32_reader_params_default_test() {
    let params = ReaderParams::default();

    let results = load_txt_i32(INT_V2, &params);

    assert_eq!(
        *results.unwrap().get_results(),
        vec![
            1, 2, 3, 4, 5, 6, 7, 8, 9, 10, 11, 12, 13, 14, 15, 16, 17, 18, 19, 20, 21, 22, 23, 24,
            25, 26, 27, 28, 29, 30
        ]
    );
}

#[test]
fn load_txt_i32_test_sk_f() {
    let params = ReaderParams {
        comments: Some(b'%'),
        skip_footer: Some(5),
        ..Default::default()
    };

    let results = load_txt_i32(INT_V2, &params);

    assert_eq!(
        *results.unwrap().get_results(),
        vec![1, 2, 3, 4, 5, 6, 7, 8, 9, 10, 11, 12, 13, 14, 15]
    );
}

#[test]
fn load_txt_i32_test_sk_h() {
    let params = ReaderParams {
        skip_header: Some(3),
        ..params(Some(b'%'))
    };

    let results = load_txt_i32(INT_V2, &params);

    assert_eq!(
        *results.unwrap().get_results(),
        vec![10, 11, 12, 13, 14, 15, 16, 17, 18, 19, 20, 21, 22, 23, 24, 25, 26, 27, 28, 29, 30]
    );
}

#[test]
fn load_txt_i32_test_mrows() {
    let params = ReaderParams {
        max_rows: Some(8),
        ..params(Some(b'%'))
    };

    let results = load_txt_i32(INT_V2, &params);

    assert_eq!(
        *results.unwrap().get_results(),
        vec![1, 2, 3, 4, 5, 6, 7, 8, 9, 10, 11, 12, 13, 14, 15, 16, 17, 18, 19, 20, 21, 22, 23, 24]
    );
}

#[test]
fn load_txt_i32_test_sk_f_big() {
    let params = ReaderParams {
        skip_header: Some(3),
        skip_footer: Some(11),
        max_rows: Some(8),
        ..params(Some(b'%'))
    };

    let results = load_txt_i32(INT_V2, &params);

    assert!(results.is_err());
}

#[test]
fn load_txt_i32_test_u_cols() {
    let cols: Vec<usize> = vec![2];

    let params = ReaderParams {
        usecols: Some(cols),
        ..params(Some(b'%'))
    };

    let results = load_txt_i32(INT_V2, &params);

    let results = results.unwrap();

    assert_eq!(
        *results.get_results(),
        vec![3, 6, 9, 12, 15, 18, 21, 24, 27, 30]
    );

    assert_eq!(results.get_num_fields(), 1);

    assert_eq!(results.get_num_lines(), 10);
}

#[test]
#[should_panic]
fn load_txt_i32_test_u_cols_at_bnds() {
    let cols: Vec<usize> = vec![3];

    let params = ReaderParams {
        usecols: Some(cols),
        ..params(Some(b'%'))
    };

    let results = load_txt_i32(INT_V2, &params);

    assert_eq!(
        *results.unwrap().get_results(),
        vec![3, 6, 9, 12, 15, 18, 21, 24, 27, 30]
    );
}

#[test]
#[should_panic]
fn load_txt_i32_test_u_cols_out_bnds() {
    let cols: Vec<usize> = vec![5];

    let params = ReaderParams {
        usecols: Some(cols),
        ..params(Some(b'%'))
    };

    let results = load_txt_i32(INT_V2, &params);

    assert_eq!(
        *results.unwrap().get_results(),
        vec![3, 6, 9, 12, 15, 18, 21, 24, 27, 30]
    );
}

#[test]
fn load_txt_i32_test2() {
    let params = params(Some(b'%'));

    let results = load_txt_i32(INT_V3, &params);

    assert_eq!(
        *results.unwrap().get_results(),
        vec![1, 2, 3, 4, 5, 6, 10, 11, 12, 13, 14, 15, 19, 20, 21, 25, 26, 27, 28, 29, 30]
    );
}

#[test]
fn load_txt_i32_test3() {
    let params = ReaderParams {
        delimiter: Delimiter::Any(b','),
        ..params(Some(b'%'))
    };

    let results = load_txt_i32(INT_V4, &params);

    assert_eq!(
        *results.unwrap().get_results(),
        vec![1, 2, 3, 4, 5, 6, 10, 11, 12, 13, 14, 15, 19, 20, 21, 25, 26, 27, 28, 29, 30]
    );
}

#[test]
fn load_txt_i8_test() {
    let results = load_txt_i8(INT_V2, &params(Some(b'%')));

    assert_eq!(
        *results.unwrap().get_results(),
        vec![
            1, 2, 3, 4, 5, 6, 7, 8, 9, 10, 11, 12, 13, 14, 15, 16, 17, 18, 19, 20, 21, 22, 23, 24,
            25, 26, 27, 28, 29, 30
        ]
    );
}

#[test]
fn load_txt_i16_test() {
    let results = load_txt_i16(INT_V2, &params(Some(b'%')));

    assert_eq!(
        *results.unwrap().get_results(),
        vec![
            1, 2, 3, 4, 5, 6, 7, 8, 9, 10, 11, 12, 13, 14, 15, 16, 17, 18, 19, 20, 21, 22, 23, 24,
            25, 26, 27, 28, 29, 30
        ]
    );
}

#[test]
fn load_txt_i64_test() {
    let results = load_txt_i64(INT_V2, &params(Some(b'%')));

    assert_eq!(
        *results.unwrap().get_results(),
        vec![
            1, 2, 3, 4, 5, 6, 7, 8, 9, 10, 11, 12, 13, 14, 15, 16, 17, 18, 19, 20, 21, 22, 23, 24,
            25, 26, 27, 28, 29, 30
        ]
    );
}

#[test]
fn load_txt_u8_test() {
    let results = load_txt_u8(INT_V2, &params(Some(b'%')));

    assert_eq!(
        *results.unwrap().get_results(),
        vec![
            1, 2, 3, 4, 5, 6, 7, 8, 9, 10, 11, 12, 13, 14, 15, 16, 17, 18, 19, 20, 21, 22, 23, 24,
            25, 26, 27, 28, 29, 30
        ]
    );
}

#[test]
fn load_txt_usize_test() {
    let results = load_txt_usize(INT_V2, &params(Some(b'%')));

    assert_eq!(
        *results.unwrap().get_results(),
        vec![
            1, 2, 3, 4, 5, 6, 7, 8, 9, 10, 11, 12, 13, 14, 15, 16, 17, 18, 19, 20, 21, 22, 23, 24,
            25, 26, 27, 28, 29, 30
        ]
    );
}

#[test]
fn load_txt_usize_no_cmt_test() {
    let results = load_txt_usize(INT_V2, &params(None));

    assert_eq!(
        *results.unwrap().get_results(),
        vec![
            1, 2, 3, 4, 5, 6, 7, 8, 9, 10, 11, 12, 13, 14, 15, 16, 17, 18, 19, 20, 21, 22, 23, 24,
            25, 26, 27, 28, 29, 30
        ]
    );
}

#[test]
fn load_txt_string_test() {
    let results = load_txt_string(INT_V2, &params(Some(b'%')));

    let r_int = vec![
        1, 2, 3, 4, 5, 6, 7, 8, 9, 10, 11, 12, 13, 14, 15, 16, 17, 18, 19, 20, 21, 22, 23, 24, 25,
        26, 27, 28, 29, 30,
    ];

    let string_vec: Vec<String> = r_int.iter().map(|x| x.to_string()).collect();

    assert_eq!(*results.unwrap().get_results(), string_vec);
}

#[test]
fn load_txt_bool_test() {
    let results = load_txt_bool(BOOLS, &params(Some(b'%')));

    let b_vec = vec![
        true, false, true, true, true, true, true, true, true, false, false, false, true, true,
        true, true, false, true,
    ];

    assert_eq!(*results.unwrap().get_results(), b_vec);
}

#[test]
fn load_txt_char_test() {
    let results = load_txt_char(CHARS, &params(Some(b'%')));

    let c_vec = vec![
        'a', 'b', 'c', 'd', 'e', 'f', 'g', 'h', 'i', 'j', 'k', 'l', 'm', 'n', 'o', 'p', 'q', 'r',
        's', 't', 'u', 'v', 'w', 'x', 'y', 'z', 'a',
    ];

    assert_eq!(*results.unwrap().get_results(), c_vec);
}

// A type of the caller's own: the negative of the number that the field holds.
#[derive(Debug, PartialEq, Clone)]
struct MinInt {
    x: i32,
}

fn parse_min_int(bytes: &[u8]) -> Option<MinInt> {
    let text = std::str::from_utf8(bytes).ok()?;
    let value = text.parse::<i32>().ok()?;
    Some(MinInt { x: -1 * value })
}

#[test]
fn load_txt_custom_test() {
    let results = load_text_with(INT_V2, &params(Some(b'%')), parse_min_int);

    let temp = results.unwrap().get_results().clone();

    let vals: Vec<i32> = temp.iter().map(|x| x.x).collect();

    assert_eq!(
        vals,
        vec![
            -1, -2, -3, -4, -5, -6, -7, -8, -9, -10, -11, -12, -13, -14, -15, -16, -17, -18, -19,
            -20, -21, -22, -23, -24, -25, -26, -27, -28, -29, -30
        ]
    );
}

#[test]
fn get_value_test() {
    let results = load_txt_i64(INT_V2, &params(Some(b'%'))).unwrap();

    assert_eq!(results.get_value(0, 2), 3);
}

#[test]
fn get_row_test() {
    let results = load_txt_i64(INT_V2, &params(Some(b'%'))).unwrap();

    assert_eq!(results.get_row(0), vec![1, 2, 3]);
}

#[test]
fn get_rows_test() {
    let results = load_txt_i64(INT_V2, &params(Some(b'%'))).unwrap();

    let row_indices = vec![0, 1];

    let vals = vec![vec![1, 2, 3], vec![4, 5, 6]];

    assert_eq!(results.get_rows(row_indices), vals);
}

#[test]
fn get_col_test() {
    let results = load_txt_i64(INT_V2, &params(Some(b'%'))).unwrap();

    assert_eq!(
        results.get_col(2),
        vec![3, 6, 9, 12, 15, 18, 21, 24, 27, 30]
    );
}

#[test]
fn get_cols_test() {
    let results = load_txt_i64(INT_V2, &params(Some(b'%'))).unwrap();

    let col_indices = vec![0, 2];

    let vals = vec![
        vec![1, 4, 7, 10, 13, 16, 19, 22, 25, 28],
        vec![3, 6, 9, 12, 15, 18, 21, 24, 27, 30],
    ];

    assert_eq!(results.get_cols(col_indices), vals);
}
