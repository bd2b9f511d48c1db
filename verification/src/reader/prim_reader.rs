//! Readers of texts, truth values and characters.

use vstd::prelude::*;
use vstd::string::StrSliceExecFns;
use vstd::utf8::{decode_utf8, valid_utf8};
use crate::reader::{ReaderError, ReaderParams};
use crate::reader::convert::FromField;
use crate::reader::load::{load_text, read_as};
use crate::reader::reader_results::ReaderTable;

verus! {

/// The error of `core::str::from_utf8`. Nothing is known of a value of it.
#[verifier::external_type_specification]
#[verifier::external_body]
pub struct ExUtf8Error(core::str::Utf8Error);

/// `core::str::from_utf8` gives the text that `bytes` are the UTF-8 form of,
/// and an error where they are the form of none.
#[verifier::external_body]
fn text_of(bytes: &[u8]) -> (r: Result<&str, core::str::Utf8Error>)
    ensures
        r.is_ok() == valid_utf8(bytes@),
        r.is_ok() ==> r.unwrap()@ == decode_utf8(bytes@),
{
    core::str::from_utf8(bytes)
}

impl FromField for String {
    open spec fn parsable(bytes: Seq<u8>) -> bool {
        valid_utf8(bytes)
    }

    open spec fn parses_to(bytes: Seq<u8>, v: Self) -> bool {
        v@ == decode_utf8(bytes)
    }

    fn parse_field(bytes: &[u8]) -> (r: Option<Self>) {
        match text_of(bytes) {
            Ok(text) => Some(text.to_owned()),
            Err(_) => None,
        }
    }
}

/// The bytes of the word `true`.
pub open spec fn word_true() -> Seq<u8> {
    seq![0x74u8, 0x72u8, 0x75u8, 0x65u8]
}

/// The bytes of the word `false`.
pub open spec fn word_false() -> Seq<u8> {
    seq![0x66u8, 0x61u8, 0x6cu8, 0x73u8, 0x65u8]
}

impl FromField for bool {
    open spec fn parsable(bytes: Seq<u8>) -> bool {
        bytes == word_true() || bytes == word_false()
    }

    open spec fn parses_to(bytes: Seq<u8>, v: Self) -> bool {
        v == (bytes == word_true())
    }

    fn parse_field(bytes: &[u8]) -> (r: Option<Self>) {
        if bytes.len() == 4 && bytes[0] == 0x74 && bytes[1] == 0x72 && bytes[2] == 0x75 && bytes[3]
            == 0x65 {
            assert(bytes@ =~= word_true());
            Some(true)
        } else if bytes.len() == 5 && bytes[0] == 0x66 && bytes[1] == 0x61 && bytes[2] == 0x6c
            && bytes[3] == 0x73 && bytes[4] == 0x65 {
            assert(bytes@ =~= word_false());
            assert(word_false().len() != word_true().len());
            Some(false)
        } else {
            assert(bytes@ != word_true()) by {
                if bytes@ == word_true() {
                    assert(bytes@.len() == 4);
                    assert(bytes@[0] == 0x74u8 && bytes@[1] == 0x72u8 && bytes@[2] == 0x75u8
                        && bytes@[3] == 0x65u8);
                }
            }
            assert(bytes@ != word_false()) by {
                if bytes@ == word_false() {
                    assert(bytes@.len() == 5);
                    assert(bytes@[0] == 0x66u8 && bytes@[1] == 0x61u8 && bytes@[2] == 0x6cu8
                        && bytes@[3] == 0x73u8 && bytes@[4] == 0x65u8);
                }
            }
            None
        }
    }
}

impl FromField for char {
    open spec fn parsable(bytes: Seq<u8>) -> bool {
        valid_utf8(bytes) && decode_utf8(bytes).len() == 1
    }

    open spec fn parses_to(bytes: Seq<u8>, v: Self) -> bool {
        decode_utf8(bytes)[0] == v
    }

    fn parse_field(bytes: &[u8]) -> (r: Option<Self>) {
        match text_of(bytes) {
            Ok(text) => {
                if text.unicode_len() == 1 {
                    Some(text.get_char(0))
                } else {
                    None
                }
            },
            Err(_) => None,
        }
    }
}

/// Reads `data` as a table of texts. Fails as `load_text` does; a field that
/// is not UTF-8 is a conversion error.
pub fn load_txt_string(data: &[u8], params: &ReaderParams) -> (r: Result<
    ReaderTable<String>,
    ReaderError,
>)
    ensures
        read_as::<String>(data@, *params, r),
{
    load_text::<String>(data, params)
}

/// Reads `data` as a table of truth values. Fails as `load_text` does; a
/// field that is neither `true` nor `false` is a conversion error.
pub fn load_txt_bool(data: &[u8], params: &ReaderParams) -> (r: Result<
    ReaderTable<bool>,
    ReaderError,
>)
    ensures
        read_as::<bool>(data@, *params, r),
{
    load_text::<bool>(data, params)
}

/// Reads `data` as a table of characters. Fails as `load_text` does; a field
/// that is not the UTF-8 form of exactly one character is a conversion
/// error.
pub fn load_txt_char(data: &[u8], params: &ReaderParams) -> (r: Result<
    ReaderTable<char>,
    ReaderError,
>)
    ensures
        read_as::<char>(data@, *params, r),
{
    load_text::<char>(data, params)
}

} // verus!
