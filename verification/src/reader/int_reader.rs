//! Readers of signed integers.

use vstd::prelude::*;
use crate::reader::{ReaderError, ReaderParams};
use crate::reader::convert::FromField;
use crate::reader::load::{load_text, read_as};
use crate::reader::reader_results::ReaderTable;

verus! {

/// What `lexical::parse::<i8, _>` gives for `bytes`: the number that they
/// are the decimal text of, or `None` where it refuses them.
pub uninterp spec fn lexical_i8(bytes: Seq<u8>) -> Option<i8>;

/// `lexical::parse` reads a number from the whole of `bytes`, or refuses
/// them. What it gives depends on the bytes alone.
#[verifier::external_body]
fn parse_i8(bytes: &[u8]) -> (r: Result<i8, lexical::Error>)
    ensures
        r.ok() == lexical_i8(bytes@),
{
    lexical::parse::<i8, _>(bytes)
}

impl FromField for i8 {
    open spec fn parsable(bytes: Seq<u8>) -> bool {
        lexical_i8(bytes).is_some()
    }

    open spec fn parses_to(bytes: Seq<u8>, v: Self) -> bool {
        lexical_i8(bytes) == Some(v)
    }

    fn parse_field(bytes: &[u8]) -> (r: Option<Self>) {
        match parse_i8(bytes) {
            Ok(v) => Some(v),
            Err(_) => None,
        }
    }
}

/// Reads `data` as a table of `i8` values. Fails as `load_text` does; a
/// field that is not the text of an `i8` is a conversion error.
pub fn load_txt_i8(data: &[u8], params: &ReaderParams) -> (r: Result<ReaderTable<i8>, ReaderError>)
    ensures
        read_as::<i8>(data@, *params, r),
{
    load_text::<i8>(data, params)
}

/// What `lexical::parse::<i16, _>` gives for `bytes`: the number that they
/// are the decimal text of, or `None` where it refuses them.
pub uninterp spec fn lexical_i16(bytes: Seq<u8>) -> Option<i16>;

/// `lexical::parse` reads a number from the whole of `bytes`, or refuses
/// them. What it gives depends on the bytes alone.
#[verifier::external_body]
fn parse_i16(bytes: &[u8]) -> (r: Result<i16, lexical::Error>)
    ensures
        r.ok() == lexical_i16(bytes@),
{
    lexical::parse::<i16, _>(bytes)
}

impl FromField for i16 {
    open spec fn parsable(bytes: Seq<u8>) -> bool {
        lexical_i16(bytes).is_some()
    }

    open spec fn parses_to(bytes: Seq<u8>, v: Self) -> bool {
        lexical_i16(bytes) == Some(v)
    }

    fn parse_field(bytes: &[u8]) -> (r: Option<Self>) {
        match parse_i16(bytes) {
            Ok(v) => Some(v),
            Err(_) => None,
        }
    }
}

/// Reads `data` as a table of `i16` values. Fails as `load_text` does; a
/// field that is not the text of an `i16` is a conversion error.
pub fn load_txt_i16(data: &[u8], params: &ReaderParams) -> (r: Result<ReaderTable<i16>, ReaderError>)
    ensures
        read_as::<i16>(data@, *params, r),
{
    load_text::<i16>(data, params)
}

/// What `lexical::parse::<i32, _>` gives for `bytes`: the number that they
/// are the decimal text of, or `None` where it refuses them.
pub uninterp spec fn lexical_i32(bytes: Seq<u8>) -> Option<i32>;

/// `lexical::parse` reads a number from the whole of `bytes`, or refuses
/// them. What it gives depends on the bytes alone.
#[verifier::external_body]
fn parse_i32(bytes: &[u8]) -> (r: Result<i32, lexical::Error>)
    ensures
        r.ok() == lexical_i32(bytes@),
{
    lexical::parse::<i32, _>(bytes)
}

impl FromField for i32 {
    open spec fn parsable(bytes: Seq<u8>) -> bool {
        lexical_i32(bytes).is_some()
    }

    open spec fn parses_to(bytes: Seq<u8>, v: Self) -> bool {
        lexical_i32(bytes) == Some(v)
    }

    fn parse_field(bytes: &[u8]) -> (r: Option<Self>) {
        match parse_i32(bytes) {
            Ok(v) => Some(v),
            Err(_) => None,
        }
    }
}

/// Reads `data` as a table of `i32` values. Fails as `load_text` does; a
/// field that is not the text of an `i32` is a conversion error.
pub fn load_txt_i32(data: &[u8], params: &ReaderParams) -> (r: Result<ReaderTable<i32>, ReaderError>)
    ensures
        read_as::<i32>(data@, *params, r),
{
    load_text::<i32>(data, params)
}

/// What `lexical::parse::<i64, _>` gives for `bytes`: the number that they
/// are the decimal text of, or `None` where it refuses them.
pub uninterp spec fn lexical_i64(bytes: Seq<u8>) -> Option<i64>;

/// `lexical::parse` reads a number from the whole of `bytes`, or refuses
/// them. What it gives depends on the bytes alone.
#[verifier::external_body]
fn parse_i64(bytes: &[u8]) -> (r: Result<i64, lexical::Error>)
    ensures
        r.ok() == lexical_i64(bytes@),
{
    lexical::parse::<i64, _>(bytes)
}

impl FromField for i64 {
    open spec fn parsable(bytes: Seq<u8>) -> bool {
        lexical_i64(bytes).is_some()
    }

    open spec fn parses_to(bytes: Seq<u8>, v: Self) -> bool {
        lexical_i64(bytes) == Some(v)
    }

    fn parse_field(bytes: &[u8]) -> (r: Option<Self>) {
        match parse_i64(bytes) {
            Ok(v) => Some(v),
            Err(_) => None,
        }
    }
}

/// Reads `data` as a table of `i64` values. Fails as `load_text` does; a
/// field that is not the text of an `i64` is a conversion error.
pub fn load_txt_i64(data: &[u8], params: &ReaderParams) -> (r: Result<ReaderTable<i64>, ReaderError>)
    ensures
        read_as::<i64>(data@, *params, r),
{
    load_text::<i64>(data, params)
}

/// What `lexical::parse::<i128, _>` gives for `bytes`: the number that they
/// are the decimal text of, or `None` where it refuses them.
pub uninterp spec fn lexical_i128(bytes: Seq<u8>) -> Option<i128>;

/// `lexical::parse` reads a number from the whole of `bytes`, or refuses
/// them. What it gives depends on the bytes alone.
#[verifier::external_body]
fn parse_i128(bytes: &[u8]) -> (r: Result<i128, lexical::Error>)
    ensures
        r.ok() == lexical_i128(bytes@),
{
    lexical::parse::<i128, _>(bytes)
}

impl FromField for i128 {
    open spec fn parsable(bytes: Seq<u8>) -> bool {
        lexical_i128(bytes).is_some()
    }

    open spec fn parses_to(bytes: Seq<u8>, v: Self) -> bool {
        lexical_i128(bytes) == Some(v)
    }

    fn parse_field(bytes: &[u8]) -> (r: Option<Self>) {
        match parse_i128(bytes) {
            Ok(v) => Some(v),
            Err(_) => None,
        }
    }
}

/// Reads `data` as a table of `i128` values. Fails as `load_text` does; a
/// field that is not the text of an `i128` is a conversion error.
pub fn load_txt_i128(data: &[u8], params: &ReaderParams) -> (r: Result<ReaderTable<i128>, ReaderError>)
    ensures
        read_as::<i128>(data@, *params, r),
{
    load_text::<i128>(data, params)
}

} // verus!
