//! Readers of unsigned integers.

use vstd::prelude::*;
use crate::reader::{ReaderError, ReaderParams};
use crate::reader::convert::FromField;
use crate::reader::load::{load_text, read_as};
use crate::reader::reader_results::ReaderTable;

verus! {

/// What `lexical::parse::<u8, _>` gives for `bytes`: the number that they
/// are the decimal text of, or `None` where it refuses them.
pub uninterp spec fn lexical_u8(bytes: Seq<u8>) -> Option<u8>;

/// `lexical::parse` reads a number from the whole of `bytes`, or refuses
/// them. What it gives depends on the bytes alone.
#[verifier::external_body]
fn parse_u8(bytes: &[u8]) -> (r: Result<u8, lexical::Error>)
    ensures
        r.ok() == lexical_u8(bytes@),
{
    lexical::parse::<u8, _>(bytes)
}

impl FromField for u8 {
    open spec fn parsable(bytes: Seq<u8>) -> bool {
        lexical_u8(bytes).is_some()
    }

    open spec fn parses_to(bytes: Seq<u8>, v: Self) -> bool {
        lexical_u8(bytes) == Some(v)
    }

    fn parse_field(bytes: &[u8]) -> (r: Option<Self>) {
        match parse_u8(bytes) {
            Ok(v) => Some(v),
            Err(_) => None,
        }
    }
}

/// Reads `data` as a table of `u8` values. Fails as `load_text` does; a
/// field that is not the text of an `u8` is a conversion error.
pub fn load_txt_u8(data: &[u8], params: &ReaderParams) -> (r: Result<ReaderTable<u8>, ReaderError>)
    ensures
        read_as::<u8>(data@, *params, r),
{
    load_text::<u8>(data, params)
}

/// What `lexical::parse::<u16, _>` gives for `bytes`: the number that they
/// are the decimal text of, or `None` where it refuses them.
pub uninterp spec fn lexical_u16(bytes: Seq<u8>) -> Option<u16>;

/// `lexical::parse` reads a number from the whole of `bytes`, or refuses
/// them. What it gives depends on the bytes alone.
#[verifier::external_body]
fn parse_u16(bytes: &[u8]) -> (r: Result<u16, lexical::Error>)
    ensures
        r.ok() == lexical_u16(bytes@),
{
    lexical::parse::<u16, _>(bytes)
}

impl FromField for u16 {
    open spec fn parsable(bytes: Seq<u8>) -> bool {
        lexical_u16(bytes).is_some()
    }

    open spec fn parses_to(bytes: Seq<u8>, v: Self) -> bool {
        lexical_u16(bytes) == Some(v)
    }

    fn parse_field(bytes: &[u8]) -> (r: Option<Self>) {
        match parse_u16(bytes) {
            Ok(v) => Some(v),
            Err(_) => None,
        }
    }
}

/// Reads `data` as a table of `u16` values. Fails as `load_text` does; a
/// field that is not the text of an `u16` is a conversion error.
pub fn load_txt_u16(data: &[u8], params: &ReaderParams) -> (r: Result<ReaderTable<u16>, ReaderError>)
    ensures
        read_as::<u16>(data@, *params, r),
{
    load_text::<u16>(data, params)
}

/// What `lexical::parse::<u32, _>` gives for `bytes`: the number that they
/// are the decimal text of, or `None` where it refuses them.
pub uninterp spec fn lexical_u32(bytes: Seq<u8>) -> Option<u32>;

/// `lexical::parse` reads a number from the whole of `bytes`, or refuses
/// them. What it gives depends on the bytes alone.
#[verifier::external_body]
fn parse_u32(bytes: &[u8]) -> (r: Result<u32, lexical::Error>)
    ensures
        r.ok() == lexical_u32(bytes@),
{
    lexical::parse::<u32, _>(bytes)
}

impl FromField for u32 {
    open spec fn parsable(bytes: Seq<u8>) -> bool {
        lexical_u32(bytes).is_some()
    }

    open spec fn parses_to(bytes: Seq<u8>, v: Self) -> bool {
        lexical_u32(bytes) == Some(v)
    }

    fn parse_field(bytes: &[u8]) -> (r: Option<Self>) {
        match parse_u32(bytes) {
            Ok(v) => Some(v),
            Err(_) => None,
        }
    }
}

/// Reads `data` as a table of `u32` values. Fails as `load_text` does; a
/// field that is not the text of an `u32` is a conversion error.
pub fn load_txt_u32(data: &[u8], params: &ReaderParams) -> (r: Result<ReaderTable<u32>, ReaderError>)
    ensures
        read_as::<u32>(data@, *params, r),
{
    load_text::<u32>(data, params)
}

/// What `lexical::parse::<u64, _>` gives for `bytes`: the number that they
/// are the decimal text of, or `None` where it refuses them.
pub uninterp spec fn lexical_u64(bytes: Seq<u8>) -> Option<u64>;

/// `lexical::parse` reads a number from the whole of `bytes`, or refuses
/// them. What it gives depends on the bytes alone.
#[verifier::external_body]
fn parse_u64(bytes: &[u8]) -> (r: Result<u64, lexical::Error>)
    ensures
        r.ok() == lexical_u64(bytes@),
{
    lexical::parse::<u64, _>(bytes)
}

impl FromField for u64 {
    open spec fn parsable(bytes: Seq<u8>) -> bool {
        lexical_u64(bytes).is_some()
    }

    open spec fn parses_to(bytes: Seq<u8>, v: Self) -> bool {
        lexical_u64(bytes) == Some(v)
    }

    fn parse_field(bytes: &[u8]) -> (r: Option<Self>) {
        match parse_u64(bytes) {
            Ok(v) => Some(v),
            Err(_) => None,
        }
    }
}

/// Reads `data` as a table of `u64` values. Fails as `load_text` does; a
/// field that is not the text of an `u64` is a conversion error.
pub fn load_txt_u64(data: &[u8], params: &ReaderParams) -> (r: Result<ReaderTable<u64>, ReaderError>)
    ensures
        read_as::<u64>(data@, *params, r),
{
    load_text::<u64>(data, params)
}

/// What `lexical::parse::<u128, _>` gives for `bytes`: the number that they
/// are the decimal text of, or `None` where it refuses them.
pub uninterp spec fn lexical_u128(bytes: Seq<u8>) -> Option<u128>;

/// `lexical::parse` reads a number from the whole of `bytes`, or refuses
/// them. What it gives depends on the bytes alone.
#[verifier::external_body]
fn parse_u128(bytes: &[u8]) -> (r: Result<u128, lexical::Error>)
    ensures
        r.ok() == lexical_u128(bytes@),
{
    lexical::parse::<u128, _>(bytes)
}

impl FromField for u128 {
    open spec fn parsable(bytes: Seq<u8>) -> bool {
        lexical_u128(bytes).is_some()
    }

    open spec fn parses_to(bytes: Seq<u8>, v: Self) -> bool {
        lexical_u128(bytes) == Some(v)
    }

    fn parse_field(bytes: &[u8]) -> (r: Option<Self>) {
        match parse_u128(bytes) {
            Ok(v) => Some(v),
            Err(_) => None,
        }
    }
}

/// Reads `data` as a table of `u128` values. Fails as `load_text` does; a
/// field that is not the text of an `u128` is a conversion error.
pub fn load_txt_u128(data: &[u8], params: &ReaderParams) -> (r: Result<ReaderTable<u128>, ReaderError>)
    ensures
        read_as::<u128>(data@, *params, r),
{
    load_text::<u128>(data, params)
}

/// What `lexical::parse::<usize, _>` gives for `bytes`: the number that they
/// are the decimal text of, or `None` where it refuses them.
pub uninterp spec fn lexical_usize(bytes: Seq<u8>) -> Option<usize>;

/// `lexical::parse` reads a number from the whole of `bytes`, or refuses
/// them. What it gives depends on the bytes alone.
#[verifier::external_body]
fn parse_usize(bytes: &[u8]) -> (r: Result<usize, lexical::Error>)
    ensures
        r.ok() == lexical_usize(bytes@),
{
    lexical::parse::<usize, _>(bytes)
}

impl FromField for usize {
    open spec fn parsable(bytes: Seq<u8>) -> bool {
        lexical_usize(bytes).is_some()
    }

    open spec fn parses_to(bytes: Seq<u8>, v: Self) -> bool {
        lexical_usize(bytes) == Some(v)
    }

    fn parse_field(bytes: &[u8]) -> (r: Option<Self>) {
        match parse_usize(bytes) {
            Ok(v) => Some(v),
            Err(_) => None,
        }
    }
}

/// Reads `data` as a table of `usize` values. Fails as `load_text` does; a
/// field that is not the text of an `usize` is a conversion error.
pub fn load_txt_usize(data: &[u8], params: &ReaderParams) -> (r: Result<ReaderTable<usize>, ReaderError>)
    ensures
        read_as::<usize>(data@, *params, r),
{
    load_text::<usize>(data, params)
}

} // verus!
