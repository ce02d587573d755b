//! The calls this library makes into code it does not verify: `idna`, `url`,
//! `sha2`, `csv`, and two functions of std that vstd gives no specification.
use sha2::Digest;
use vstd::prelude::*;

use crate::compiler::render::literal_value;
use crate::compiler::sources::{Table, TableView};
use crate::email::passthrough_domain;
use crate::text::ascii_lowercase;

verus! {

/// What `idna::domain_to_ascii` returns for a domain: the UTS #46 ASCII form,
/// or `None` where processing reports errors.
pub uninterp spec fn idna_domain_to_ascii(domain: Seq<char>) -> Option<Seq<char>>;

/// What `url::Url::parse` followed by `Url::host_str` gives for an input:
/// `None` where parsing fails, `Some(None)` for a URL without a host, and
/// `Some(Some(host))` otherwise.
pub uninterp spec fn url_parse_host(input: Seq<char>) -> Option<Option<Seq<char>>>;

/// The SHA-256 digest of a byte sequence, as `sha2::Sha256` computes it.
pub uninterp spec fn sha256_digest(bytes: Seq<u8>) -> Seq<u8>;

/// What a `csv::Reader` with its default settings (a header row, records of
/// the header's length) reads from a byte sequence: `None` where the header row
/// cannot be read; otherwise the header cells, the records read before the
/// first record that cannot be read, and whether every record was read.
pub uninterp spec fn csv_table(bytes: Seq<u8>) -> Option<TableView>;

/// What std's `Debug` formatting (`{:?}`) writes for a string slice: the string
/// in double quotes with its special characters escaped.
pub uninterp spec fn debug_quoted(s: Seq<char>) -> Seq<char>;

/// Calls `idna::domain_to_ascii` (UTS #46 processing with hyphens allowed, no
/// ASCII deny list and no DNS length check). The contract claims that the
/// outcome is a function of the input, named `idna_domain_to_ascii`; that, as
/// the function's documentation says that it normalizes upper case to lower
/// case, the input with its ASCII capitals lowered has the same outcome; and
/// that an input all of whose labels pass `is_passthrough_ascii_label` (which
/// `passthrough_domain` states) is returned as it is, which the crate's
/// passthrough path does. The error value, which carries no information,
/// becomes `None`.
#[verifier::external_body]
pub(crate) fn domain_to_ascii(domain: &str) -> (r: Option<String>)
    ensures
        match r {
            Some(s) => {
                &&& idna_domain_to_ascii(domain@) == Some(s@)
                &&& idna_domain_to_ascii(ascii_lowercase(domain@)) == Some(s@)
                &&& passthrough_domain(domain@) ==> s@ == domain@
            },
            None => {
                &&& idna_domain_to_ascii(domain@) is None
                &&& idna_domain_to_ascii(ascii_lowercase(domain@)) is None
                &&& !passthrough_domain(domain@)
            },
        },
{
    match idna::domain_to_ascii(domain) {
        Ok(s) => Some(s),
        Err(_) => None,
    }
}

/// Calls `url::Url::parse` on `input` and, where it succeeds, `Url::host_str`
/// on the parsed URL. The contract claims only that the outcome is a function
/// of the input, named `url_parse_host`; the parse error becomes `None`.
#[verifier::external_body]
pub(crate) fn parse_url_host(input: &str) -> (r: Option<Option<String>>)
    ensures
        match r {
            None => url_parse_host(input@) is None,
            Some(None) => url_parse_host(input@) == Some(None::<Seq<char>>),
            Some(Some(h)) => url_parse_host(input@) == Some(Some(h@)),
        },
{
    match url::Url::parse(input) {
        Ok(u) => Some(u.host_str().map(|h| h.to_owned())),
        Err(_) => None,
    }
}

/// Reads `bytes` with `csv::Reader::from_reader`: the header row with
/// `Reader::headers`, then the records with `Reader::records` up to the first
/// one that reports an error. The contract claims only that the outcome is a
/// function of the bytes, named `csv_table`; the error values become `None` and
/// `complete: false`.
#[verifier::external_body]
pub(crate) fn parse_csv_table(bytes: &[u8]) -> (r: Option<Table>)
    ensures
        match r {
            Some(t) => csv_table(bytes@) == Some(t@),
            None => csv_table(bytes@) is None,
        },
{
    let mut reader = csv::Reader::from_reader(bytes);
    let headers = match reader.headers() {
        Ok(h) => h.iter().map(|c| c.to_owned()).collect(),
        Err(_) => return None,
    };
    let mut records = Vec::new();
    for row in reader.records() {
        match row {
            Ok(r) => records.push(r.iter().map(|c| c.to_owned()).collect()),
            Err(_) => return Some(Table { headers, records, complete: false }),
        }
    }
    Some(Table { headers, records, complete: true })
}

/// Calls `sha2::Sha256::digest`. The contract claims that the result is the
/// digest named `sha256_digest` of the input, and that it is 32 bytes long,
/// as the output size of SHA-256 is.
#[verifier::external_body]
pub(crate) fn sha256(bytes: &[u8]) -> (r: Vec<u8>)
    ensures
        r@ == sha256_digest(bytes@),
        r@.len() == 32,
{
    sha2::Sha256::digest(bytes).to_vec()
}

/// Formats `s` with std's `Debug` implementation for `str` (`format!("{:?}", s)`).
/// The contract claims that the result is a function of `s`, named
/// `debug_quoted`, and that it is a Rust string literal standing for `s`: the
/// string in double quotes, each character written as itself or as the escape
/// code that `char::escape_debug` documents (`\n`, `\r`, `\t`, `\\`, `\0`,
/// `\'`, `\"` or `\u{..}`), which `literal_value` reads.
#[verifier::external_body]
pub(crate) fn debug_quote(s: &str) -> (r: String)
    ensures
        r@ == debug_quoted(s@),
        literal_value(r@) == Some(s@),
{
    format!("{:?}", s)
}

/// Collects characters into a `String` (std's `FromIterator<&char> for String`),
/// which holds exactly those characters in order.
#[verifier::external_body]
pub(crate) fn string_from_chars(chars: &Vec<char>) -> (r: String)
    ensures
        r@ == chars@,
{
    chars.iter().collect()
}

} // verus!
