//! Reading the cells of the upstream CSV tables.
use vstd::prelude::*;

use crate::compiler::error::{CompilerError, CompilerErrorView};
use crate::external::string_from_chars;
use crate::text::{
    chars_equal, chars_of, is_ascii_digit, strip_leading, strip_leading_char, trim_chars,
    trim_white_space,
};

verus! {

/// A header cell without its byte-order marks and surrounding white space.
pub open spec fn normalized_header(h: Seq<char>) -> Seq<char> {
    trim_white_space(strip_leading(h, '\u{feff}'))
}

/// The headers of a table with byte-order marks and surrounding white space removed.
pub fn normalized_headers(headers: &Vec<String>) -> (r: Vec<String>)
    ensures
        r.len() == headers.len(),
        forall|i: int| 0 <= i < r.len() ==> #[trigger] r[i]@ == normalized_header(headers[i]@),
{
    let mut r: Vec<String> = Vec::new();
    let mut i: usize = 0;
    while i < headers.len()
        invariant
            i <= headers.len(),
            r.len() == i,
            forall|j: int| 0 <= j < i ==> #[trigger] r[j]@ == normalized_header(headers[j]@),
        decreases headers.len() - i,
    {
        let chars = chars_of(headers[i].as_str());
        let without_bom = strip_leading_char(&chars, '\u{feff}');
        let trimmed = trim_chars(&without_bom);
        r.push(string_from_chars(&trimmed));
        i = i + 1;
    }
    r
}

/// The index of the column called `name`, or `MissingColumn`.
pub fn column(headers: &Vec<String>, name: &str, path: &str) -> (r: Result<usize, CompilerError>)
    ensures
        match r {
            Ok(i) => i < headers.len() && headers[i as int]@ == name@ && forall|j: int|
                0 <= j < i ==> headers[j]@ != name@,
            Err(e) => {
                &&& forall|j: int| 0 <= j < headers.len() ==> headers[j]@ != name@
                &&& e@ == CompilerErrorView::MissingColumn { column: name@, path: path@ }
            },
        },
{
    let wanted = chars_of(name);
    let mut i: usize = 0;
    while i < headers.len()
        invariant
            i <= headers.len(),
            wanted@ == name@,
            forall|j: int| 0 <= j < i ==> headers[j]@ != name@,
        decreases headers.len() - i,
    {
        let h = chars_of(headers[i].as_str());
        if chars_equal(&h, &wanted) {
            return Ok(i);
        }
        i = i + 1;
    }
    Err(CompilerError::MissingColumn { column: name.to_owned(), path: path.to_owned() })
}

/// The value of a string of ASCII digits.
pub open spec fn digits_value(s: Seq<char>) -> nat
    decreases s.len(),
{
    if s.len() == 0 {
        0
    } else {
        digits_value(s.drop_last()) * 10 + ((s.last() as nat) - ('0' as nat)) as nat
    }
}

/// Whether every character of `s` is an ASCII digit.
pub open spec fn all_digits(s: Seq<char>) -> bool {
    forall|i: int| 0 <= i < s.len() ==> is_ascii_digit(#[trigger] s[i])
}

/// The `u32` that one or more ASCII digits denote, where it fits.
pub open spec fn parse_digits(digits: Seq<char>) -> Option<u32> {
    if digits.len() > 0 && all_digits(digits) && digits_value(digits) <= u32::MAX {
        Some(digits_value(digits) as u32)
    } else {
        None
    }
}

/// The `u32` that `str::parse::<u32>` reads from `s`: an optional `+` followed
/// by one or more ASCII digits whose value fits in a `u32`.
pub open spec fn spec_parse_u32(s: Seq<char>) -> Option<u32> {
    if s.len() > 0 && s[0] == '+' {
        parse_digits(s.drop_first())
    } else {
        parse_digits(s)
    }
}

proof fn lemma_digits_value_monotonic(s: Seq<char>, i: int)
    requires
        0 <= i <= s.len(),
        forall|k: int| 0 <= k < s.len() ==> is_ascii_digit(#[trigger] s[k]),
    ensures
        digits_value(s.take(i)) <= digits_value(s),
    decreases s.len() - i,
{
    if i < s.len() {
        lemma_digits_value_monotonic(s, i + 1);
        assert(s.take(i + 1).drop_last() =~= s.take(i));
    } else {
        assert(s.take(i) =~= s);
    }
}

/// Reads a `u32` as `str::parse::<u32>` does.
pub fn parse_u32_text(s: &Vec<char>) -> (r: Option<u32>)
    ensures
        r == spec_parse_u32(s@),
{
    let start: usize = if s.len() > 0 && s[0] == '+' {
        1
    } else {
        0
    };
    let ghost digits = if s@.len() > 0 && s@[0] == '+' {
        s@.drop_first()
    } else {
        s@
    };
    assert(digits =~= s@.skip(start as int));
    if start >= s.len() {
        return None;
    }
    let mut value: u64 = 0;
    let mut i: usize = start;
    while i < s.len()
        invariant
            start <= i <= s.len(),
            digits =~= s@.skip(start as int),
            digits == (if s@.len() > 0 && s@[0] == '+' {
                s@.drop_first()
            } else {
                s@
            }),
            forall|k: int| 0 <= k < i - start ==> is_ascii_digit(#[trigger] digits[k]),
            value == digits_value(digits.take(i - start)),
            value <= u32::MAX,
        decreases s.len() - i,
    {
        let c = s[i];
        if !('0' <= c && c <= '9') {
            assert(digits[i - start] == c);
            assert(!is_ascii_digit(digits[i - start]));
            assert(!(forall|k: int| 0 <= k < digits.len() ==> is_ascii_digit(#[trigger] digits[k])));
            return None;
        }
        let d = (c as u32 - '0' as u32) as u64;
        let next = value * 10 + d;
        assert(digits.take(i - start + 1).drop_last() =~= digits.take(i - start));
        assert(digits.take(i - start + 1).last() == c);
        assert(next == digits_value(digits.take(i - start + 1)));
        if next > 4294967295u64 {
            proof {
                if forall|k: int| 0 <= k < digits.len() ==> is_ascii_digit(#[trigger] digits[k]) {
                    lemma_digits_value_monotonic(digits, i - start + 1);
                    assert(digits_value(digits) > u32::MAX);
                }
            }
            return None;
        }
        value = next;
        i = i + 1;
    }
    assert(digits.take(i - start) =~= digits);
    Some(value as u32)
}

/// The cells of a row as character sequences.
pub open spec fn row_view(row: Seq<String>) -> Seq<Seq<char>> {
    row.map_values(|c: String| c@)
}

/// The trimmed cell `index` of a row; the empty string where the row is shorter.
pub open spec fn cell(row: Seq<Seq<char>>, index: int) -> Seq<char> {
    if 0 <= index < row.len() {
        trim_white_space(row[index])
    } else {
        Seq::empty()
    }
}

/// The trimmed cell `index` of `row`.
pub fn cell_text(row: &Vec<String>, index: usize) -> (r: Vec<char>)
    ensures
        r@ == cell(row_view(row@), index as int),
{
    if index < row.len() {
        assert(row_view(row@)[index as int] == row@[index as int]@);
        trim_chars(&chars_of(row[index].as_str()))
    } else {
        Vec::new()
    }
}

/// Reads the `u32` in cell `index` of `row`, or `InvalidInteger` with the
/// trimmed cell, the column name and the table's path.
pub fn parse_u32(row: &Vec<String>, index: usize, column_name: &str, path: &str) -> (r: Result<
    u32,
    CompilerError,
>)
    ensures
        match r {
            Ok(v) => spec_parse_u32(cell(row_view(row@), index as int)) == Some(v),
            Err(e) => {
                &&& spec_parse_u32(cell(row_view(row@), index as int)) is None
                &&& e@ == CompilerErrorView::InvalidInteger {
                    value: cell(row_view(row@), index as int),
                    column: column_name@,
                    path: path@,
                }
            },
        },
{
    let value = cell_text(row, index);
    match parse_u32_text(&value) {
        Some(v) => Ok(v),
        None => Err(
            CompilerError::InvalidInteger {
                value: string_from_chars(&value),
                column: column_name.to_owned(),
                path: path.to_owned(),
            },
        ),
    }
}

} // verus!
