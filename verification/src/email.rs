//! Email syntax and domain validation.
use vstd::prelude::*;

use crate::external::{domain_to_ascii, idna_domain_to_ascii, string_from_chars};
use crate::text::{
    ascii_lowercase, char_is_ascii_alphanumeric, char_is_control, char_is_white_space, chars_of,
    find_first, has_surrounding_white_space, first_index_of, is_ascii_alphanumeric, is_control,
    lemma_first_index_of, sub_chars, to_ascii_lowercase,
};

verus! {

/// Why an email address was rejected.
#[derive(Debug, Clone, Copy, PartialEq, Eq, Structural)]
pub enum ValidationError {
    InvalidEmail,
    EmailTooLong,
    InvalidDomain,
}

impl ValidationError {
    /// The message that describes the error.
    pub fn message(&self) -> (m: &'static str)
        ensures
            m@ == self.spec_message(),
    {
        match self {
            ValidationError::InvalidEmail => "email must be a single common internet email address",
            ValidationError::EmailTooLong => "email exceeds 254 bytes",
            ValidationError::InvalidDomain => "email domain is invalid",
        }
    }

    pub open spec fn spec_message(&self) -> Seq<char> {
        match self {
            ValidationError::InvalidEmail => "email must be a single common internet email address"@,
            ValidationError::EmailTooLong => "email exceeds 254 bytes"@,
            ValidationError::InvalidDomain => "email domain is invalid"@,
        }
    }
}

/// The ASCII characters allowed in the local part of an address: letters,
/// digits and the specials of RFC 5322's `atext`, plus the dot.
pub open spec fn local_atom_char(c: char) -> bool {
    ||| is_ascii_alphanumeric(c)
    ||| c == '.' || c == '!' || c == '#' || c == '$' || c == '%' || c == '&'
    ||| c == '\'' || c == '*' || c == '+' || c == '-' || c == '/' || c == '='
    ||| c == '?' || c == '^' || c == '_' || c == '`' || c == '{' || c == '|'
    ||| c == '}' || c == '~'
}

/// The bytes allowed in the local part of an address.
pub open spec fn valid_local_byte(b: u8) -> bool {
    local_atom_char(b as char)
}

/// A character of the local part: an ASCII character whose byte is allowed.
/// (A non-ASCII character is encoded as bytes of 0x80 and above, none of which is allowed.)
pub open spec fn valid_local_char(c: char) -> bool {
    (c as u32) < 128 && valid_local_byte(c as u8)
}

/// Whether `s` holds two dots in a row.
pub open spec fn has_double_dot(s: Seq<char>) -> bool {
    exists|i: int| 0 <= i < s.len() - 1 && #[trigger] s[i] == '.' && s[i + 1] == '.'
}

/// The local part is non-empty, at most 64 characters (each one byte, as only
/// ASCII is allowed), holds no `@`, neither starts nor ends with a dot, holds
/// no two dots in a row, and only allowed characters.
pub open spec fn valid_local_part(local: Seq<char>) -> bool {
    &&& 0 < local.len() <= 64
    &&& !local.contains('@')
    &&& local[0] != '.'
    &&& local.last() != '.'
    &&& !has_double_dot(local)
    &&& forall|i: int| 0 <= i < local.len() ==> valid_local_char(#[trigger] local[i])
}

/// The labels of `s`: the pieces between dots.
pub open spec fn labels(s: Seq<char>) -> Seq<Seq<char>>
    decreases s.len(),
{
    if s.len() == 0 {
        seq![Seq::<char>::empty()]
    } else {
        let prev = labels(s.drop_last());
        if s.last() == '.' {
            prev.push(Seq::<char>::empty())
        } else {
            prev.update(prev.len() - 1, prev.last().push(s.last()))
        }
    }
}

/// A label is 1 to 63 ASCII letters, digits and hyphens, and neither starts nor
/// ends with a hyphen.
pub open spec fn valid_label(l: Seq<char>) -> bool {
    &&& 0 < l.len() <= 63
    &&& l[0] != '-'
    &&& l.last() != '-'
    &&& forall|i: int| 0 <= i < l.len() ==> is_ascii_alphanumeric(#[trigger] l[i]) || l[i] == '-'
}

/// A label that IDNA processing copies through unchanged: empty, or starting
/// with a lowercase ASCII letter, holding only lowercase ASCII letters, digits
/// and hyphens, not ending with a hyphen, and without hyphens as its third and
/// fourth characters.
pub open spec fn passthrough_label(l: Seq<char>) -> bool {
    ||| l.len() == 0
    ||| {
        &&& !(l.len() >= 4 && l[2] == '-' && l[3] == '-')
        &&& 'a' <= l[0] <= 'z'
        &&& l.last() != '-'
        &&& forall|i: int|
            0 <= i < l.len() ==> ('a' <= #[trigger] l[i] <= 'z' || '0' <= l[i] <= '9' || l[i] == '-')
    }
}

/// A domain all of whose labels IDNA processing copies through unchanged.
pub open spec fn passthrough_domain(d: Seq<char>) -> bool {
    forall|i: int| 0 <= i < labels(d).len() ==> passthrough_label(#[trigger] labels(d)[i])
}

/// A domain is non-empty, at most 253 characters (each one byte where the
/// labels are valid), does not end with a dot, holds at least one dot, and all
/// its labels are valid.
pub open spec fn valid_domain(d: Seq<char>) -> bool {
    &&& 0 < d.len() <= 253
    &&& d.last() != '.'
    &&& d.contains('.')
    &&& forall|i: int| 0 <= i < labels(d).len() ==> valid_label(#[trigger] labels(d)[i])
}

/// The conditions that make an address `InvalidEmail` before its domain is read:
/// it is empty, starts or ends with white space, holds a control character, has
/// no `@`, or the part before the first `@` is not a valid local part.
pub open spec fn malformed_email(email: Seq<char>) -> bool {
    ||| email.len() == 0
    ||| has_surrounding_white_space(email)
    ||| (exists|i: int| 0 <= i < email.len() && is_control(#[trigger] email[i]))
    ||| match first_index_of(email, '@') {
        None => true,
        Some(at) => !valid_local_part(email.take(at)),
    }
}

/// The part of the address after the first `@`.
pub open spec fn raw_domain(email: Seq<char>) -> Seq<char> {
    match first_index_of(email, '@') {
        Some(at) => email.skip(at + 1),
        None => email,
    }
}

/// The lowercase ASCII domain of an address, or why the address is rejected.
/// The domain part is taken with its ASCII capitals lowered, which IDNA
/// processing does first.
pub open spec fn spec_extract_domain(email: &str) -> Result<Seq<char>, ValidationError> {
    if email.len() > 254 {
        Err(ValidationError::EmailTooLong)
    } else if malformed_email(email@) {
        Err(ValidationError::InvalidEmail)
    } else {
        match idna_domain_to_ascii(ascii_lowercase(raw_domain(email@))) {
            None => Err(ValidationError::InvalidDomain),
            Some(ascii) => if valid_domain(ascii_lowercase(ascii)) {
                Ok(ascii_lowercase(ascii))
            } else {
                Err(ValidationError::InvalidDomain)
            },
        }
    }
}

/// Whether `byte` may appear in the local part of an address.
pub fn is_valid_local_byte(byte: u8) -> (r: bool)
    ensures
        r == valid_local_byte(byte),
{
    let c = byte as char;
    char_is_ascii_alphanumeric(c) || c == '.' || c == '!' || c == '#' || c == '$' || c == '%'
        || c == '&' || c == '\'' || c == '*' || c == '+' || c == '-' || c == '/' || c == '='
        || c == '?' || c == '^' || c == '_' || c == '`' || c == '{' || c == '|' || c == '}'
        || c == '~'
}

fn is_valid_local_char(c: char) -> (r: bool)
    ensures
        r == valid_local_char(c),
{
    let u = c as u32;
    if u < 128 {
        is_valid_local_byte(u as u8)
    } else {
        false
    }
}

/// Whether `local` is a valid local part.
fn is_valid_local_part(local: &Vec<char>) -> (r: bool)
    ensures
        r == valid_local_part(local@),
{
    let n = local.len();
    if n == 0 || n > 64 {
        return false;
    }
    if local[0] == '.' || local[n - 1] == '.' {
        return false;
    }
    let mut i: usize = 0;
    while i < n
        invariant
            n == local.len(),
            0 < n <= 64,
            i <= n,
            forall|j: int| 0 <= j < i ==> local@[j] != '@' && valid_local_char(#[trigger] local@[j]),
            forall|j: int| 0 <= j < i && j + 1 < n ==> !(#[trigger] local@[j] == '.' && local@[j + 1] == '.'),
        decreases n - i,
    {
        let c = local[i];
        if c == '@' || !is_valid_local_char(c) {
            return false;
        }
        if c == '.' && i + 1 < n && local[i + 1] == '.' {
            return false;
        }
        i = i + 1;
    }
    assert(!has_double_dot(local@));
    true
}

/// Whether `d[start..end]` is a valid label.
fn is_valid_label(d: &Vec<char>, start: usize, end: usize) -> (r: bool)
    requires
        start <= end <= d.len(),
    ensures
        r == valid_label(d@.subrange(start as int, end as int)),
{
    let ghost l = d@.subrange(start as int, end as int);
    if start == end || end - start > 63 {
        return false;
    }
    if d[start] == '-' || d[end - 1] == '-' {
        return false;
    }
    let mut i: usize = start;
    while i < end
        invariant
            start <= i <= end <= d.len(),
            l == d@.subrange(start as int, end as int),
            forall|j: int| 0 <= j < i - start ==> is_ascii_alphanumeric(#[trigger] l[j]) || l[j] == '-',
        decreases end - i,
    {
        let c = d[i];
        if !(char_is_ascii_alphanumeric(c) || c == '-') {
            assert(l[i - start] == c);
            return false;
        }
        i = i + 1;
    }
    true
}

/// Checks that the characters `domain` form a syntactically valid domain.
pub fn validate_domain_chars(domain: &Vec<char>) -> (r: Result<(), ValidationError>)
    ensures
        match r {
            Ok(()) => valid_domain(domain@),
            Err(e) => !valid_domain(domain@) && e == ValidationError::InvalidDomain,
        },
{
    let n = domain.len();
    if n == 0 || n > 253 || domain[n - 1] == '.' {
        return Err(ValidationError::InvalidDomain);
    }
    let mut start: usize = 0;
    let mut ok = true;
    let mut has_dot = false;
    let mut i: usize = 0;
    assert(domain@.take(0) =~= Seq::<char>::empty());
    while i < n
        invariant
            n == domain.len(),
            start <= i <= n,
            labels(domain@.take(i as int)).len() >= 1,
            labels(domain@.take(i as int)).last() == domain@.subrange(start as int, i as int),
            ok == forall|k: int|
                0 <= k < labels(domain@.take(i as int)).len() - 1 ==> valid_label(
                    #[trigger] labels(domain@.take(i as int))[k],
                ),
            has_dot == domain@.take(i as int).contains('.'),
        decreases n - i,
    {
        let ghost prev = labels(domain@.take(i as int));
        let c = domain[i];
        assert(domain@.take(i + 1).drop_last() =~= domain@.take(i as int));
        assert(domain@.take(i + 1).last() == c);
        if c == '.' {
            let label_ok = is_valid_label(domain, start, i);
            ok = ok && label_ok;
            has_dot = true;
            start = i + 1;
            proof {
                let cur = labels(domain@.take(i + 1));
                assert(cur == prev.push(Seq::<char>::empty()));
                assert(domain@.subrange(start as int, i + 1) =~= Seq::<char>::empty());
                assert forall|k: int| 0 <= k < cur.len() - 1 implies cur[k] == prev[k] by {}
                assert(domain@.take(i + 1)[i as int] == '.');
            }
        } else {
            proof {
                let cur = labels(domain@.take(i + 1));
                assert(cur == prev.update(prev.len() - 1, prev.last().push(c)));
                assert(domain@.subrange(start as int, i + 1) =~= domain@.subrange(
                    start as int,
                    i as int,
                ).push(c));
                assert forall|k: int| 0 <= k < cur.len() - 1 implies cur[k] == prev[k] by {}
                if has_dot {
                    let w = choose|w: int| 0 <= w < i && domain@.take(i as int)[w] == '.';
                    assert(domain@.take(i + 1)[w] == '.');
                }
                if domain@.take(i + 1).contains('.') {
                    let w = choose|w: int| 0 <= w < i + 1 && #[trigger] domain@.take(i + 1)[w] == '.';
                    assert(domain@.take(i as int)[w] == '.');
                }
            }
        }
        i = i + 1;
    }
    let last_ok = is_valid_label(domain, start, n);
    assert(domain@.take(n as int) =~= domain@);
    proof {
        let ls = labels(domain@);
        if ok && last_ok {
            assert forall|k: int| 0 <= k < ls.len() implies valid_label(#[trigger] ls[k]) by {
                if k < ls.len() - 1 {
                } else {
                    assert(ls[k] == ls.last());
                }
            }
        }
    }
    if ok && last_ok && has_dot {
        Ok(())
    } else {
        proof {
            let ls = labels(domain@);
            if !last_ok {
                assert(!valid_label(ls[ls.len() - 1]));
            } else if !ok {
                let k = choose|k: int| 0 <= k < ls.len() - 1 && !valid_label(#[trigger] ls[k]);
                assert(!valid_label(ls[k]));
            }
        }
        Err(ValidationError::InvalidDomain)
    }
}

/// Checks that `domain` is a syntactically valid domain.
pub fn validate_domain(domain: &str) -> (r: Result<(), ValidationError>)
    ensures
        match r {
            Ok(()) => valid_domain(domain@),
            Err(e) => !valid_domain(domain@) && e == ValidationError::InvalidDomain,
        },
{
    validate_domain_chars(&chars_of(domain))
}

/// Extracts the domain of `email` in lowercase ASCII form, or the reason the
/// address is not accepted.
pub fn extract_domain(email: &str) -> (r: Result<String, ValidationError>)
    ensures
        match r {
            Ok(d) => spec_extract_domain(email) == Ok::<Seq<char>, ValidationError>(d@),
            Err(e) => spec_extract_domain(email) == Err::<Seq<char>, ValidationError>(e),
        },
{
    if email.len() > 254 {
        return Err(ValidationError::EmailTooLong);
    }
    let chars = chars_of(email);
    let n = chars.len();
    if n == 0 || char_is_white_space(chars[0]) || char_is_white_space(chars[n - 1]) {
        return Err(ValidationError::InvalidEmail);
    }
    let mut i: usize = 0;
    while i < n
        invariant
            n == chars.len(),
            chars@ == email@,
            email.len() <= 254,
            i <= n,
            forall|j: int| 0 <= j < i ==> !is_control(#[trigger] chars@[j]),
        decreases n - i,
    {
        if char_is_control(chars[i]) {
            assert(is_control(email@[i as int]));
            return Err(ValidationError::InvalidEmail);
        }
        i = i + 1;
    }
    let at = match find_first(&chars, '@') {
        Some(at) => at,
        None => {
            return Err(ValidationError::InvalidEmail);
        },
    };
    proof {
        lemma_first_index_of(chars@, '@');
    }
    let local = sub_chars(&chars, 0, at);
    assert(local@ =~= email@.take(at as int));
    if !is_valid_local_part(&local) {
        return Err(ValidationError::InvalidEmail);
    }
    let raw = sub_chars(&chars, at + 1, n);
    assert(raw@ =~= raw_domain(email@));
    let raw_text = string_from_chars(&raw);
    let ascii = match domain_to_ascii(raw_text.as_str()) {
        Some(a) => a,
        None => {
            return Err(ValidationError::InvalidDomain);
        },
    };
    let ascii_chars = chars_of(ascii.as_str());
    let domain = to_ascii_lowercase(&ascii_chars);
    match validate_domain_chars(&domain) {
        Ok(()) => Ok(string_from_chars(&domain)),
        Err(e) => Err(e),
    }
}

} // verus!
