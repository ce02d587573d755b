//! Normalization of the domains that the policy and the alias table name.
use vstd::prelude::*;

use crate::email::{passthrough_domain, valid_domain, validate_domain_chars};
use crate::external::{
    domain_to_ascii, idna_domain_to_ascii, parse_url_host, string_from_chars, url_parse_host,
};
use crate::text::{
    ascii_lowercase, chars_of, concat_chars, contains_chars, contains_seq,
    domain_is_domain_or_child, find_last, last_index_of, lemma_last_index_of,
    strip_prefix_repeatedly, strip_prefix_repeatedly_chars, strip_trailing, strip_trailing_char,
    sub_chars, to_ascii_lowercase, trim_chars, trim_white_space,
};

verus! {

/// The default of the policy's boolean settings.
pub fn default_true() -> (r: bool)
    ensures
        r,
{
    true
}

/// The ASCII form of a domain under IDNA processing: the domain itself where
/// that processing copies each of its labels through unchanged, and otherwise
/// what `idna_domain_to_ascii` gives.
pub open spec fn ascii_form(domain: Seq<char>) -> Option<Seq<char>> {
    if passthrough_domain(domain) {
        Some(domain)
    } else {
        idna_domain_to_ascii(domain)
    }
}

/// The normalized form of a policy or alias domain: trimmed, without trailing
/// dots, in its lowercase ASCII form, and valid.
pub open spec fn spec_normalize_domain(value: Seq<char>) -> Option<Seq<char>> {
    match ascii_form(strip_trailing(trim_white_space(value), '.')) {
        None => None,
        Some(ascii) => if valid_domain(ascii_lowercase(ascii)) {
            Some(ascii_lowercase(ascii))
        } else {
            None
        },
    }
}

/// Normalizes a domain; `None` where it is not a valid domain.
pub fn normalize_domain(value: &str) -> (r: Option<String>)
    ensures
        match r {
            Some(d) => spec_normalize_domain(value@) == Some(d@),
            None => spec_normalize_domain(value@) is None,
        },
{
    let chars = chars_of(value);
    let trimmed = trim_chars(&chars);
    let stripped = strip_trailing_char(&trimmed, '.');
    let text = string_from_chars(&stripped);
    let ascii = match domain_to_ascii(text.as_str()) {
        Some(a) => a,
        None => {
            return None;
        },
    };
    let ascii_chars = chars_of(ascii.as_str());
    let domain = to_ascii_lowercase(&ascii_chars);
    match validate_domain_chars(&domain) {
        Ok(()) => Some(string_from_chars(&domain)),
        Err(_) => None,
    }
}

/// The part of an alias after its last `@`, or the whole alias.
pub open spec fn after_last_at(s: Seq<char>) -> Seq<char> {
    match last_index_of(s, '@') {
        Some(i) => s.skip(i + 1),
        None => s,
    }
}

/// Whether an alias candidate is written as a URL or path.
pub open spec fn looks_like_url(c: Seq<char>) -> bool {
    contains_seq(c, "://"@) || c.contains('/')
}

/// The host an alias names: the candidate itself, or the host of the URL it is
/// written as (with `https://` put before it where it has no scheme).
pub open spec fn alias_host(c: Seq<char>) -> Option<Seq<char>> {
    if looks_like_url(c) {
        let input = if contains_seq(c, "://"@) {
            c
        } else {
            "https://"@ + c
        };
        match url_parse_host(input) {
            Some(Some(h)) => Some(h),
            _ => None,
        }
    } else {
        Some(c)
    }
}

/// The domain an alias names: an email address, URL, path or bare domain,
/// without a leading `www.`, normalized.
pub open spec fn spec_normalize_alias_domain(value: Seq<char>) -> Option<Seq<char>> {
    match alias_host(after_last_at(trim_white_space(value))) {
        Some(h) => spec_normalize_domain(strip_prefix_repeatedly(h, "www."@)),
        None => None,
    }
}

/// The domain that an upstream alias names, if it names one.
pub fn normalize_alias_domain(value: &str) -> (r: Option<String>)
    ensures
        match r {
            Some(d) => spec_normalize_alias_domain(value@) == Some(d@),
            None => spec_normalize_alias_domain(value@) is None,
        },
{
    let chars = chars_of(value);
    let trimmed = trim_chars(&chars);
    let mut candidate = match find_last(&trimmed, '@') {
        Some(i) => sub_chars(&trimmed, i + 1, trimmed.len()),
        None => sub_chars(&trimmed, 0, trimmed.len()),
    };
    proof {
        lemma_last_index_of(trimmed@, '@');
    }
    assert(candidate@ =~= after_last_at(trim_white_space(value@)));
    let scheme_sep = chars_of("://");
    let has_scheme = contains_chars(&candidate, &scheme_sep);
    let slash: Vec<char> = chars_of("/");
    proof {
        reveal_strlit("/");
        if candidate@.contains('/') {
            let k = choose|k: int| 0 <= k < candidate@.len() && candidate@[k] == '/';
            assert(candidate@.subrange(k, k + slash@.len()) =~= slash@);
        }
        if contains_seq(candidate@, slash@) {
            let k = choose|k: int|
                0 <= k <= candidate@.len() - slash@.len() && #[trigger] candidate@.subrange(
                    k,
                    k + slash@.len(),
                ) == slash@;
            assert(candidate@[k] == candidate@.subrange(k, k + slash@.len())[0]);
        }
    }
    let has_slash = contains_chars(&candidate, &slash);
    if has_scheme || has_slash {
        let input = if has_scheme {
            sub_chars(&candidate, 0, candidate.len())
        } else {
            concat_chars(&chars_of("https://"), &candidate)
        };
        assert(input@ =~= (if contains_seq(candidate@, "://"@) {
            candidate@
        } else {
            "https://"@ + candidate@
        }));
        let input_text = string_from_chars(&input);
        match parse_url_host(input_text.as_str()) {
            Some(Some(host)) => {
                candidate = chars_of(host.as_str());
            },
            _ => {
                return None;
            },
        }
    }
    let without_www = strip_prefix_repeatedly_chars(&candidate, &chars_of("www."));
    let text = string_from_chars(&without_www);
    normalize_domain(text.as_str())
}

/// Whether `domain` is `root` or a subdomain of it.
pub fn is_domain_or_child(domain: &str, root: &str) -> (r: bool)
    ensures
        r == crate::text::is_domain_or_child(domain@, root@),
{
    domain_is_domain_or_child(&chars_of(domain), &chars_of(root))
}

} // verus!
