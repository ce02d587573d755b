//! SHA-256 checks of the source snapshots and the dataset version.
use vstd::prelude::*;

use crate::compiler::error::{CompilerError, CompilerErrorView};
use crate::external::{sha256, sha256_digest, string_from_chars};
use crate::text::{chars_equal, chars_of, push_chars};

verus! {

/// The lowercase hexadecimal digit for `d` (0 to 15).
pub open spec fn hex_digit(d: nat) -> char {
    if d < 10 {
        ((d + 48) as u32) as char
    } else {
        ((d + 87) as u32) as char
    }
}

/// Lowercase hexadecimal of bytes, two digits per byte, as `{:x}` formats a digest.
pub open spec fn hex_lower(bytes: Seq<u8>) -> Seq<char>
    decreases bytes.len(),
{
    if bytes.len() == 0 {
        Seq::empty()
    } else {
        hex_lower(bytes.drop_last()) + seq![
            hex_digit((bytes.last() / 16) as nat),
            hex_digit((bytes.last() % 16) as nat),
        ]
    }
}

proof fn lemma_hex_lower_len(bytes: Seq<u8>)
    ensures
        hex_lower(bytes).len() == 2 * bytes.len(),
    decreases bytes.len(),
{
    if bytes.len() > 0 {
        lemma_hex_lower_len(bytes.drop_last());
    }
}

fn hex_digit_char(d: u8) -> (c: char)
    requires
        d < 16,
    ensures
        c == hex_digit(d as nat),
{
    if d < 10 {
        (d + 48) as char
    } else {
        (d + 87) as char
    }
}

/// Lowercase hexadecimal of `bytes`.
pub fn to_hex_lower(bytes: &Vec<u8>) -> (r: Vec<char>)
    ensures
        r@ == hex_lower(bytes@),
{
    let mut r: Vec<char> = Vec::new();
    let mut i: usize = 0;
    assert(bytes@.take(0) =~= Seq::<u8>::empty());
    while i < bytes.len()
        invariant
            i <= bytes.len(),
            r@ == hex_lower(bytes@.take(i as int)),
        decreases bytes.len() - i,
    {
        let b = bytes[i];
        assert(bytes@.take(i + 1).drop_last() =~= bytes@.take(i as int));
        assert(bytes@.take(i + 1).last() == b);
        r.push(hex_digit_char(b / 16));
        r.push(hex_digit_char(b % 16));
        i = i + 1;
        assert(r@ =~= hex_lower(bytes@.take(i as int)));
    }
    assert(bytes@.take(bytes.len() as int) =~= bytes@);
    r
}

/// The hexadecimal SHA-256 digest of a snapshot.
pub open spec fn source_hash(bytes: Seq<u8>) -> Seq<char> {
    hex_lower(sha256_digest(bytes))
}

/// Checks a source snapshot against its recorded SHA-256 digest.
pub fn verify_source_hash(bytes: &[u8], expected: &str, file: &str) -> (r: Result<(), CompilerError>)
    ensures
        match r {
            Ok(()) => source_hash(bytes@) == expected@,
            Err(e) => source_hash(bytes@) != expected@ && e@ == CompilerErrorView::SourceHashMismatch {
                file: file@,
                expected: expected@,
                actual: source_hash(bytes@),
            },
        },
{
    let digest = sha256(bytes);
    let actual = to_hex_lower(&digest);
    if chars_equal(&actual, &chars_of(expected)) {
        Ok(())
    } else {
        Err(
            CompilerError::SourceHashMismatch {
                file: file.to_owned(),
                expected: expected.to_owned(),
                actual: string_from_chars(&actual),
            },
        )
    }
}

/// One input of the dataset version: the file name and the file's bytes.
pub struct VersionInput {
    pub file_name: String,
    pub bytes: Vec<u8>,
}

/// The bytes that the dataset version digests: for each input, its file name,
/// a zero byte, its contents and a zero byte.
pub open spec fn version_bytes(inputs: Seq<VersionInput>) -> Seq<u8>
    decreases inputs.len(),
{
    if inputs.len() == 0 {
        Seq::empty()
    } else {
        let last = inputs.last();
        version_bytes(inputs.drop_last()) + vstd::utf8::encode_utf8(last.file_name@) + seq![0u8]
            + last.bytes@ + seq![0u8]
    }
}

/// The dataset version: `sha256:` and the hexadecimal digest of the inputs.
pub open spec fn spec_dataset_version(inputs: Seq<VersionInput>) -> Seq<char> {
    "sha256:"@ + hex_lower(sha256_digest(version_bytes(inputs)))
}

fn append_bytes(out: &mut Vec<u8>, bytes: &[u8])
    ensures
        final(out)@ == old(out)@ + bytes@,
{
    let ghost start = out@;
    let mut i: usize = 0;
    while i < bytes.len()
        invariant
            i <= bytes.len(),
            out@ == start + bytes@.take(i as int),
        decreases bytes.len() - i,
    {
        out.push(bytes[i]);
        i = i + 1;
        assert(out@ =~= start + bytes@.take(i as int));
    }
    assert(bytes@.take(bytes.len() as int) =~= bytes@);
}

/// Computes the dataset version of the inputs, in order.
pub fn dataset_version(inputs: &Vec<VersionInput>) -> (r: String)
    ensures
        r@ == spec_dataset_version(inputs@),
        r@.len() == 71,
{
    let mut data: Vec<u8> = Vec::new();
    let mut i: usize = 0;
    assert(inputs@.take(0) =~= Seq::<VersionInput>::empty());
    while i < inputs.len()
        invariant
            i <= inputs.len(),
            data@ == version_bytes(inputs@.take(i as int)),
        decreases inputs.len() - i,
    {
        let input = &inputs[i];
        assert(inputs@.take(i + 1).drop_last() =~= inputs@.take(i as int));
        assert(inputs@.take(i + 1).last() == input);
        append_bytes(&mut data, input.file_name.as_str().as_bytes());
        data.push(0u8);
        append_bytes(&mut data, input.bytes.as_slice());
        data.push(0u8);
        i = i + 1;
        assert(data@ =~= version_bytes(inputs@.take(i as int)));
    }
    assert(inputs@.take(inputs.len() as int) =~= inputs@);
    let digest = sha256(data.as_slice());
    let mut out = chars_of("sha256:");
    push_chars(&mut out, &to_hex_lower(&digest));
    proof {
        reveal_strlit("sha256:");
        lemma_hex_lower_len(digest@);
    }
    string_from_chars(&out)
}

} // verus!
