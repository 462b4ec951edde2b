//! The log text as the remote content store carries it: the store hands
//! file contents out base64-encoded (with line breaks inside the
//! encoding) and takes new contents back base64-encoded. This module owns
//! the conversion between the store's encoding and the plain log text.

use vstd::prelude::*;
use vstd::string::StrSliceExecFns;
use vstd::string::StringSliceAdditionalSpecFns;
use vstd::utf8::{encode_utf8, valid_utf8};

verus! {

/// What base64's standard-alphabet encoder returns for given bytes.
pub uninterp spec fn b64_encode_of(bytes: Seq<u8>) -> Seq<char>;

/// What base64's standard-alphabet decoder returns for given text:
/// `Some` exactly when the engine accepts the text, with the decoded
/// bytes; `None` when it rejects. Both are functions of the text alone.
pub uninterp spec fn b64_decode_of(text: Seq<char>) -> Option<Seq<u8>>;

/// Relies on `base64`'s standard-alphabet engine: the encoding depends on
/// the bytes alone.
#[verifier::external_body]
fn b64_encode(bytes: &Vec<u8>) -> (r: String)
    ensures
        r@ == b64_encode_of(bytes@),
{
    base64::Engine::encode(&base64::engine::general_purpose::STANDARD, bytes)
}

/// Relies on `base64`'s standard-alphabet engine: whether the engine
/// accepts a text, and what it decodes to, both depend on the text alone,
/// so this call succeeds exactly where the name says it does.
#[verifier::external_body]
fn b64_decode(text: &str) -> (r: Option<Vec<u8>>)
    ensures
        r is Some <==> b64_decode_of(text@) is Some,
        r matches Some(b) ==> Some(b@) == b64_decode_of(text@),
{
    match base64::Engine::decode(&base64::engine::general_purpose::STANDARD, text.as_bytes()) {
        Ok(b) => Some(b),
        Err(_) => None,
    }
}

/// Relies on `String::from_utf8`: `Ok` exactly on valid UTF-8, yielding
/// the string with those bytes.
#[verifier::external_body]
fn string_from_utf8(bytes: Vec<u8>) -> (r: Option<String>)
    ensures
        r matches Some(s) ==> valid_utf8(bytes@) && encode_utf8(s@) == bytes@,
        r is None ==> !valid_utf8(bytes@),
{
    match String::from_utf8(bytes) {
        Ok(s) => Some(s),
        Err(_) => None,
    }
}

/// The text without its newline characters (the store wraps the encoding
/// in lines).
pub open spec fn strip_newlines(s: Seq<char>) -> Seq<char>
    decreases s.len(),
{
    if s.len() == 0 {
        s
    } else if s.last() == '\n' {
        strip_newlines(s.drop_last())
    } else {
        strip_newlines(s.drop_last()).push(s.last())
    }
}

fn remove_newlines(s: &str) -> (r: String)
    ensures
        r@ == strip_newlines(s@),
{
    let n = s.unicode_len();
    let mut out = String::new();
    let mut i: usize = 0;
    proof {
        assert(s@.subrange(0, 0) =~= Seq::<char>::empty());
    }
    while i < n
        invariant
            i <= n,
            n == s@.len(),
            out@ == strip_newlines(s@.subrange(0, i as int)),
        decreases n - i,
    {
        proof {
            assert(s@.subrange(0, i as int + 1).drop_last() =~= s@.subrange(0, i as int));
            assert(s@.subrange(0, i as int + 1).last() == s@[i as int]);
        }
        let c = s.get_char(i);
        if c != '\n' {
            out.push(c);
        }
        i = i + 1;
    }
    proof {
        assert(s@.subrange(0, n as int) =~= s@);
    }
    out
}

/// Decode a store response's content field into the plain log text:
/// strip the line breaks, decode the base64, and read the bytes as UTF-8.
/// This succeeds exactly when the stripped text is base64 the engine
/// accepts and the decoded bytes are valid UTF-8 — in particular on every
/// well-formed store response — and then yields the text with those bytes.
pub fn decode_repo_content(encoded: &str) -> (r: Option<String>)
    ensures
        r is Some <==> (b64_decode_of(strip_newlines(encoded@)) is Some && valid_utf8(
            b64_decode_of(strip_newlines(encoded@))->0,
        )),
        r matches Some(s) ==> encode_utf8(s@) == b64_decode_of(strip_newlines(encoded@))->0,
{
    let stripped = remove_newlines(encoded);
    let bytes = match b64_decode(stripped.as_str()) {
        Some(b) => b,
        None => {
            return None;
        },
    };
    string_from_utf8(bytes)
}

/// Encode the plain log text as the store expects it.
pub fn encode_repo_content(content: &str) -> (r: String)
    ensures
        r@ == b64_encode_of(content.spec_bytes()),
{
    let bytes = content.as_bytes_vec();
    b64_encode(&bytes)
}

} // verus!
