//! From the authentication record to the user name: scan for the credential
//! line, check its key type, decode its key, and read the certificate.

use crate::keys::{find_user_name, is_supported_key_type, supported_key_type, user_name_of};
use crate::ssh_auth::{
    lemma_scan_ignores_trailing, lemma_scan_ranges_inside, parse_user_auth, scan_ranges,
};
use vstd::prelude::*;
use vstd::slice::slice_subrange;

verus! {

/// base64's decoding error, carried through unread.
#[verifier::external_type_specification]
#[verifier::external_body]
pub struct ExDecodeError(base64::DecodeError);

/// The bytes that standard base64 with padding decodes `s` to, if `s` is
/// well-formed.
pub uninterp spec fn base64_decoded(s: Seq<u8>) -> Option<Seq<u8>>;

/// Relies on `base64::Engine::decode` with the `STANDARD` engine (standard
/// alphabet, padding required): an error or the decoded bytes, as a function
/// of the input bytes alone.
#[verifier::external_body]
fn decode_base64(input: &[u8]) -> (r: Result<Vec<u8>, base64::DecodeError>)
    ensures
        match r {
            Ok(v) => base64_decoded(input@) == Some(v@),
            Err(_) => base64_decoded(input@) is None,
        },
{
    base64::Engine::decode(&base64::engine::general_purpose::STANDARD, input)
}

/// The user name that the authentication record `c` yields: `None` where no
/// credential line is found, its key type is not supported, its key is not
/// valid base64, or the certificate cannot be read or names no user.
pub open spec fn user_name_from_record(c: Seq<u8>) -> Option<Seq<char>> {
    match scan_ranges(c) {
        None => None,
        Some((a, b, k, d)) => if !supported_key_type(c.subrange(a as int, b as int)) {
            None
        } else {
            match base64_decoded(c.subrange(k as int, d as int)) {
                None => None,
                Some(key) => match user_name_of(key) {
                    Ok(Some(u)) => Some(u),
                    _ => None,
                },
            }
        },
    }
}

/// The user name that the authentication record `content` asserts through
/// the certificate on its first credential line. Every failure on the way
/// gives `None`.
pub fn username(content: &[u8]) -> (r: Option<String>)
    ensures
        match r {
            Some(s) => user_name_from_record(content@) == Some(s@),
            None => user_name_from_record(content@) is None,
        },
{
    let result = match parse_user_auth(content) {
        Some(result) => result,
        None => return None,
    };
    let key_type = slice_subrange(content, result.key_type.start, result.key_type.end);
    if !is_supported_key_type(key_type) {
        return None;
    }
    let encoded = slice_subrange(content, result.key.start, result.key.end);
    let key = match decode_base64(encoded) {
        Ok(key) => key,
        Err(_) => return None,
    };
    match find_user_name(key.as_slice()) {
        Ok(name) => name,
        Err(_) => None,
    }
}

/// Scanning and reading are functions of the content alone: equal contents
/// give equal ranges, equal certificates and equal user names, however often
/// they are computed.
pub proof fn lemma_lookup_deterministic(c1: Seq<u8>, c2: Seq<u8>)
    requires
        c1 == c2,
    ensures
        scan_ranges(c1) == scan_ranges(c2),
        user_name_of(c1) == user_name_of(c2),
        user_name_from_record(c1) == user_name_from_record(c2),
{
}

/// The first credential line decides: bytes appended after a record in
/// which one was found do not change the user name it yields.
pub proof fn lemma_lookup_ignores_trailing(c: Seq<u8>, extra: Seq<u8>)
    requires
        c.len() <= usize::MAX,
        scan_ranges(c) is Some,
    ensures
        user_name_from_record(c + extra) == user_name_from_record(c),
{
    lemma_scan_ignores_trailing(c, extra);
    lemma_scan_ranges_inside(c);
    let (a, b, k, d) = scan_ranges(c).unwrap();
    assert((c + extra).subrange(a as int, b as int) =~= c.subrange(a as int, b as int));
    assert((c + extra).subrange(k as int, d as int) =~= c.subrange(k as int, d as int));
}

} // verus!
