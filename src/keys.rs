//! SSH certificate navigation: from a decoded certificate to its principals,
//! and from the principals to the tagged user name.

use crate::wire::{
    get_string, lemma_skip_strings_prefix, lemma_string_at_prefix, lemma_string_range_at_prefix,
    length_at, skip_string, skip_strings, slice_range, string_at, string_range_at,
};
use vstd::prelude::*;
use vstd::slice::{slice_subrange, slice_to_vec};
use vstd::string::*;
use vstd::utf8::{decode_utf8, valid_utf8};

verus! {

/// Why a certificate could not be read.
#[derive(Clone, Copy, Debug, PartialEq, Eq, Structural)]
pub enum ReadError {
    UnsupportedKeyType,
    Underrun,
}

pub const KEY_TYPE_DSA: &'static str = "ssh-dss-cert-v01@openssh.com";

pub const KEY_TYPE_ECDSA_P256: &'static str = "ecdsa-sha2-nistp256-cert-v01@openssh.com";

pub const KEY_TYPE_ECDSA_P384: &'static str = "ecdsa-sha2-nistp384-cert-v01@openssh.com";

pub const KEY_TYPE_ECDSA_P521: &'static str = "ecdsa-sha2-nistp521-cert-v01@openssh.com";

pub const KEY_TYPE_ED25519: &'static str = "ssh-ed25519-cert-v01@openssh.com";

pub const KEY_TYPE_RSA: &'static str = "ssh-rsa-cert-v01@openssh.com";

/// The tag that marks the principal carrying the user name.
pub const PRINCIPAL_PREFIX: &'static str = "gitolite:";

/// One of the three ECDSA certificate key types.
pub open spec fn is_ecdsa_key_type(kt: Seq<u8>) -> bool {
    kt == KEY_TYPE_ECDSA_P256.spec_bytes() || kt == KEY_TYPE_ECDSA_P384.spec_bytes() || kt
        == KEY_TYPE_ECDSA_P521.spec_bytes()
}

/// One of the six certificate key types, compared byte for byte.
pub open spec fn supported_key_type(kt: Seq<u8>) -> bool {
    kt == KEY_TYPE_ED25519.spec_bytes() || kt == KEY_TYPE_RSA.spec_bytes() || is_ecdsa_key_type(kt)
        || kt == KEY_TYPE_DSA.spec_bytes()
}

/// How many SSH strings a certificate of key type `kt` holds between its key
/// type and its serial number: the nonce, then the public key's fields.
pub open spec fn preamble_strings(kt: Seq<u8>) -> nat {
    if kt == KEY_TYPE_ED25519.spec_bytes() {
        2
    } else if kt == KEY_TYPE_RSA.spec_bytes() {
        3
    } else if is_ecdsa_key_type(kt) {
        3
    } else {
        5
    }
}

/// The content range of the principals list, for a certificate whose fields
/// after the key type start at `off` with `k` preamble strings: those strings,
/// then 8 bytes of serial and 4 of certificate type, then the key id. Each
/// field is skipped by its declared length; the end of the range is not held
/// against the end of `d`.
pub open spec fn principals_at(d: Seq<u8>, off: int, k: nat) -> Option<(int, int)> {
    match skip_strings(d, off, k) {
        Some(o) => match skip_strings(d, o + 12, 1) {
            Some(o2) => string_range_at(d, o2),
            None => None,
        },
        None => None,
    }
}

/// The user name that a principal entry carries: what follows the tag,
/// when the entry starts with the tag and the rest is valid UTF-8.
pub open spec fn tagged_user(entry: Seq<u8>) -> Option<Seq<char>> {
    let tag = PRINCIPAL_PREFIX.spec_bytes();
    if entry.len() >= tag.len() && entry.take(tag.len() as int) == tag && valid_utf8(
        entry.skip(tag.len() as int),
    ) {
        Some(decode_utf8(entry.skip(tag.len() as int)))
    } else {
        None
    }
}

/// The first user name among the principal entries of `p` from offset `i`;
/// `Underrun` where an entry before it runs past the end of `p`.
pub open spec fn first_tagged_user(p: Seq<u8>, i: int) -> Result<Option<Seq<char>>, ReadError>
    decreases p.len() - i,
{
    if 0 <= i < p.len() {
        match length_at(p, i) {
            Some(n) => if i + 4 + n <= p.len() {
                match tagged_user(p.subrange(i + 4, i + 4 + n)) {
                    Some(u) => Ok(Some(u)),
                    None => first_tagged_user(p, i + 4 + n),
                }
            } else {
                Err(ReadError::Underrun)
            },
            None => Err(ReadError::Underrun),
        }
    } else {
        Ok(None)
    }
}

/// The user name that the decoded certificate `key` asserts.
pub open spec fn user_name_of(key: Seq<u8>) -> Result<Option<Seq<char>>, ReadError> {
    match string_at(key, 0) {
        None => Err(ReadError::Underrun),
        Some((s, e)) => {
            let kt = key.subrange(s, e);
            if !supported_key_type(kt) {
                Err(ReadError::UnsupportedKeyType)
            } else {
                match principals_at(key, e, preamble_strings(kt)) {
                    None => Err(ReadError::Underrun),
                    Some((ps, pe)) => if pe <= key.len() {
                        first_tagged_user(key.subrange(ps, pe), 0)
                    } else {
                        Err(ReadError::Underrun)
                    },
                }
            }
        },
    }
}

/// The characters of a looked-up user name, with the error kept.
pub open spec fn user_view(r: Result<Option<String>, ReadError>) -> Result<
    Option<Seq<char>>,
    ReadError,
> {
    match r {
        Ok(Some(s)) => Ok(Some(s@)),
        Ok(None) => Ok(None),
        Err(e) => Err(e),
    }
}

/// Byte-for-byte equality of two slices.
fn bytes_equal(a: &[u8], b: &[u8]) -> (r: bool)
    ensures
        r == (a@ == b@),
{
    if a.len() != b.len() {
        return false;
    }
    let mut i: usize = 0;
    while i < a.len()
        invariant
            a@.len() == b@.len(),
            i <= a@.len(),
            forall|j: int| 0 <= j < i ==> a@[j] == b@[j],
        decreases a@.len() - i,
    {
        if a[i] != b[i] {
            return false;
        }
        i = i + 1;
    }
    assert(a@ =~= b@);
    true
}

/// Whether `value` names one of the six supported certificate key types.
pub fn is_supported_key_type(value: &[u8]) -> (r: bool)
    ensures
        r == supported_key_type(value@),
{
    bytes_equal(KEY_TYPE_ED25519.as_bytes(), value) || bytes_equal(KEY_TYPE_RSA.as_bytes(), value)
        || bytes_equal(KEY_TYPE_ECDSA_P256.as_bytes(), value) || bytes_equal(
        KEY_TYPE_ECDSA_P384.as_bytes(),
        value,
    ) || bytes_equal(KEY_TYPE_ECDSA_P521.as_bytes(), value) || bytes_equal(
        KEY_TYPE_DSA.as_bytes(),
        value,
    )
}

/// Relies on `String::from_utf8`: it succeeds exactly on valid UTF-8, and the
/// string then holds the characters that the bytes encode.
#[verifier::external_body]
fn utf8_string(bytes: Vec<u8>) -> (r: Option<String>)
    ensures
        r is Some <==> valid_utf8(bytes@),
        r matches Some(s) ==> s@ == decode_utf8(bytes@),
{
    match String::from_utf8(bytes) {
        Ok(s) => Some(s),
        Err(_) => None,
    }
}

/// Skips the 8-byte serial number and the 4-byte certificate type.
/// An offset past the largest `usize` lies past any buffer: `Underrun`.
fn skip_serial_and_type(data: &[u8], offset: usize) -> (r: Result<usize, ReadError>)
    ensures
        match r {
            Ok(next) => next == offset + 12,
            Err(e) => e == ReadError::Underrun && offset + 12 > data@.len(),
        },
{
    let total = data.len();
    if offset <= usize::MAX - 12 {
        Ok(offset + 12)
    } else {
        Err(ReadError::Underrun)
    }
}

/// From the offset just past the preamble strings: skips serial, type and key
/// id, and returns the range of the principals list.
fn principals_after_preamble(data: &[u8], offset: usize) -> (r: Result<core::ops::Range<usize>, ReadError>)
    ensures
        match r {
            Ok(range) => principals_at(data@, offset as int, 0) == Some(
                (range.start as int, range.end as int),
            ),
            Err(e) => e == ReadError::Underrun && principals_at(data@, offset as int, 0) is None,
        },
{
    proof {
        reveal_with_fuel(skip_strings, 2);
    }
    let offset = match skip_serial_and_type(data, offset) {
        Ok(o) => o,
        Err(e) => {
            assert(string_range_at(data@, offset + 12) is None);
            return Err(e);
        },
    };
    let offset = skip_string(data, offset)?;
    get_string(data, offset)
}

/// Principals of a DSA certificate: nonce, p, q, g and y precede the serial.
fn find_principals_dsa(data: &[u8], offset: usize) -> (r: Result<core::ops::Range<usize>, ReadError>)
    ensures
        match r {
            Ok(range) => principals_at(data@, offset as int, 5) == Some(
                (range.start as int, range.end as int),
            ),
            Err(e) => e == ReadError::Underrun && principals_at(data@, offset as int, 5) is None,
        },
{
    proof {
        reveal_with_fuel(skip_strings, 6);
    }
    // string nonce
    let offset = skip_string(data, offset)?;
    // mpint p
    let offset = skip_string(data, offset)?;
    // mpint q
    let offset = skip_string(data, offset)?;
    // mpint g
    let offset = skip_string(data, offset)?;
    // mpint y
    let offset = skip_string(data, offset)?;
    principals_after_preamble(data, offset)
}

/// Principals of an ECDSA certificate: nonce, curve name and public point
/// precede the serial.
fn find_principals_ecdsa(data: &[u8], offset: usize) -> (r: Result<core::ops::Range<usize>, ReadError>)
    ensures
        match r {
            Ok(range) => principals_at(data@, offset as int, 3) == Some(
                (range.start as int, range.end as int),
            ),
            Err(e) => e == ReadError::Underrun && principals_at(data@, offset as int, 3) is None,
        },
{
    proof {
        reveal_with_fuel(skip_strings, 4);
    }
    // string nonce
    let offset = skip_string(data, offset)?;
    // string curve
    let offset = skip_string(data, offset)?;
    // string public_key
    let offset = skip_string(data, offset)?;
    principals_after_preamble(data, offset)
}

/// Principals of an Ed25519 certificate: nonce and public key precede the
/// serial.
fn find_principals_ed25519(data: &[u8], offset: usize) -> (r: Result<core::ops::Range<usize>, ReadError>)
    ensures
        match r {
            Ok(range) => principals_at(data@, offset as int, 2) == Some(
                (range.start as int, range.end as int),
            ),
            Err(e) => e == ReadError::Underrun && principals_at(data@, offset as int, 2) is None,
        },
{
    proof {
        reveal_with_fuel(skip_strings, 3);
    }
    // string nonce
    let offset = skip_string(data, offset)?;
    // string pk
    let offset = skip_string(data, offset)?;
    principals_after_preamble(data, offset)
}

/// Principals of an RSA certificate: nonce, e and n precede the serial.
fn find_principals_rsa(data: &[u8], offset: usize) -> (r: Result<core::ops::Range<usize>, ReadError>)
    ensures
        match r {
            Ok(range) => principals_at(data@, offset as int, 3) == Some(
                (range.start as int, range.end as int),
            ),
            Err(e) => e == ReadError::Underrun && principals_at(data@, offset as int, 3) is None,
        },
{
    proof {
        reveal_with_fuel(skip_strings, 4);
    }
    // string nonce
    let offset = skip_string(data, offset)?;
    // mpint e
    let offset = skip_string(data, offset)?;
    // mpint n
    let offset = skip_string(data, offset)?;
    principals_after_preamble(data, offset)
}

/// The user name of the first tagged entry of the principals list
/// `principals` whose name is valid UTF-8. Entries without the tag, or whose
/// name is not valid UTF-8, are passed over; an entry that runs past the end
/// of the list is an `Underrun`.
pub fn find_tagged_principal(principals: &[u8]) -> (r: Result<Option<String>, ReadError>)
    ensures
        user_view(r) == first_tagged_user(principals@, 0),
{
    let tag = PRINCIPAL_PREFIX.as_bytes();
    let end = principals.len();
    let mut i: usize = 0;
    while i < end
        invariant
            end == principals@.len(),
            i <= end,
            tag@ == PRINCIPAL_PREFIX.spec_bytes(),
            first_tagged_user(principals@, 0) == first_tagged_user(principals@, i as int),
        decreases end - i,
    {
        let range = get_string(principals, i)?;
        let entry = slice_range(principals, &range)?;
        i = range.end;
        if tag.len() <= entry.len() && bytes_equal(slice_subrange(entry, 0, tag.len()), tag) {
            let rest = slice_subrange(entry, tag.len(), entry.len());
            assert(entry@.take(tag@.len() as int) == entry@.subrange(0, tag@.len() as int));
            assert(rest@ == entry@.skip(tag@.len() as int));
            let name = utf8_string(slice_to_vec(rest));
            if name.is_some() {
                return Ok(name);
            }
        }
    }
    Ok(None)
}

/// The user name that the decoded certificate `key` asserts: the key type
/// selects the layout, which leads to the principals list, whose first
/// tagged entry with a valid UTF-8 name gives the name. `Ok(None)` where no
/// entry does; `UnsupportedKeyType` for any other key type; `Underrun` where
/// a length-prefixed field on the way runs past the end of its buffer.
pub fn find_user_name(key: &[u8]) -> (r: Result<Option<String>, ReadError>)
    ensures
        user_view(r) == user_name_of(key@),
{
    let key_type_range = get_string(key, 0)?;
    let key_type = slice_range(key, &key_type_range)?;
    let offset = key_type_range.end;
    let principals_range = if bytes_equal(KEY_TYPE_ED25519.as_bytes(), key_type) {
        find_principals_ed25519(key, offset)
    } else if bytes_equal(KEY_TYPE_RSA.as_bytes(), key_type) {
        find_principals_rsa(key, offset)
    } else if bytes_equal(KEY_TYPE_ECDSA_P256.as_bytes(), key_type) || bytes_equal(
        KEY_TYPE_ECDSA_P384.as_bytes(),
        key_type,
    ) || bytes_equal(KEY_TYPE_ECDSA_P521.as_bytes(), key_type) {
        find_principals_ecdsa(key, offset)
    } else if bytes_equal(KEY_TYPE_DSA.as_bytes(), key_type) {
        find_principals_dsa(key, offset)
    } else {
        return Err(ReadError::UnsupportedKeyType);
    }?;
    let principals = slice_range(key, &principals_range)?;
    find_tagged_principal(principals)
}

/// The content range of the principals list of the certificate `key`, where
/// its key type is whole and supported and every length prefix up to that
/// list can be read.
pub open spec fn principals_of(key: Seq<u8>) -> Option<(int, int)> {
    match string_at(key, 0) {
        Some((s, e)) => if supported_key_type(key.subrange(s, e)) {
            principals_at(key, e, preamble_strings(key.subrange(s, e)))
        } else {
            None
        },
        None => None,
    }
}

proof fn lemma_principals_at_prefix(d: Seq<u8>, n: int, off: int, k: nat)
    requires
        0 <= n <= d.len(),
        principals_at(d.take(n), off, k) is Some,
    ensures
        principals_at(d, off, k) == principals_at(d.take(n), off, k),
{
    let t = d.take(n);
    lemma_skip_strings_prefix(d, n, off, k);
    let o = skip_strings(t, off, k).unwrap();
    lemma_skip_strings_prefix(d, n, o + 12, 1);
    let o2 = skip_strings(t, o + 12, 1).unwrap();
    lemma_string_range_at_prefix(d, n, o2);
}

/// Cutting a certificate short anywhere before the end of its principals
/// list leaves a field whose declared length runs past the end: whatever the
/// key type, reading it fails with `Underrun`.
pub proof fn lemma_truncated_certificate(key: Seq<u8>, n: int)
    requires
        principals_of(key) is Some,
        0 <= n <= key.len(),
        n < principals_of(key).unwrap().1,
    ensures
        user_name_of(key.take(n)) == Err::<Option<Seq<char>>, ReadError>(ReadError::Underrun),
{
    let t = key.take(n);
    let (s, e) = string_at(key, 0).unwrap();
    let kt = key.subrange(s, e);
    if string_at(t, 0) is Some {
        lemma_string_at_prefix(key, n, 0);
        assert(t.subrange(s, e) =~= kt);
        if principals_at(t, e, preamble_strings(kt)) is Some {
            lemma_principals_at_prefix(key, n, e, preamble_strings(kt));
        }
    }
}

/// The offset of the length prefix of field `j` of a certificate whose
/// fields after the key type start at `off`, with `k` preamble strings:
/// fields `0..k` are the preamble strings, field `k` the key id (after the
/// serial and type), field `k + 1` the principals list.
pub open spec fn field_offset(d: Seq<u8>, off: int, k: nat, j: nat) -> Option<int> {
    if j < k {
        skip_strings(d, off, j)
    } else {
        match skip_strings(d, off, k) {
            Some(o) => if j == k {
                Some(o + 12)
            } else if j == k + 1 {
                skip_strings(d, o + 12, 1)
            } else {
                None
            },
            None => None,
        }
    }
}

proof fn lemma_skip_strings_split(d: Seq<u8>, off: int, a: nat, b: nat)
    ensures
        skip_strings(d, off, a + b) == match skip_strings(d, off, a) {
            Some(o) => skip_strings(d, o, b),
            None => None,
        },
    decreases a,
{
    if a > 0 {
        match string_range_at(d, off) {
            Some((_, end)) => {
                lemma_skip_strings_split(d, end, (a - 1) as nat, b);
                assert((a + b - 1) as nat == ((a - 1) as nat + b) as nat);
            },
            None => {},
        }
    }
}

/// A field of a certificate whose declared length runs past the end of the
/// certificate makes it unreadable: whatever the key type and whichever
/// field on the way to the principals list (a preamble string, the key id or
/// the principals list itself), reading it fails with `Underrun`.
pub proof fn lemma_overlong_field(key: Seq<u8>, j: nat)
    requires
        string_at(key, 0) is Some,
        supported_key_type(key.subrange(string_at(key, 0).unwrap().0, string_at(key, 0).unwrap().1)),
        j <= preamble_strings(
            key.subrange(string_at(key, 0).unwrap().0, string_at(key, 0).unwrap().1),
        ) + 1,
        field_offset(
            key,
            string_at(key, 0).unwrap().1,
            preamble_strings(
                key.subrange(string_at(key, 0).unwrap().0, string_at(key, 0).unwrap().1),
            ),
            j,
        ) matches Some(o) && length_at(key, o) matches Some(m) && o + 4 + m > key.len(),
    ensures
        user_name_of(key) == Err::<Option<Seq<char>>, ReadError>(ReadError::Underrun),
{
    let (s, e) = string_at(key, 0).unwrap();
    let kt = key.subrange(s, e);
    let k = preamble_strings(kt);
    let o = field_offset(key, e, k, j).unwrap();
    if j < k {
        let rest = (k - j) as nat;
        lemma_skip_strings_split(key, e, j, rest);
        assert((j + rest) as nat == k);
        if string_range_at(key, o) is Some {
            let o2 = string_range_at(key, o).unwrap().1;
            assert(o2 > key.len());
            if rest == 1 {
                assert(skip_strings(key, o2, 0) == Some(o2));
                assert(skip_strings(key, e, k) == Some(o2));
                assert(string_range_at(key, o2 + 12) is None);
            } else {
                assert(string_range_at(key, o2) is None);
                assert(skip_strings(key, o2, (rest - 1) as nat) is None);
            }
        }
    } else if j == k {
        if string_range_at(key, o) is Some {
            let o2 = string_range_at(key, o).unwrap().1;
            assert(skip_strings(key, o2, 0) == Some(o2));
            assert(skip_strings(key, o, 1) == Some(o2));
            assert(string_range_at(key, o2) is None);
        }
    } else {
        let o1 = skip_strings(key, e, k).unwrap();
        let o2 = skip_strings(key, o1 + 12, 1).unwrap();
        assert(o2 == o);
    }
}

} // verus!
