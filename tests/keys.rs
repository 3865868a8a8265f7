use ssh_cert_user::keys::{
    find_tagged_principal, find_user_name, is_supported_key_type, ReadError, KEY_TYPE_DSA,
    KEY_TYPE_ECDSA_P256, KEY_TYPE_ECDSA_P384, KEY_TYPE_ECDSA_P521, KEY_TYPE_ED25519,
    KEY_TYPE_RSA,
};

fn ssh_string(content: &[u8]) -> Vec<u8> {
    let mut out = (content.len() as u32).to_be_bytes().to_vec();
    out.extend_from_slice(content);
    out
}

fn principals_blob(entries: &[&[u8]]) -> Vec<u8> {
    let mut out = Vec::new();
    for e in entries {
        out.extend(ssh_string(e));
    }
    out
}

/// A certificate of `key_type` with `preamble` strings before the serial,
/// followed by serial, type, key id, the principals list and some trailing
/// fields. Returns the bytes and the end offset of the principals list.
fn certificate(key_type: &str, preamble: usize, entries: &[&[u8]]) -> (Vec<u8>, usize) {
    let mut out = ssh_string(key_type.as_bytes());
    for i in 0..preamble {
        out.extend(ssh_string(&vec![i as u8 + 1; 3 + i]));
    }
    out.extend_from_slice(&[0, 0, 0, 0, 0, 0, 0, 42]);
    out.extend_from_slice(&[0, 0, 0, 1]);
    out.extend(ssh_string(b"key-id"));
    out.extend(ssh_string(&principals_blob(entries)));
    let end = out.len();
    out.extend(ssh_string(b"")); // critical options
    out.extend(ssh_string(b"")); // extensions
    (out, end)
}

fn all_types() -> Vec<(&'static str, usize)> {
    vec![
        (KEY_TYPE_ED25519, 2),
        (KEY_TYPE_RSA, 3),
        (KEY_TYPE_ECDSA_P256, 3),
        (KEY_TYPE_ECDSA_P384, 3),
        (KEY_TYPE_ECDSA_P521, 3),
        (KEY_TYPE_DSA, 5),
    ]
}

#[test]
fn supported_key_types_are_accepted() {
    for (t, _) in all_types() {
        assert!(is_supported_key_type(t.as_bytes()));
    }
    assert!(is_supported_key_type(b"ssh-ed25519-cert-v01@openssh.com"));
}

#[test]
fn other_key_types_are_refused() {
    assert!(!is_supported_key_type(b""));
    assert!(!is_supported_key_type(b"ssh-ed25519"));
    assert!(!is_supported_key_type(b"ssh-ed25519-cert-v01@openssh.co"));
    assert!(!is_supported_key_type(b"ssh-ed25519-cert-v01@openssh.comx"));
    assert!(!is_supported_key_type(b"SSH-ED25519-CERT-V01@OPENSSH.COM"));
    assert!(!is_supported_key_type(b"ssh-rsa"));
    assert!(!is_supported_key_type(b"ecdsa-sha2-nistp512-cert-v01@openssh.com"));
}

#[test]
fn ed25519_certificate_yields_alice() {
    let (cert, _) = certificate(KEY_TYPE_ED25519, 2, &[b"gitolite:alice"]);
    assert_eq!(find_user_name(&cert), Ok(Some(String::from("alice"))));
}

#[test]
fn every_key_type_yields_its_user() {
    for (t, n) in all_types() {
        let (cert, _) = certificate(t, n, &[b"gitolite:dave"]);
        assert_eq!(find_user_name(&cert), Ok(Some(String::from("dave"))));
    }
}

#[test]
fn first_tagged_principal_wins() {
    let blob = principals_blob(&[b"other:bob", b"gitolite:carol"]);
    assert_eq!(find_tagged_principal(&blob), Ok(Some(String::from("carol"))));
    let blob = principals_blob(&[b"gitolite:erin", b"gitolite:frank"]);
    assert_eq!(find_tagged_principal(&blob), Ok(Some(String::from("erin"))));
    let (cert, _) = certificate(KEY_TYPE_RSA, 3, &[b"other:bob", b"gitolite:carol"]);
    assert_eq!(find_user_name(&cert), Ok(Some(String::from("carol"))));
}

#[test]
fn invalid_utf8_principal_is_skipped() {
    let bad: &[u8] = b"gitolite:\xff\xfe";
    let blob = principals_blob(&[bad, b"gitolite:grace"]);
    assert_eq!(find_tagged_principal(&blob), Ok(Some(String::from("grace"))));
    let blob = principals_blob(&[bad]);
    assert_eq!(find_tagged_principal(&blob), Ok(None));
}

#[test]
fn tag_is_case_sensitive_and_a_prefix() {
    let blob = principals_blob(&[b"Gitolite:heidi", b"x-gitolite:ivan", b"gitolite"]);
    assert_eq!(find_tagged_principal(&blob), Ok(None));
    let blob = principals_blob(&[b"gitolite:"]);
    assert_eq!(find_tagged_principal(&blob), Ok(Some(String::new())));
}

#[test]
fn no_principals_is_no_user() {
    assert_eq!(find_tagged_principal(&[]), Ok(None));
    let (cert, _) = certificate(KEY_TYPE_ED25519, 2, &[]);
    assert_eq!(find_user_name(&cert), Ok(None));
    let (cert, _) = certificate(KEY_TYPE_DSA, 5, &[b"other:judy"]);
    assert_eq!(find_user_name(&cert), Ok(None));
}

#[test]
fn overlong_principal_entry_is_underrun() {
    let mut blob = principals_blob(&[b"other:bob"]);
    blob.extend_from_slice(&[0, 0, 0, 20, b'g']);
    assert_eq!(find_tagged_principal(&blob), Err(ReadError::Underrun));
    let blob = vec![0u8, 0, 0];
    assert_eq!(find_tagged_principal(&blob), Err(ReadError::Underrun));
}

#[test]
fn entry_after_match_is_not_read() {
    let mut blob = principals_blob(&[b"gitolite:kim"]);
    blob.extend_from_slice(&[0, 0, 0, 20]);
    assert_eq!(find_tagged_principal(&blob), Ok(Some(String::from("kim"))));
}

#[test]
fn unsupported_key_type_is_refused() {
    let (cert, _) = certificate("ssh-ed25519", 2, &[b"gitolite:alice"]);
    assert_eq!(find_user_name(&cert), Err(ReadError::UnsupportedKeyType));
}

#[test]
fn truncated_certificates_underrun_for_every_key_type() {
    for (t, n) in all_types() {
        let (cert, end) = certificate(t, n, &[b"gitolite:alice"]);
        for cut in 0..end {
            assert_eq!(find_user_name(&cert[..cut]), Err(ReadError::Underrun), "{} {}", t, cut);
        }
        assert_eq!(find_user_name(&cert[..end]), Ok(Some(String::from("alice"))));
    }
}

#[test]
fn declared_length_past_end_underruns() {
    let (mut cert, _) = certificate(KEY_TYPE_ED25519, 2, &[b"gitolite:alice"]);
    // the nonce follows the key type string
    let nonce = 4 + KEY_TYPE_ED25519.len();
    cert[nonce..nonce + 4].copy_from_slice(&[0xff, 0xff, 0xff, 0xff]);
    assert_eq!(find_user_name(&cert), Err(ReadError::Underrun));
    assert_eq!(find_user_name(&[0, 0, 0, 9, b's']), Err(ReadError::Underrun));
    assert_eq!(find_user_name(&[]), Err(ReadError::Underrun));
}

#[test]
fn reading_twice_gives_the_same_result() {
    let (cert, _) = certificate(KEY_TYPE_ECDSA_P384, 3, &[b"gitolite:lee"]);
    assert_eq!(find_user_name(&cert), find_user_name(&cert));
}

#[test]
fn enlarged_field_length_underruns_for_every_key_type() {
    for (t, n) in all_types() {
        let (cert, _) = certificate(t, n, &[b"gitolite:alice"]);
        let len_at = |c: &[u8], p: usize| u32::from_be_bytes([c[p], c[p + 1], c[p + 2], c[p + 3]]) as usize;
        let mut fields = Vec::new();
        let mut p = 4 + t.len();
        for _ in 0..n {
            fields.push(p);
            p += 4 + len_at(&cert, p);
        }
        p += 12;
        fields.push(p);
        p += 4 + len_at(&cert, p);
        fields.push(p);
        for f in fields {
            let mut bad = cert.clone();
            let declared = (cert.len() - f - 4 + 1) as u32;
            bad[f..f + 4].copy_from_slice(&declared.to_be_bytes());
            assert_eq!(find_user_name(&bad), Err(ReadError::Underrun), "{} {}", t, f);
        }
        let mut bad = cert.clone();
        bad[0..4].copy_from_slice(&((cert.len() - 3) as u32).to_be_bytes());
        assert_eq!(find_user_name(&bad), Err(ReadError::Underrun));
    }
}
