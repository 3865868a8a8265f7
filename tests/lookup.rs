use base64::Engine;
use ssh_cert_user::keys::{KEY_TYPE_ED25519, KEY_TYPE_RSA};
use ssh_cert_user::lookup::username;

fn ssh_string(content: &[u8]) -> Vec<u8> {
    let mut out = (content.len() as u32).to_be_bytes().to_vec();
    out.extend_from_slice(content);
    out
}

fn certificate(key_type: &str, preamble: usize, entries: &[&[u8]]) -> Vec<u8> {
    let mut out = ssh_string(key_type.as_bytes());
    for i in 0..preamble {
        out.extend(ssh_string(&vec![7u8; 5 + i]));
    }
    out.extend_from_slice(&[0u8; 12]);
    out.extend(ssh_string(b"id"));
    let mut blob = Vec::new();
    for e in entries {
        blob.extend(ssh_string(e));
    }
    out.extend(ssh_string(&blob));
    out
}

fn record(key_type: &str, cert: &[u8]) -> Vec<u8> {
    let encoded = base64::engine::general_purpose::STANDARD.encode(cert);
    format!("publickey {} {}\n", key_type, encoded).into_bytes()
}

#[test]
fn record_yields_user_name() {
    let cert = certificate(KEY_TYPE_ED25519, 2, &[b"gitolite:alice"]);
    let content = record(KEY_TYPE_ED25519, &cert);
    assert_eq!(username(&content), Some(String::from("alice")));
    let mut content2 = b"no-principal-required foo\n".to_vec();
    content2.extend(record(KEY_TYPE_RSA, &certificate(KEY_TYPE_RSA, 3, &[b"gitolite:bob"])));
    assert_eq!(username(&content2), Some(String::from("bob")));
}

#[test]
fn unsupported_line_key_type_yields_none() {
    let cert = certificate(KEY_TYPE_ED25519, 2, &[b"gitolite:alice"]);
    assert_eq!(username(&record("ssh-ed25519", &cert)), None);
}

#[test]
fn invalid_base64_yields_none() {
    let content = format!("publickey {} QQ\n", KEY_TYPE_ED25519).into_bytes();
    assert_eq!(username(&content), None);
    let content = format!("publickey {} Q=Q=\n", KEY_TYPE_ED25519).into_bytes();
    assert_eq!(username(&content), None);
}

#[test]
fn unreadable_certificate_yields_none() {
    let cert = certificate(KEY_TYPE_ED25519, 2, &[b"gitolite:alice"]);
    assert_eq!(username(&record(KEY_TYPE_ED25519, &cert[..cert.len() - 1])), None);
    let cert = certificate(KEY_TYPE_ED25519, 2, &[b"other:alice"]);
    assert_eq!(username(&record(KEY_TYPE_ED25519, &cert)), None);
    assert_eq!(username(b""), None);
}

#[test]
fn trailing_content_keeps_the_user() {
    let cert = certificate(KEY_TYPE_ED25519, 2, &[b"gitolite:alice"]);
    let mut content = record(KEY_TYPE_ED25519, &cert);
    content.extend_from_slice(b"publickey other junk!\n");
    assert_eq!(username(&content), Some(String::from("alice")));
    assert_eq!(username(&content), username(&content));
}
