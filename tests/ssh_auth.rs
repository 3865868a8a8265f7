use ssh_cert_user::ssh_auth::{parse_user_auth, Phase, State, Status};

fn split(content: &[u8]) -> Option<(Vec<u8>, Vec<u8>)> {
    parse_user_auth(content).map(|r| (content[r.key_type].to_vec(), content[r.key].to_vec()))
}

fn pair(t: &str, k: &str) -> Option<(Vec<u8>, Vec<u8>)> {
    Some((t.as_bytes().to_vec(), k.as_bytes().to_vec()))
}

#[test]
fn credential_line_is_split() {
    let line = b"publickey ssh-ed25519-cert-v01@openssh.com AAAAC3NzaC1lZDI1NTE5==\n";
    let r = parse_user_auth(line).unwrap();
    assert_eq!(r.key_type, 10..42);
    assert_eq!(r.key, 43..65);
    assert_eq!(split(line), pair("ssh-ed25519-cert-v01@openssh.com", "AAAAC3NzaC1lZDI1NTE5=="));
}

#[test]
fn other_lines_contribute_nothing() {
    assert_eq!(split(b"no-principal-required ssh-rsa AAAA\n"), None);
    let content = b"no-principal-required x AAAA\npublickey ssh-rsa-cert-v01@openssh.com QUJD\n";
    assert_eq!(split(content), pair("ssh-rsa-cert-v01@openssh.com", "QUJD"));
}

#[test]
fn first_matching_line_wins() {
    let content = b"publickey t1 QQ==\npublickey t2 Qg==\n";
    assert_eq!(split(content), pair("t1", "QQ=="));
}

#[test]
fn trailing_content_does_not_clear_a_match() {
    let content = b"publickey t1 QQ==\n!! not base64 !!\nmore\n";
    assert_eq!(split(content), pair("t1", "QQ=="));
    let content = b"publickey t1 QQ==\nxyz";
    assert_eq!(split(content), pair("t1", "QQ=="));
}

#[test]
fn blanks_may_be_tabs_and_repeated() {
    assert_eq!(split(b"publickey\t\t t  \tab+/09==\n"), pair("t", "ab+/09=="));
}

#[test]
fn malformed_lines_are_skipped() {
    // line without a newline at its end
    assert_eq!(split(b"publickey t QQ=="), None);
    // key holds a byte outside the alphabet
    assert_eq!(split(b"publickey t QQ-=\n"), None);
    // carriage return before the newline
    assert_eq!(split(b"publickey t QQ==\r\n"), None);
    // key does not start with a base64 byte
    assert_eq!(split(b"publickey t *QQ==\n"), None);
    // newline inside the key type or before the key
    assert_eq!(split(b"publickey t\n"), None);
    assert_eq!(split(b"publickey t \n"), None);
    assert_eq!(split(b"publickey\n"), None);
    // keyword not at the start of the line, or in another case
    assert_eq!(split(b" publickey t QQ==\n"), None);
    assert_eq!(split(b"PublicKey t QQ==\n"), None);
    assert_eq!(split(b"publickex t QQ==\n"), None);
    assert_eq!(split(b""), None);
}

#[test]
fn aborted_line_does_not_leak_into_the_next() {
    let content = b"publickey t\npublickey u QUJD\n";
    assert_eq!(split(content), pair("u", "QUJD"));
    let content = b"publickey t \nabc QUJD\n";
    assert_eq!(split(content), None);
    let content = b"publickey t QQ!=\npublickey v QUJD\n";
    assert_eq!(split(content), pair("v", "QUJD"));
}

#[test]
fn keyword_needs_no_blank_before_key_type() {
    assert_eq!(split(b"publickeyssh-rsa QUJD\n"), pair("ssh-rsa", "QUJD"));
}

#[test]
fn scanning_twice_gives_the_same_result() {
    let content = b"x\npublickey t QUJD\n";
    assert_eq!(split(content), split(content));
}

fn state(byte: u8) -> State {
    State {
        status: Status::Parsing,
        offset: 3,
        byte,
        key_type_start: Some(1),
        key_type_end: Some(2),
        key_start: None,
        key_end: None,
        phase: Phase::Keyword(0),
    }
}

#[test]
fn byte_classes() {
    for b in b"AZaz09+/=".iter() {
        assert!(state(*b).is_base64_value());
    }
    for b in b"-_ \n\t@[`{".iter() {
        assert!(!state(*b).is_base64_value());
    }
    assert!(state(b'\n').is_new_line());
    assert!(!state(b'\r').is_new_line());
    assert!(state(b' ').is_white_space());
    assert!(state(b'\t').is_white_space());
    assert!(!state(b'\n').is_white_space());
}

#[test]
fn captured_ranges_and_reset() {
    let mut s = state(0);
    assert_eq!(s.key_type(), Some(1..2));
    assert_eq!(s.key(), None);
    s.key_start = Some(4);
    s.key_end = Some(9);
    assert_eq!(s.key(), Some(4..9));
    s.reset_for_new_line();
    assert_eq!(s.key_type(), None);
    assert_eq!(s.key(), None);
    assert_eq!(s.offset, 3);
}

#[test]
fn step_follows_the_keyword() {
    let mut s = state(b'p');
    s.key_type_start = None;
    s.key_type_end = None;
    s.step();
    assert_eq!(s.phase, Phase::Keyword(1));
    s.byte = b'x';
    s.step();
    assert_eq!(s.phase, Phase::IgnoreToEol);
    s.byte = b'\n';
    s.step();
    assert_eq!(s.phase, Phase::Keyword(0));
}

#[test]
fn plain_line_shifts_the_result() {
    let content = b"publickey ssh-rsa-cert-v01@openssh.com QUJD\n".to_vec();
    let base = parse_user_auth(&content).unwrap();
    for line in [&b"x\n"[..], b"no-principal-required foo bar\n", b"\n", b"publickex t QUJD\n"] {
        let mut joined = line.to_vec();
        joined.extend_from_slice(&content);
        let r = parse_user_auth(&joined).unwrap();
        let n = line.len();
        assert_eq!(r.key_type, base.key_type.start + n..base.key_type.end + n);
        assert_eq!(r.key, base.key.start + n..base.key.end + n);
        let mut none = line.to_vec();
        none.extend_from_slice(b"nothing here\n");
        assert!(parse_user_auth(&none).is_none());
    }
}
