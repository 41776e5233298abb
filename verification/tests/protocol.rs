//! Signing, verifying and reading messages.

use chrono::{DateTime, Utc};
use lfsync_core::protocol::{
    ChangeKind, ChangeMessage, ReadError, SharedSecret, SignedEnvelope, DEFAULT_PORT,
};
use lfsync_core::timestamp::Timestamp;
use serde_json::Value;

fn text(value: &Value, name: &str) -> Result<String, String> {
    match value.get(name) {
        Some(Value::String(text)) => Ok(text.clone()),
        _ => Err(format!("no {name}")),
    }
}

fn parse_envelope(line: &str) -> Result<SignedEnvelope, String> {
    let value: Value = serde_json::from_str(line).map_err(|err| err.to_string())?;
    Ok(SignedEnvelope { payload: text(&value, "payload")?, mac: text(&value, "mac")? })
}

fn parse_message(payload: &str) -> Result<ChangeMessage, String> {
    let value: Value = serde_json::from_str(payload).map_err(|err| err.to_string())?;
    let kind = match text(&value, "kind")?.as_str() {
        "created" => ChangeKind::Created,
        "modified" => ChangeKind::Modified,
        "removed" => ChangeKind::Removed,
        "renamed" => ChangeKind::Renamed,
        other => return Err(format!("no kind {other}")),
    };
    let time: DateTime<Utc> = DateTime::parse_from_rfc3339(&text(&value, "timestamp")?)
        .map_err(|err| err.to_string())?
        .into();
    Ok(ChangeMessage {
        peer_id: text(&value, "peer_id")?,
        hostname: text(&value, "hostname")?,
        path: text(&value, "path")?,
        kind,
        timestamp: Timestamp::new(time.timestamp(), time.timestamp_subsec_nanos()).unwrap(),
    })
}

fn read(line: &str, secret: &SharedSecret) -> Result<ChangeMessage, ReadError<String>> {
    ChangeMessage::verify_and_parse(line, secret, parse_envelope, parse_message)
}

fn now() -> Timestamp {
    let now = Utc::now();
    Timestamp::new(now.timestamp(), now.timestamp_subsec_nanos()).unwrap()
}

fn sample() -> ChangeMessage {
    ChangeMessage {
        peer_id: "peer-1".into(),
        hostname: "desktop-a".into(),
        path: "docs/report.docx".into(),
        kind: ChangeKind::Modified,
        timestamp: now(),
    }
}

fn dated() -> ChangeMessage {
    let mut message = sample();
    message.timestamp = Timestamp::new(1_709_210_096, 789_000_000).unwrap();
    message
}

#[test]
fn round_trips_with_matching_secret() {
    let secret = SharedSecret::new("correct horse battery staple");
    let msg = sample();

    let line = msg.sign(&secret);
    assert!(line.ends_with('\n'));
    assert_eq!(line.matches('\n').count(), 1);

    let parsed = read(&line, &secret).unwrap();
    assert_eq!(parsed, msg);
}

#[test]
fn rejects_mismatched_secret() {
    let msg = sample();
    let line = msg.sign(&SharedSecret::new("secret-a"));

    let err = read(&line, &SharedSecret::new("secret-b")).expect_err("wrong secret must not verify");
    assert_eq!(err, ReadError::SignatureMismatch);
}

#[test]
fn rejects_tampered_payload() {
    let secret = SharedSecret::new("correct horse battery staple");
    let line = sample().sign(&secret);

    let tampered = line.replace("desktop-a", "desktop-evil");
    assert_ne!(tampered, line);

    let err = read(&tampered, &secret).expect_err("tampered payload must not verify");
    assert_eq!(err, ReadError::SignatureMismatch);
}

#[test]
fn a_tag_is_the_hmac_in_hexadecimal_digits() {
    let secret = SharedSecret::new("key");
    let payload = "The quick brown fox jumps over the lazy dog";
    let mac = "f7bc83f430538424b13298e6aa6fb143ef4d59a14946175997479dbc2d1a3cd8";
    assert_eq!(secret.mac_hex(payload), mac);
    assert!(secret.verify(payload, mac));
    assert!(secret.verify(payload, &mac.to_uppercase()));
    assert!(!secret.verify("The quick brown fox jumps over the lazy cat", mac));
    assert!(!SharedSecret::new("other").verify(payload, mac));
    assert!(!secret.verify(payload, &mac[..62]));
    assert!(!secret.verify(payload, &mac[..63]));
    assert!(!secret.verify(payload, "not hexadecimal"));
    assert!(!secret.verify(payload, ""));
}

#[test]
fn a_secret_may_be_empty_or_long() {
    for secret in [String::new(), "long".repeat(100), "鍵".to_string()] {
        let secret = SharedSecret::new(&secret);
        assert_eq!(read(&dated().sign(&secret), &secret), Ok(dated()));
    }
}

#[test]
fn a_message_is_written_as_one_object() {
    assert_eq!(
        dated().to_json(),
        "{\"peer_id\":\"peer-1\",\"hostname\":\"desktop-a\",\"path\":\"docs/report.docx\",\
         \"kind\":\"modified\",\"timestamp\":\"2024-02-29T12:34:56.789Z\"}"
    );
}

#[test]
fn a_signed_line_holds_the_payload_as_text() {
    assert_eq!(
        dated().sign(&SharedSecret::new("secret-a")),
        "{\"payload\":\"{\\\"peer_id\\\":\\\"peer-1\\\",\\\"hostname\\\":\\\"desktop-a\\\",\
         \\\"path\\\":\\\"docs/report.docx\\\",\\\"kind\\\":\\\"modified\\\",\
         \\\"timestamp\\\":\\\"2024-02-29T12:34:56.789Z\\\"}\",\
         \"mac\":\"4402dc84d6a23d272a0ac2cbbfe730eff7f687898d897e87c0930df2441e090f\"}\n"
    );
}

#[test]
fn any_text_survives_the_wire() {
    let secret = SharedSecret::new("secret-a");
    let mut message = dated();
    message.path = "a\"b\\c\nd\re\tf\u{8}\u{c}\u{1}\u{1f}\u{7f}/ü\u{2028}😀".into();
    message.hostname = "".into();
    let line = message.sign(&secret);
    assert_eq!(line.matches('\n').count(), 1);
    assert_eq!(read(&line, &secret), Ok(message));
}

#[test]
fn every_kind_has_its_name_on_the_wire() {
    for (kind, name) in [
        (ChangeKind::Created, "created"),
        (ChangeKind::Modified, "modified"),
        (ChangeKind::Removed, "removed"),
        (ChangeKind::Renamed, "renamed"),
    ] {
        let mut message = dated();
        message.kind = kind;
        assert_eq!(kind.name(), name);
        assert!(message.to_json().contains(&format!("\"kind\":\"{name}\"")));
        assert_eq!(parse_message(&message.to_json()), Ok(message));
    }
}

#[test]
fn white_space_behind_a_line_does_not_matter() {
    let secret = SharedSecret::new("secret-a");
    let line = dated().sign(&secret);
    assert_eq!(read(line.trim_end(), &secret), Ok(dated()));
    assert_eq!(read(&line.replace('\n', "\r\n \t\u{a0}\u{3000}"), &secret), Ok(dated()));
}

#[test]
fn a_line_that_is_no_envelope_is_malformed() {
    let secret = SharedSecret::new("secret-a");
    assert!(matches!(read("nonsense", &secret), Err(ReadError::Malformed(_))));
    assert!(matches!(read("{\"payload\":\"x\"}", &secret), Err(ReadError::Malformed(_))));
}

#[test]
fn a_payload_that_is_no_message_is_malformed_once_it_verifies() {
    let secret = SharedSecret::new("secret-a");
    let payload = "{\"peer_id\":\"x\"}".to_string();
    let mac = secret.mac_hex(&payload);
    let line = SignedEnvelope { payload: payload.clone(), mac }.to_line();
    assert_eq!(read(&line, &secret), Err(ReadError::Malformed("no kind".to_string())));
    let line = SignedEnvelope { payload, mac: "00".to_string() }.to_line();
    assert_eq!(read(&line, &secret), Err(ReadError::SignatureMismatch));
}

#[test]
fn an_envelope_opens_without_a_line() {
    let secret = SharedSecret::new("secret-a");
    let payload = dated().to_json();
    let mac = secret.mac_hex(&payload);
    let envelope = SignedEnvelope { payload, mac };
    assert_eq!(envelope.open(&secret, parse_message), Ok(dated()));
}

#[test]
fn a_connection_without_a_line_was_closed() {
    let secret = SharedSecret::new("secret-a");
    let line = dated().sign(&secret);
    assert_eq!(
        ChangeMessage::read_from(line.len(), &line, &secret, parse_envelope, parse_message),
        Ok(dated())
    );
    assert_eq!(
        ChangeMessage::read_from(0, "", &secret, parse_envelope, parse_message),
        Err(ReadError::ConnectionClosed)
    );
}

#[test]
fn agents_listen_on_the_documented_port() {
    assert_eq!(DEFAULT_PORT, 47821);
}

#[test]
fn copies_are_equal() {
    assert_eq!(dated().clone(), dated());
    let secret = SharedSecret::new("key");
    assert_eq!(secret.clone().mac_hex("x"), secret.mac_hex("x"));
}
