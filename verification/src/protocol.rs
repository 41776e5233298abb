//! Wire format for change events exchanged between peers on the LAN.
//!
//! Every message is authenticated with an HMAC over a shared secret, so that only agents set up
//! with the same secret can make each other show notifications. A receiver drops anything that
//! does not verify.

use hmac::{Hmac, Mac};
use sha2::Sha256;

use vstd::prelude::*;

use crate::hexadecimal;
use crate::json;
use crate::json::quote;
use crate::text;
use crate::text::trim_end;
use crate::timestamp::Timestamp;

verus! {

/// The default TCP port agents listen on for incoming change events.
pub const DEFAULT_PORT: u16 = 47821;

/// The kind of filesystem change that occurred.
#[derive(Debug, Clone, Copy, PartialEq, Eq, Structural)]
pub enum ChangeKind {
    Created,
    Modified,
    Removed,
    Renamed,
}

/// The name of a kind on the wire.
pub open spec fn kind_text(kind: ChangeKind) -> Seq<char> {
    match kind {
        ChangeKind::Created => "created"@,
        ChangeKind::Modified => "modified"@,
        ChangeKind::Removed => "removed"@,
        ChangeKind::Renamed => "renamed"@,
    }
}

impl ChangeKind {
    /// The name of this kind on the wire.
    pub fn name(&self) -> (name: &'static str)
        ensures
            name@ == kind_text(*self),
    {
        match self {
            ChangeKind::Created => "created",
            ChangeKind::Modified => "modified",
            ChangeKind::Removed => "removed",
            ChangeKind::Renamed => "renamed",
        }
    }
}

/// A single change event, broadcast to peers after being detected locally.
#[derive(Debug, PartialEq)]
pub struct ChangeMessage {
    /// Stable identifier of the agent that observed the change.
    pub peer_id: String,
    /// Human-readable hostname of the machine that observed the change, for display.
    pub hostname: String,
    /// Path relative to the watched folder's root, using forward slashes.
    pub path: String,
    pub kind: ChangeKind,
    pub timestamp: Timestamp,
}

impl Clone for ChangeMessage {
    fn clone(&self) -> (copy: Self)
        ensures
            copy == *self,
    {
        ChangeMessage {
            peer_id: self.peer_id.clone(),
            hostname: self.hostname.clone(),
            path: self.path.clone(),
            kind: self.kind,
            timestamp: self.timestamp,
        }
    }
}

/// The HMAC-SHA256 tag of `message` under `key`, as the crates `hmac` and `sha2` compute it.
pub uninterp spec fn hmac_sha256(key: Seq<u8>, message: Seq<u8>) -> Seq<u8>;

/// Computes a tag with `hmac::Hmac<sha2::Sha256>`: `new_from_slice`, which takes a key of any
/// length, `update` and `finalize`.
///
/// Claimed: the tag is a function of the key and the message.
#[verifier::external_body]
fn compute_tag(key: &[u8], message: &[u8]) -> (tag: Vec<u8>)
    ensures
        tag@ == hmac_sha256(key@, message@),
{
    let mut mac = Hmac::<Sha256>::new_from_slice(key).unwrap();
    mac.update(message);
    mac.finalize().into_bytes().to_vec()
}

/// Checks a tag with `hmac::Hmac<sha2::Sha256>`: `new_from_slice`, `update` and `verify_slice`,
/// which compares in constant time, so that a secret cannot be found by timing the failure.
///
/// Claimed: the tag is accepted exactly where it is the one that the key and the message have.
#[verifier::external_body]
fn check_tag(key: &[u8], message: &[u8], tag: &[u8]) -> (valid: bool)
    ensures
        valid == (tag@ == hmac_sha256(key@, message@)),
{
    let mut mac = Hmac::<Sha256>::new_from_slice(key).unwrap();
    mac.update(message);
    mac.verify_slice(tag).is_ok()
}

/// A symmetric key shared by every agent that should be able to talk to this one.
pub struct SharedSecret(Vec<u8>);

impl Clone for SharedSecret {
    fn clone(&self) -> (copy: Self)
        ensures
            copy@ == self@,
    {
        let copy = SharedSecret(self.0.clone());
        assert(copy@ =~= self@);
        copy
    }
}

impl View for SharedSecret {
    type V = Seq<u8>;

    /// The bytes of the key.
    closed spec fn view(&self) -> Seq<u8> {
        self.0@
    }
}

/// The tag of `payload` under `key`, as it is written on the wire.
pub open spec fn tag_text(key: Seq<u8>, payload: Seq<char>) -> Seq<char> {
    hexadecimal::encoded(hmac_sha256(key, vstd::utf8::encode_utf8(payload)))
}

/// Whether `mac` is a tag of `payload` under `key`, in hexadecimal digits of either case.
pub open spec fn tag_accepted(key: Seq<u8>, payload: Seq<char>, mac: Seq<char>) -> bool {
    hexadecimal::decoded(mac) == Some(hmac_sha256(key, vstd::utf8::encode_utf8(payload)))
}

impl SharedSecret {
    /// The key that is made of the bytes of `secret`.
    pub fn new(secret: &str) -> (shared: Self)
        ensures
            shared@ == vstd::utf8::encode_utf8(secret@),
    {
        SharedSecret(secret.as_bytes_vec())
    }

    /// The tag of `payload`, in hexadecimal digits.
    pub fn mac_hex(&self, payload: &str) -> (mac: String)
        ensures
            mac@ == tag_text(self@, payload@),
    {
        let tag = compute_tag(self.0.as_slice(), payload.as_bytes());
        hexadecimal::encode(tag.as_slice())
    }

    /// Verifies `mac_hex` against `payload` in constant time.
    pub fn verify(&self, payload: &str, mac_hex: &str) -> (valid: bool)
        ensures
            valid == tag_accepted(self@, payload@, mac_hex@),
    {
        match hexadecimal::decode(mac_hex) {
            Some(expected) => check_tag(self.0.as_slice(), payload.as_bytes(), expected.as_slice()),
            None => false,
        }
    }
}

/// A payload and the tag over its exact text, as they travel together.
///
/// The tag covers the payload as text, so that verification does not depend on both sides writing
/// a message alike.
#[derive(Debug, PartialEq)]
pub struct SignedEnvelope {
    pub payload: String,
    pub mac: String,
}

/// The line that carries `payload` and `mac`: a JSON object and a line feed.
pub open spec fn envelope_line(payload: Seq<char>, mac: Seq<char>) -> Seq<char> {
    "{\"payload\":"@ + json::quoted(payload) + ",\"mac\":"@ + json::quoted(mac) + "}\n"@
}

impl SignedEnvelope {
    /// The line that carries this envelope.
    pub fn to_line(&self) -> (line: String)
        ensures
            line@ == envelope_line(self.payload@, self.mac@),
    {
        let mut line = text::owned("{\"payload\":");
        line.append(quote(self.payload.as_str()).as_str());
        line.append(",\"mac\":");
        line.append(quote(self.mac.as_str()).as_str());
        line.append("}\n");
        line
    }
}

/// Why a line gave no message. `E` tells what was wrong with its form.
#[derive(Debug, PartialEq)]
pub enum ReadError<E> {
    /// The connection was closed before a line came.
    ConnectionClosed,
    /// The line, or the payload in it, is not of the form that it should have.
    Malformed(E),
    /// The tag does not fit: the line was tampered with, or its sender has another secret.
    SignatureMismatch,
}

impl ChangeMessage {
    /// The JSON object for this message.
    pub open spec fn json(self) -> Seq<char> {
        "{\"peer_id\":"@ + json::quoted(self.peer_id@) + ",\"hostname\":"@ + json::quoted(
            self.hostname@,
        ) + ",\"path\":"@ + json::quoted(self.path@) + ",\"kind\":"@ + json::quoted(
            kind_text(self.kind),
        ) + ",\"timestamp\":"@ + json::quoted(self.timestamp.text()) + "}"@
    }

    /// The line that carries this message under `key`.
    pub open spec fn signed_line(self, key: Seq<u8>) -> Seq<char> {
        envelope_line(self.json(), tag_text(key, self.json()))
    }

    /// This message as a JSON object on a single line.
    pub fn to_json(&self) -> (json: String)
        ensures
            json@ == self.json(),
    {
        let mut object = text::owned("{\"peer_id\":");
        object.append(quote(self.peer_id.as_str()).as_str());
        object.append(",\"hostname\":");
        object.append(quote(self.hostname.as_str()).as_str());
        object.append(",\"path\":");
        object.append(quote(self.path.as_str()).as_str());
        object.append(",\"kind\":");
        object.append(quote(self.kind.name()).as_str());
        object.append(",\"timestamp\":");
        object.append(quote(self.timestamp.to_rfc3339().as_str()).as_str());
        object.append("}");
        object
    }

    /// Signs this message and writes it as a single line of JSON, with no line feed but the one
    /// at its end, for newline-delimited framing.
    pub fn sign(&self, secret: &SharedSecret) -> (line: String)
        ensures
            line@ == self.signed_line(secret@),
            line@.last() == '\n',
            !line@.drop_last().contains('\n'),
    {
        let payload = self.to_json();
        let mac = secret.mac_hex(payload.as_str());
        let envelope = SignedEnvelope { payload, mac };
        let line = envelope.to_line();
        proof {
            lemma_envelope_is_one_line(envelope.payload@, envelope.mac@);
        }
        line
    }
}

/// An envelope has one line feed, at its end, and a brace before it.
proof fn lemma_envelope_is_one_line(payload: Seq<char>, mac: Seq<char>)
    ensures
        envelope_line(payload, mac).len() > 2,
        envelope_line(payload, mac).last() == '\n',
        envelope_line(payload, mac).drop_last().last() == '}',
        !envelope_line(payload, mac).drop_last().contains('\n'),
{
    reveal_strlit("{\"payload\":");
    reveal_strlit(",\"mac\":");
    reveal_strlit("}\n");
    json::lemma_no_line_feed(payload);
    json::lemma_no_line_feed(mac);
    let start = "{\"payload\":"@ + json::quoted(payload) + ",\"mac\":"@ + json::quoted(mac);
    let line = envelope_line(payload, mac);
    assert(line.drop_last() =~= start.push('}'));
    assert forall|i: int| 0 <= i < line.len() - 1 implies #[trigger] line.drop_last()[i] != '\n' by {
        let a = "{\"payload\":"@.len() as int;
        let b = a + json::quoted(payload).len();
        let c = b + ",\"mac\":"@.len();
        let d = c + json::quoted(mac).len();
        if a <= i < b {
            assert(line[i] == json::quoted(payload)[i - a]);
            assert(json::quoted(payload).contains(line[i]));
        } else if b <= i < c {
            assert(line[i] == ",\"mac\":"@[i - b]);
        } else if c <= i < d {
            assert(line[i] == json::quoted(mac)[i - c]);
            assert(json::quoted(mac).contains(line[i]));
        }
    }
}

/// The JSON of a message holds no line feed and ends with a brace.
pub proof fn lemma_json_is_one_line(message: ChangeMessage)
    ensures
        message.json().len() > 0,
        message.json().last() == '}',
        !message.json().contains('\n'),
{
    reveal_strlit("{\"peer_id\":");
    reveal_strlit(",\"hostname\":");
    reveal_strlit(",\"path\":");
    reveal_strlit(",\"kind\":");
    reveal_strlit(",\"timestamp\":");
    reveal_strlit("}");
    let a = "{\"peer_id\":"@ + json::quoted(message.peer_id@);
    let b = a + ",\"hostname\":"@ + json::quoted(message.hostname@);
    let c = b + ",\"path\":"@ + json::quoted(message.path@);
    let d = c + ",\"kind\":"@ + json::quoted(kind_text(message.kind));
    let e = d + ",\"timestamp\":"@ + json::quoted(message.timestamp.text());
    lemma_member_is_one_line(Seq::empty(), "{\"peer_id\":"@, message.peer_id@);
    assert(Seq::empty() + "{\"peer_id\":"@ =~= "{\"peer_id\":"@);
    lemma_member_is_one_line(a, ",\"hostname\":"@, message.hostname@);
    lemma_member_is_one_line(b, ",\"path\":"@, message.path@);
    lemma_member_is_one_line(c, ",\"kind\":"@, kind_text(message.kind));
    lemma_member_is_one_line(d, ",\"timestamp\":"@, message.timestamp.text());
    assert(message.json() =~= e.push('}'));
    assert forall|i: int| 0 <= i < message.json().len() implies #[trigger] message.json()[i]
        != '\n' by {
        if i < e.len() {
            assert(e.contains(message.json()[i]));
        }
    }
}

proof fn lemma_member_is_one_line(before: Seq<char>, name: Seq<char>, value: Seq<char>)
    requires
        !before.contains('\n'),
        !name.contains('\n'),
    ensures
        !(before + name + json::quoted(value)).contains('\n'),
{
    json::lemma_no_line_feed(value);
    let whole = before + name + json::quoted(value);
    assert forall|i: int| 0 <= i < whole.len() implies #[trigger] whole[i] != '\n' by {
        if i < before.len() {
            assert(before.contains(whole[i]));
        } else if i < before.len() + name.len() {
            assert(whole[i] == name[i - before.len()]);
            assert(name.contains(whole[i]));
        } else {
            assert(whole[i] == json::quoted(value)[i - before.len() - name.len()]);
            assert(json::quoted(value).contains(whole[i]));
        }
    }
}

/// `result` is what comes of a `line` under `key`, where `parse_envelope` reads envelopes and
/// `parse_message` reads payloads. The payload counts only once the tag is accepted.
pub open spec fn reads_as<E, P, Q>(
    result: Result<ChangeMessage, ReadError<E>>,
    line: Seq<char>,
    key: Seq<u8>,
    parse_envelope: P,
    parse_message: Q,
) -> bool where
    P: Fn(&str) -> Result<SignedEnvelope, E>,
    Q: Fn(&str) -> Result<ChangeMessage, E>,
 {
    exists|trimmed: &str, envelope: Result<SignedEnvelope, E>|
        {
            &&& trimmed@ == text::without_trailing_space(line)
            &&& #[trigger] parse_envelope.ensures((trimmed,), envelope)
            &&& match envelope {
                Err(reason) => result == Err::<ChangeMessage, _>(ReadError::Malformed(reason)),
                Ok(envelope) => opens_as(result, envelope, key, parse_message),
            }
        }
}

/// `result` is what comes of `envelope` under `key`, where `parse_message` reads payloads.
pub open spec fn opens_as<E, Q>(
    result: Result<ChangeMessage, ReadError<E>>,
    envelope: SignedEnvelope,
    key: Seq<u8>,
    parse_message: Q,
) -> bool where Q: Fn(&str) -> Result<ChangeMessage, E> {
    if tag_accepted(key, envelope.payload@, envelope.mac@) {
        exists|payload: &str, message: Result<ChangeMessage, E>|
            {
                &&& payload@ == envelope.payload@
                &&& #[trigger] parse_message.ensures((payload,), message)
                &&& match message {
                    Err(reason) => result == Err::<ChangeMessage, _>(ReadError::Malformed(reason)),
                    Ok(message) => result == Ok::<_, ReadError<E>>(message),
                }
            }
    } else {
        result == Err::<ChangeMessage, _>(ReadError::<E>::SignatureMismatch)
    }
}

impl SignedEnvelope {
    /// Verifies this envelope against `secret` and reads the message inside it with
    /// `parse_message`, which sees no payload that does not verify.
    pub fn open<E>(
        self,
        secret: &SharedSecret,
        parse_message: impl Fn(&str) -> Result<ChangeMessage, E>,
    ) -> (result: Result<ChangeMessage, ReadError<E>>)
        requires
            forall|payload: &str|
                payload@ == self.payload@ && tag_accepted(secret@, self.payload@, self.mac@)
                    ==> #[trigger] parse_message.requires((payload,)),
        ensures
            opens_as(result, self, secret@, parse_message),
    {
        if !secret.verify(self.payload.as_str(), self.mac.as_str()) {
            return Err(ReadError::SignatureMismatch);
        }
        match parse_message(self.payload.as_str()) {
            Ok(message) => Ok(message),
            Err(reason) => Err(ReadError::Malformed(reason)),
        }
    }
}

impl ChangeMessage {
    /// Verifies a signed line against `secret` and reads the message inside it.
    ///
    /// `parse_envelope` and `parse_message` turn JSON into values. A line whose tag does not
    /// match is refused before its payload is looked at: either it was tampered with, or its
    /// sender uses another shared secret.
    pub fn verify_and_parse<E>(
        line: &str,
        secret: &SharedSecret,
        parse_envelope: impl Fn(&str) -> Result<SignedEnvelope, E>,
        parse_message: impl Fn(&str) -> Result<ChangeMessage, E>,
    ) -> (result: Result<ChangeMessage, ReadError<E>>)
        requires
            forall|trimmed: &str| #[trigger] parse_envelope.requires((trimmed,)),
            forall|payload: &str| #[trigger] parse_message.requires((payload,)),
        ensures
            reads_as(result, line@, secret@, parse_envelope, parse_message),
    {
        let trimmed = trim_end(line);
        match parse_envelope(trimmed.as_str()) {
            Ok(envelope) => envelope.open(secret, parse_message),
            Err(reason) => Err(ReadError::Malformed(reason)),
        }
    }

    /// What comes of reading one line from a connection: `bytes_read` of them, none of which
    /// means that the connection was closed.
    pub fn read_from<E>(
        bytes_read: usize,
        line: &str,
        secret: &SharedSecret,
        parse_envelope: impl Fn(&str) -> Result<SignedEnvelope, E>,
        parse_message: impl Fn(&str) -> Result<ChangeMessage, E>,
    ) -> (result: Result<ChangeMessage, ReadError<E>>)
        requires
            forall|trimmed: &str| #[trigger] parse_envelope.requires((trimmed,)),
            forall|payload: &str| #[trigger] parse_message.requires((payload,)),
        ensures
            if bytes_read == 0 {
                result == Err::<ChangeMessage, _>(ReadError::<E>::ConnectionClosed)
            } else {
                reads_as(result, line@, secret@, parse_envelope, parse_message)
            },
    {
        if bytes_read == 0 {
            return Err(ReadError::ConnectionClosed);
        }
        ChangeMessage::verify_and_parse(line, secret, parse_envelope, parse_message)
    }
}

/// A tag that was written under a secret is accepted under it.
pub proof fn law_own_tag_is_accepted(key: Seq<u8>, payload: Seq<char>)
    ensures
        tag_accepted(key, payload, tag_text(key, payload)),
{
    hexadecimal::law_decode_undoes_encode(hmac_sha256(key, vstd::utf8::encode_utf8(payload)));
}

/// A tag that was written for one payload under one secret is accepted for another payload, or
/// under another secret, only where both have the same HMAC: a tampered payload and a mismatched
/// secret are refused.
pub proof fn law_foreign_tag_is_refused(
    key: Seq<u8>,
    payload: Seq<char>,
    other_key: Seq<u8>,
    other_payload: Seq<char>,
)
    ensures
        tag_accepted(other_key, other_payload, tag_text(key, payload)) <==> hmac_sha256(
            other_key,
            vstd::utf8::encode_utf8(other_payload),
        ) == hmac_sha256(key, vstd::utf8::encode_utf8(payload)),
{
    hexadecimal::law_decode_undoes_encode(hmac_sha256(key, vstd::utf8::encode_utf8(payload)));
}

/// A signed line gives its message back, with its line feed or without it, and whatever white space
/// stands behind it: `spacing` is what stands there in place of the line feed. All that comes of it
/// under the secret it was signed with is that message, where `parse_envelope` reads the envelope of that line and
/// `parse_message` reads the JSON of that message.
pub proof fn law_signed_line_reads_back_with_any_spacing<E, P, Q>(
    message: ChangeMessage,
    key: Seq<u8>,
    spacing: Seq<char>,
    parse_envelope: P,
    parse_message: Q,
    result: Result<ChangeMessage, ReadError<E>>,
) where P: Fn(&str) -> Result<SignedEnvelope, E>, Q: Fn(&str) -> Result<ChangeMessage, E>
    requires
        forall|line: &str, read: Result<SignedEnvelope, E>| #[trigger]
            parse_envelope.ensures((line,), read) && line@ == message.signed_line(key).drop_last()
                ==> (read matches Ok(envelope) && envelope.payload@ == message.json()
                && envelope.mac@ == tag_text(key, message.json())),
        forall|payload: &str, read: Result<ChangeMessage, E>| #[trigger]
            parse_message.ensures((payload,), read) && payload@ == message.json() ==> read == Ok::<
                _,
                E,
            >(message),
        forall|i: int| 0 <= i < spacing.len() ==> text::is_white_space(#[trigger] spacing[i]),
        reads_as(
            result,
            message.signed_line(key).drop_last() + spacing,
            key,
            parse_envelope,
            parse_message,
        ),
    ensures
        result == Ok::<_, ReadError<E>>(message),
{
    let line = message.signed_line(key);
    lemma_envelope_is_one_line(message.json(), tag_text(key, message.json()));
    law_own_tag_is_accepted(key, message.json());
    text::lemma_trailing_space_is_dropped(line.drop_last(), spacing);
}

/// A signed line gives its message back: whatever comes of it under the secret it was signed
/// with is that message, where `parse_envelope` reads the envelope of that line and
/// `parse_message` reads the JSON of that message.
pub proof fn law_signed_line_reads_back<E, P, Q>(
    message: ChangeMessage,
    key: Seq<u8>,
    parse_envelope: P,
    parse_message: Q,
    result: Result<ChangeMessage, ReadError<E>>,
) where P: Fn(&str) -> Result<SignedEnvelope, E>, Q: Fn(&str) -> Result<ChangeMessage, E>
    requires
        forall|line: &str, read: Result<SignedEnvelope, E>| #[trigger]
            parse_envelope.ensures((line,), read) && line@ == message.signed_line(key).drop_last()
                ==> (read matches Ok(envelope) && envelope.payload@ == message.json()
                && envelope.mac@ == tag_text(key, message.json())),
        forall|payload: &str, read: Result<ChangeMessage, E>| #[trigger]
            parse_message.ensures((payload,), read) && payload@ == message.json() ==> read == Ok::<
                _,
                E,
            >(message),
        reads_as(result, message.signed_line(key), key, parse_envelope, parse_message),
    ensures
        result == Ok::<_, ReadError<E>>(message),
{
    let line = message.signed_line(key);
    lemma_envelope_is_one_line(message.json(), tag_text(key, message.json()));
    assert(line =~= line.drop_last() + seq!['\n']);
    law_signed_line_reads_back_with_any_spacing(
        message,
        key,
        seq!['\n'],
        parse_envelope,
        parse_message,
        result,
    );
}

/// A line that was tampered with, or signed with another secret, is refused: where a line carries
/// `payload` and the tag of `signed_payload` under `signing_key`, and that is another HMAC than the
/// one of `payload` under the reader's `key`, nothing comes of it but the refusal. `parse_envelope`
/// reads the envelope of that line. White space in place of the line feed, `spacing`, does not
/// matter.
pub proof fn law_forged_line_is_refused<E, P, Q>(
    payload: Seq<char>,
    signed_payload: Seq<char>,
    signing_key: Seq<u8>,
    key: Seq<u8>,
    spacing: Seq<char>,
    parse_envelope: P,
    parse_message: Q,
    result: Result<ChangeMessage, ReadError<E>>,
) where P: Fn(&str) -> Result<SignedEnvelope, E>, Q: Fn(&str) -> Result<ChangeMessage, E>
    requires
        hmac_sha256(key, vstd::utf8::encode_utf8(payload)) != hmac_sha256(
            signing_key,
            vstd::utf8::encode_utf8(signed_payload),
        ),
        forall|line: &str, read: Result<SignedEnvelope, E>| #[trigger]
            parse_envelope.ensures((line,), read) && line@ == envelope_line(
                payload,
                tag_text(signing_key, signed_payload),
            ).drop_last() ==> (read matches Ok(envelope) && envelope.payload@ == payload
                && envelope.mac@ == tag_text(signing_key, signed_payload)),
        forall|i: int| 0 <= i < spacing.len() ==> text::is_white_space(#[trigger] spacing[i]),
        reads_as(
            result,
            envelope_line(payload, tag_text(signing_key, signed_payload)).drop_last() + spacing,
            key,
            parse_envelope,
            parse_message,
        ),
    ensures
        result == Err::<ChangeMessage, _>(ReadError::<E>::SignatureMismatch),
{
    let mac = tag_text(signing_key, signed_payload);
    let line = envelope_line(payload, mac);
    lemma_envelope_is_one_line(payload, mac);
    law_foreign_tag_is_refused(signing_key, signed_payload, key, payload);
    text::lemma_trailing_space_is_dropped(line.drop_last(), spacing);
}

/// A message comes of a line only where the line carries an envelope with a tag that is accepted.
pub proof fn law_message_comes_of_a_verified_line<E, P, Q>(
    message: ChangeMessage,
    line: Seq<char>,
    key: Seq<u8>,
    parse_envelope: P,
    parse_message: Q,
) where P: Fn(&str) -> Result<SignedEnvelope, E>, Q: Fn(&str) -> Result<ChangeMessage, E>
    requires
        reads_as(Ok::<_, ReadError<E>>(message), line, key, parse_envelope, parse_message),
    ensures
        exists|trimmed: &str, envelope: SignedEnvelope|
            {
                &&& trimmed@ == text::without_trailing_space(line)
                &&& #[trigger] parse_envelope.ensures((trimmed,), Ok::<_, E>(envelope))
                &&& tag_accepted(key, envelope.payload@, envelope.mac@)
            },
{
    let (trimmed, read) = choose|trimmed: &str, read: Result<SignedEnvelope, E>|
        {
            &&& trimmed@ == text::without_trailing_space(line)
            &&& #[trigger] parse_envelope.ensures((trimmed,), read)
            &&& match read {
                Err(reason) => Ok::<_, ReadError<E>>(message) == Err::<ChangeMessage, _>(
                    ReadError::Malformed(reason),
                ),
                Ok(envelope) => opens_as(Ok(message), envelope, key, parse_message),
            }
        };
    assert(parse_envelope.ensures((trimmed,), Ok::<_, E>(read->Ok_0)));
}

/// A line tells its envelope: two envelopes that are written alike are the same.
pub proof fn law_line_tells_its_envelope(
    payload: Seq<char>,
    mac: Seq<char>,
    other_payload: Seq<char>,
    other_mac: Seq<char>,
)
    requires
        envelope_line(payload, mac) == envelope_line(other_payload, other_mac),
    ensures
        payload == other_payload,
        mac == other_mac,
{
    let start = "{\"payload\":"@;
    let between = ",\"mac\":"@;
    let end = "}\n"@;
    let after = between + json::quoted(mac) + end;
    let other_after = between + json::quoted(other_mac) + end;
    let size = start.len() as int;
    assert(envelope_line(payload, mac).skip(size) =~= json::quoted(payload) + after);
    assert(envelope_line(other_payload, other_mac).skip(size) =~= json::quoted(other_payload)
        + other_after);
    json::law_literal_is_unambiguous(payload, other_payload, after, other_after);
    let size = between.len() as int;
    assert(after.skip(size) =~= json::quoted(mac) + end);
    assert(other_after.skip(size) =~= json::quoted(other_mac) + end);
    json::law_literal_is_unambiguous(mac, other_mac, end, end);
}

/// The JSON of a message tells the message, with its timestamp as RFC 3339 text.
pub proof fn law_json_tells_its_message(a: ChangeMessage, b: ChangeMessage)
    requires
        a.json() == b.json(),
    ensures
        a.peer_id@ == b.peer_id@,
        a.hostname@ == b.hostname@,
        a.path@ == b.path@,
        a.kind == b.kind,
        a.timestamp.text() == b.timestamp.text(),
{
    let end = "}"@;
    let a4 = ",\"timestamp\":"@ + json::quoted(a.timestamp.text()) + end;
    let b4 = ",\"timestamp\":"@ + json::quoted(b.timestamp.text()) + end;
    let a3 = ",\"kind\":"@ + json::quoted(kind_text(a.kind)) + a4;
    let b3 = ",\"kind\":"@ + json::quoted(kind_text(b.kind)) + b4;
    let a2 = ",\"path\":"@ + json::quoted(a.path@) + a3;
    let b2 = ",\"path\":"@ + json::quoted(b.path@) + b3;
    let a1 = ",\"hostname\":"@ + json::quoted(a.hostname@) + a2;
    let b1 = ",\"hostname\":"@ + json::quoted(b.hostname@) + b2;
    lemma_json_by_members(a);
    lemma_json_by_members(b);
    lemma_member_is_unambiguous("{\"peer_id\":"@, a.peer_id@, b.peer_id@, a1, b1);
    lemma_member_is_unambiguous(",\"hostname\":"@, a.hostname@, b.hostname@, a2, b2);
    lemma_member_is_unambiguous(",\"path\":"@, a.path@, b.path@, a3, b3);
    lemma_member_is_unambiguous(",\"kind\":"@, kind_text(a.kind), kind_text(b.kind), a4, b4);
    lemma_member_is_unambiguous(
        ",\"timestamp\":"@,
        a.timestamp.text(),
        b.timestamp.text(),
        end,
        end,
    );
    lemma_kind_text_tells_kind(a.kind, b.kind);
}

/// The JSON of a message, each member in front of all that follow it.
proof fn lemma_json_by_members(a: ChangeMessage)
    ensures
        a.json() == "{\"peer_id\":"@ + json::quoted(a.peer_id@) + (",\"hostname\":"@ + json::quoted(
            a.hostname@,
        ) + (",\"path\":"@ + json::quoted(a.path@) + (",\"kind\":"@ + json::quoted(kind_text(a.kind)) + (
        ",\"timestamp\":"@ + json::quoted(a.timestamp.text()) + "}"@)))),
{
    let r3 = ",\"timestamp\":"@ + json::quoted(a.timestamp.text()) + "}"@;
    let r2 = ",\"kind\":"@ + json::quoted(kind_text(a.kind)) + r3;
    let r1 = ",\"path\":"@ + json::quoted(a.path@) + r2;
    let l0 = "{\"peer_id\":"@ + json::quoted(a.peer_id@);
    let l1 = l0 + ",\"hostname\":"@ + json::quoted(a.hostname@);
    let l2 = l1 + ",\"path\":"@ + json::quoted(a.path@);
    let l3 = l2 + ",\"kind\":"@ + json::quoted(kind_text(a.kind));
    lemma_regrouped(l3, ",\"timestamp\":"@, json::quoted(a.timestamp.text()), "}"@);
    lemma_regrouped(l2, ",\"kind\":"@, json::quoted(kind_text(a.kind)), r3);
    lemma_regrouped(l1, ",\"path\":"@, json::quoted(a.path@), r2);
    lemma_regrouped(l0, ",\"hostname\":"@, json::quoted(a.hostname@), r1);
}

proof fn lemma_regrouped(before: Seq<char>, name: Seq<char>, value: Seq<char>, after: Seq<char>)
    ensures
        before + name + value + after == before + (name + value + after),
{
    assert(before + name + value + after =~= before + (name + value + after));
}

proof fn lemma_member_is_unambiguous(
    name: Seq<char>,
    a: Seq<char>,
    b: Seq<char>,
    after_a: Seq<char>,
    after_b: Seq<char>,
)
    requires
        name + json::quoted(a) + after_a == name + json::quoted(b) + after_b,
    ensures
        a == b,
        after_a == after_b,
{
    let size = name.len() as int;
    assert((name + json::quoted(a) + after_a).skip(size) =~= json::quoted(a) + after_a);
    assert((name + json::quoted(b) + after_b).skip(size) =~= json::quoted(b) + after_b);
    json::law_literal_is_unambiguous(a, b, after_a, after_b);
}

proof fn lemma_kind_text_tells_kind(a: ChangeKind, b: ChangeKind)
    requires
        kind_text(a) == kind_text(b),
    ensures
        a == b,
{
    reveal_strlit("created");
    reveal_strlit("modified");
    reveal_strlit("removed");
    reveal_strlit("renamed");
    assert("created"@[2] == 'e');
    assert("modified"@[2] == 'd');
    assert("removed"@[2] == 'm');
    assert("renamed"@[2] == 'n');
}

/// A tag is accepted exactly where it is the one of the payload, with its letters in either case.
pub proof fn law_tag_is_accepted_in_either_case(key: Seq<u8>, payload: Seq<char>, mac: Seq<char>)
    ensures
        tag_accepted(key, payload, mac) <==> text::same_but_for_ascii_case(
            mac,
            tag_text(key, payload),
        ),
{
    let tag = hmac_sha256(key, vstd::utf8::encode_utf8(payload));
    let text = tag_text(key, payload);
    hexadecimal::law_just_pairs_of_digits_are_decoded(mac, tag);
    assert(text.len() == 2 * tag.len());
    if text::same_but_for_ascii_case(mac, text) {
        assert forall|i: int| 0 <= i < tag.len() implies hexadecimal::digit_value(mac[2 * i]) == Some(
            #[trigger] tag[i] as int / 16,
        ) && hexadecimal::digit_value(mac[2 * i + 1]) == Some(tag[i] as int % 16) by {
            hexadecimal::law_each_byte_becomes_two_digits(tag, i);
            lemma_digit_in_either_case(mac[2 * i], tag[i] as int / 16);
            lemma_digit_in_either_case(mac[2 * i + 1], tag[i] as int % 16);
        }
    }
    if tag_accepted(key, payload, mac) {
        assert forall|k: int| 0 <= k < mac.len() implies text::ascii_folded(#[trigger] mac[k])
            == text::ascii_folded(text[k]) by {
            let i = k / 2;
            hexadecimal::law_each_byte_becomes_two_digits(tag, i);
            assert(hexadecimal::digit_value(mac[2 * i]) == Some(tag[i] as int / 16));
            lemma_digit_in_either_case(mac[2 * i], tag[i] as int / 16);
            lemma_digit_in_either_case(mac[2 * i + 1], tag[i] as int % 16);
            assert(k == 2 * i || k == 2 * i + 1);
        }
    }
}

proof fn lemma_digit_in_either_case(c: char, value: int)
    requires
        0 <= value < 16,
    ensures
        hexadecimal::digit_value(c) == Some(value) <==> text::ascii_folded(c) == text::ascii_folded(
            hexadecimal::digit(value),
        ),
{
    hexadecimal::law_digits_are_read_in_either_case(c, value);
    text::law_only_ascii_capitals_are_folded(c);
    text::law_only_ascii_capitals_are_folded(hexadecimal::digit(value));
}

/// A tag is written in small digits: two for each byte of the HMAC of the payload's bytes.
pub proof fn law_tag_is_the_hmac_in_small_digits(key: Seq<u8>, payload: Seq<char>, i: int)
    requires
        0 <= i < hmac_sha256(key, vstd::utf8::encode_utf8(payload)).len(),
    ensures
        ({
            let tag = hmac_sha256(key, vstd::utf8::encode_utf8(payload));
            &&& tag_text(key, payload).len() == 2 * tag.len()
            &&& tag_text(key, payload)[2 * i] == hexadecimal::digit(tag[i] as int / 16)
            &&& tag_text(key, payload)[2 * i + 1] == hexadecimal::digit(tag[i] as int % 16)
        }),
{
    hexadecimal::law_each_byte_becomes_two_digits(
        hmac_sha256(key, vstd::utf8::encode_utf8(payload)),
        i,
    );
}

/// A kind is written as its name in small letters.
pub proof fn law_kinds_are_written_by_their_names(kind: ChangeKind)
    ensures
        kind_text(kind) == seq!['c', 'r', 'e', 'a', 't', 'e', 'd'] <==> kind == ChangeKind::Created,
        kind_text(kind) == seq!['m', 'o', 'd', 'i', 'f', 'i', 'e', 'd'] <==> kind
            == ChangeKind::Modified,
        kind_text(kind) == seq!['r', 'e', 'm', 'o', 'v', 'e', 'd'] <==> kind == ChangeKind::Removed,
        kind_text(kind) == seq!['r', 'e', 'n', 'a', 'm', 'e', 'd'] <==> kind == ChangeKind::Renamed,
{
    reveal_strlit("created");
    reveal_strlit("modified");
    reveal_strlit("removed");
    reveal_strlit("renamed");
    assert("created"@ =~= seq!['c', 'r', 'e', 'a', 't', 'e', 'd']);
    assert("modified"@ =~= seq!['m', 'o', 'd', 'i', 'f', 'i', 'e', 'd']);
    assert("removed"@ =~= seq!['r', 'e', 'm', 'o', 'v', 'e', 'd']);
    assert("renamed"@ =~= seq!['r', 'e', 'n', 'a', 'm', 'e', 'd']);
    lemma_kind_text_tells_kind(kind, kind);
    if kind_text(kind) == "created"@ {
        lemma_kind_text_tells_kind(kind, ChangeKind::Created);
    }
    if kind_text(kind) == "modified"@ {
        lemma_kind_text_tells_kind(kind, ChangeKind::Modified);
    }
    if kind_text(kind) == "removed"@ {
        lemma_kind_text_tells_kind(kind, ChangeKind::Removed);
    }
    if kind_text(kind) == "renamed"@ {
        lemma_kind_text_tells_kind(kind, ChangeKind::Renamed);
    }
}

/// A message is written as an object of five members, each a literal behind its name: the peer, its
/// hostname, the path, the kind and the time, in this order and without spacing.
pub proof fn law_message_is_written_as_five_members(message: ChangeMessage)
    ensures
        message.json() == "{\"peer_id\":"@ + json::quoted(message.peer_id@) + (",\"hostname\":"@
            + json::quoted(message.hostname@) + (",\"path\":"@ + json::quoted(message.path@) + (
        ",\"kind\":"@ + json::quoted(kind_text(message.kind)) + (",\"timestamp\":"@ + json::quoted(
            message.timestamp.text(),
        ) + "}"@)))),
{
    lemma_json_by_members(message);
}

/// A signed line is an envelope of two members, the message as text and the tag of just that text under
/// the key, and a line feed.
pub proof fn law_signed_line_carries_the_message_and_its_tag(message: ChangeMessage, key: Seq<u8>)
    ensures
        message.signed_line(key) == "{\"payload\":"@ + (json::quoted(message.json()) + (",\"mac\":"@ + (
        json::quoted(hexadecimal::encoded(hmac_sha256(key, vstd::utf8::encode_utf8(message.json()))))
            + "}\n"@))),
{
    let payload = json::quoted(message.json());
    let mac = json::quoted(tag_text(key, message.json()));
    assert(message.signed_line(key) =~= "{\"payload\":"@ + (payload + (",\"mac\":"@ + (mac
        + "}\n"@))));
}

/// What comes of an envelope: the refusal where its tag is not accepted, whatever its payload is, and
/// otherwise what its payload is read as, where `parse_message` reads it in one way only.
pub proof fn law_envelope_is_what_its_payload_is_read_as<E, Q>(
    result: Result<ChangeMessage, ReadError<E>>,
    envelope: SignedEnvelope,
    key: Seq<u8>,
    parse_message: Q,
    only: Result<ChangeMessage, E>,
) where Q: Fn(&str) -> Result<ChangeMessage, E>
    requires
        opens_as(result, envelope, key, parse_message),
        forall|payload: &str, read: Result<ChangeMessage, E>|
            payload@ == envelope.payload@ && #[trigger] parse_message.ensures((payload,), read)
                ==> read == only,
    ensures
        !text::same_but_for_ascii_case(envelope.mac@, tag_text(key, envelope.payload@)) ==> result
            == Err::<ChangeMessage, _>(ReadError::<E>::SignatureMismatch),
        text::same_but_for_ascii_case(envelope.mac@, tag_text(key, envelope.payload@)) ==> result
            == match only {
            Ok(message) => Ok::<_, ReadError<E>>(message),
            Err(reason) => Err::<ChangeMessage, _>(ReadError::Malformed(reason)),
        },
{
    law_tag_is_accepted_in_either_case(key, envelope.payload@, envelope.mac@);
}

/// What comes of a line: it is malformed where it is no envelope, for the reason that `parse_envelope`
/// gives, and otherwise what comes of the envelope, where the line is read in one way only once the
/// white space behind it is dropped.
pub proof fn law_line_is_what_its_envelope_is<E, P, Q>(
    result: Result<ChangeMessage, ReadError<E>>,
    line: Seq<char>,
    key: Seq<u8>,
    parse_envelope: P,
    parse_message: Q,
    only: Result<SignedEnvelope, E>,
) where P: Fn(&str) -> Result<SignedEnvelope, E>, Q: Fn(&str) -> Result<ChangeMessage, E>
    requires
        reads_as(result, line, key, parse_envelope, parse_message),
        forall|trimmed: &str, read: Result<SignedEnvelope, E>|
            trimmed@ == text::without_trailing_space(line) && #[trigger] parse_envelope.ensures(
                (trimmed,),
                read,
            ) ==> read == only,
    ensures
        match only {
            Err(reason) => result == Err::<ChangeMessage, _>(ReadError::Malformed(reason)),
            Ok(envelope) => opens_as(result, envelope, key, parse_message),
        },
{
}

} // verus!
