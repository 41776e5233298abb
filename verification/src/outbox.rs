//! A persistent, per-peer queue of change messages that could not be delivered right away, because
//! the peer was offline or the send failed, so that they can be delivered once that peer is seen
//! online again.
//!
//! There is one file of JSON lines for each peer, to which a message is appended as a line of its
//! own. Messages are signed fresh when they are sent. A queue is bounded in length and in age, so
//! that the one of a peer that is gone for good does not grow forever.
//!
//! A line that cannot be read counts as no message, and goes the next time its file is written.

use vstd::prelude::*;

use crate::path;
use crate::path::join;
use crate::protocol::ChangeMessage;
use crate::protocol;
use crate::text;
use crate::text::{owned, split_lines};
use crate::timestamp;
use crate::timestamp::Timestamp;

verus! {

/// Oldest entries are dropped once a peer's queue exceeds this many pending messages.
pub const MAX_QUEUED_PER_PEER: usize = 500;

/// Entries older than this are dropped the next time that peer's queue is read.
pub const MAX_AGE_DAYS: i64 = 7;

/// The queue once `message` is appended, without the oldest entries where it would get too long.
pub open spec fn with_message(
    queue: Seq<ChangeMessage>,
    message: ChangeMessage,
) -> Seq<ChangeMessage> {
    let longer = queue.push(message);
    if longer.len() > MAX_QUEUED_PER_PEER {
        longer.skip(longer.len() - MAX_QUEUED_PER_PEER)
    } else {
        longer
    }
}

/// Whether a message of the time `sent` is not too old at the time `now`.
pub open spec fn is_fresh(sent: Timestamp, now: Timestamp) -> bool {
    let cutoff = timestamp::moment_days_before(
        now.spec_seconds(),
        now.spec_nanoseconds(),
        MAX_AGE_DAYS,
    );
    ||| sent.spec_seconds() > cutoff.0
    ||| sent.spec_seconds() == cutoff.0 && sent.spec_nanoseconds() >= cutoff.1
}

/// The messages of the queue that are not too old at the time `now`, in order.
pub open spec fn fresh_part(queue: Seq<ChangeMessage>, now: Timestamp) -> Seq<ChangeMessage> {
    queue.filter(|message: ChangeMessage| is_fresh(message.timestamp, now))
}

/// The queue without its first `count` messages.
pub open spec fn without_first(queue: Seq<ChangeMessage>, count: nat) -> Seq<ChangeMessage> {
    if count < queue.len() {
        queue.skip(count as int)
    } else {
        Seq::empty()
    }
}

/// The text of a queue file: the JSON of each message on a line of its own.
pub open spec fn file_text(queue: Seq<ChangeMessage>) -> Seq<char>
    decreases queue.len(),
{
    if queue.len() == 0 {
        Seq::empty()
    } else {
        file_text(queue.drop_last()) + queue.last().json() + seq!['\n']
    }
}

/// The name of a peer's queue file.
pub open spec fn file_name(peer_id: Seq<char>) -> Seq<char> {
    peer_id + ".jsonl"@
}

/// What is to be done with a peer's queue file.
#[derive(Debug, PartialEq)]
pub enum QueueFile {
    /// Nothing is pending: the file is removed, if it is there.
    Remove { path: String },
    /// The file is written anew.
    Write { path: String, contents: String },
}

/// Whether `file` leaves `queue` behind as the queue of `peer_id` in the directory `dir`.
pub open spec fn stores(
    file: QueueFile,
    dir: Seq<char>,
    peer_id: Seq<char>,
    queue: Seq<ChangeMessage>,
) -> bool {
    match file {
        QueueFile::Remove { path } => queue.len() == 0 && path::is_joined(
            path@,
            dir,
            file_name(peer_id),
        ),
        QueueFile::Write { path, contents } => queue.len() > 0 && contents@ == file_text(queue)
            && path::is_joined(path@, dir, file_name(peer_id)),
    }
}

/// The messages among `parsed`, in order.
pub open spec fn readable(parsed: Seq<Option<ChangeMessage>>) -> Seq<ChangeMessage>
    decreases parsed.len(),
{
    if parsed.len() == 0 {
        Seq::empty()
    } else {
        match parsed.last() {
            Some(message) => readable(parsed.drop_last()).push(message),
            None => readable(parsed.drop_last()),
        }
    }
}

/// Whether `parsed` is what `parse` makes of `line`.
pub open spec fn parses_to<P>(parse: P, line: Seq<char>, parsed: Option<ChangeMessage>) -> bool where
    P: Fn(&str) -> Option<ChangeMessage>,
 {
    exists|text: &str| text@ == line && #[trigger] parse.ensures((text,), parsed)
}

/// Whether `queue` is read from a file with the text `contents`, where `parse` reads a line. Lines
/// that it cannot read are skipped.
pub open spec fn is_read_from<P>(queue: Seq<ChangeMessage>, contents: Seq<char>, parse: P) -> bool where
    P: Fn(&str) -> Option<ChangeMessage>,
 {
    exists|parsed: Seq<Option<ChangeMessage>>|
        {
            &&& queue == #[trigger] readable(parsed)
            &&& parsed.len() == text::lines_of(contents).len()
            &&& forall|i: int|
                0 <= i < parsed.len() ==> parses_to(
                    parse,
                    text::lines_of(contents)[i],
                    #[trigger] parsed[i],
                )
        }
}

/// The queues of all peers, in one directory.
pub struct Outbox {
    dir: String,
}

impl Clone for Outbox {
    fn clone(&self) -> (copy: Self)
        ensures
            copy@ == self@,
    {
        Outbox { dir: self.dir.clone() }
    }
}

impl View for Outbox {
    type V = Seq<char>;

    /// The directory.
    closed spec fn view(&self) -> Seq<char> {
        self.dir@
    }
}

impl Outbox {
    /// The queues in the directory `dir`.
    pub fn open(dir: String) -> (outbox: Self)
        ensures
            outbox@ == dir@,
    {
        Outbox { dir }
    }

    /// The file with the queue of `peer_id`.
    pub fn file_path(&self, peer_id: &str) -> (path: String)
        ensures
            path::is_joined(path@, self@, file_name(peer_id@)),
    {
        let mut name = owned(peer_id);
        name.append(".jsonl");
        join(self.dir.as_str(), name.as_str())
    }

    /// The queue in a file with the text `contents`, which is missing where there is no file.
    /// `parse` reads a line; a line that it cannot read is skipped.
    pub fn read_all(
        contents: Option<String>,
        parse: impl Fn(&str) -> Option<ChangeMessage>,
    ) -> (queue: Vec<ChangeMessage>)
        requires
            forall|line: &str| #[trigger] parse.requires((line,)),
        ensures
            match contents {
                Some(contents) => is_read_from(queue@, contents@, parse),
                None => queue@.len() == 0,
            },
    {
        let mut queue: Vec<ChangeMessage> = Vec::new();
        if let Some(contents) = contents {
            let lines = split_lines(contents.as_str());
            let ghost all = text::lines_of(contents@);
            let ghost mut parsed: Seq<Option<ChangeMessage>> = Seq::empty();
            let mut i: usize = 0;
            while i < lines.len()
                invariant
                    i <= lines@.len(),
                    all == text::texts(lines@),
                    forall|line: &str| #[trigger] parse.requires((line,)),
                    parsed.len() == i,
                    queue@ == readable(parsed),
                    forall|j: int| 0 <= j < i ==> parses_to(parse, all[j], #[trigger] parsed[j]),
                decreases lines@.len() - i,
            {
                let message = parse(lines[i].as_str());
                proof {
                    let before = parsed;
                    parsed = parsed.push(message);
                    assert(parsed.drop_last() =~= before);
                    assert(all[i as int] == lines@[i as int]@);
                    assert(parses_to(parse, all[i as int], message));
                }
                if let Some(message) = message {
                    queue.push(message);
                }
                i += 1;
            }
            assert(queue@ == readable(parsed));
        }
        queue
    }

    /// What leaves `queue` behind as the queue of `peer_id`. An empty queue has no file.
    pub fn write_all(&self, peer_id: &str, queue: &Vec<ChangeMessage>) -> (file: QueueFile)
        ensures
            stores(file, self@, peer_id@, queue@),
    {
        let path = self.file_path(peer_id);
        if queue.len() == 0 {
            return QueueFile::Remove { path };
        }
        let mut contents = String::new();
        let mut i: usize = 0;
        assert(queue@.take(0) =~= Seq::<ChangeMessage>::empty());
        while i < queue.len()
            invariant
                i <= queue@.len(),
                contents@ == file_text(queue@.take(i as int)),
            decreases queue@.len() - i,
        {
            assert(queue@.take(i + 1).drop_last() =~= queue@.take(i as int));
            let ghost before = contents@;
            contents.append(queue[i].to_json().as_str());
            contents.push('\n');
            assert(contents@ =~= before + queue@[i as int].json() + seq!['\n']);
            i += 1;
        }
        assert(queue@.take(i as int) =~= queue@);
        QueueFile::Write { path, contents }
    }

    /// Appends `message` to the queue of `peer_id`, which is `queued` so far, and drops the oldest
    /// entries if that makes it too long. The file that comes out holds the queue and nothing else:
    /// where `queued` is all that the file held, a line is appended to it, and a line that could
    /// not be read is gone.
    pub fn enqueue(
        &self,
        peer_id: &str,
        queued: Vec<ChangeMessage>,
        message: &ChangeMessage,
    ) -> (file: QueueFile)
        ensures
            stores(file, self@, peer_id@, with_message(queued@, *message)),
    {
        let mut queue = queued;
        queue.push(message.clone());
        if queue.len() > MAX_QUEUED_PER_PEER {
            let overflow: usize = queue.len() - MAX_QUEUED_PER_PEER;
            queue = queue.split_off(overflow);
        }
        assert(queue@ =~= with_message(queued@, *message));
        self.write_all(peer_id, &queue)
    }

    /// The messages that are to be delivered to `peer_id`, oldest first: `queued`, without those
    /// that are too old at the time `now`. Where there were such, the file that leaves the rest
    /// behind comes with them.
    pub fn pending(
        &self,
        peer_id: &str,
        queued: Vec<ChangeMessage>,
        now: Timestamp,
    ) -> (pending: (Vec<ChangeMessage>, Option<QueueFile>))
        requires
            now.spec_seconds() - MAX_AGE_DAYS * 86_400 >= timestamp::MIN_SECONDS,
        ensures
            pending.0@ == fresh_part(queued@, now),
            match pending.1 {
                None => pending.0@ == queued@,
                Some(file) => pending.0@.len() < queued@.len() && stores(
                    file,
                    self@,
                    peer_id@,
                    fresh_part(queued@, now),
                ),
            },
    {
        let cutoff = now.days_before(MAX_AGE_DAYS);
        let mut fresh: Vec<ChangeMessage> = Vec::new();
        let mut i: usize = 0;
        assert(queued@.take(0) =~= Seq::<ChangeMessage>::empty());
        assert(fresh@ =~= fresh_part(queued@.take(0), now));
        while i < queued.len()
            invariant
                i <= queued@.len(),
                now.is_days_before(cutoff, MAX_AGE_DAYS),
                fresh@ == fresh_part(queued@.take(i as int), now),
                fresh@.len() <= i,
                fresh@.len() == i ==> fresh@ == queued@.take(i as int),
            decreases queued@.len() - i,
        {
            proof {
                let keep = |message: ChangeMessage| is_fresh(message.timestamp, now);
                assert(queued@.take(i + 1) =~= queued@.take(i as int).push(queued@[i as int]));
                reveal(Seq::filter);
                assert(queued@.take(i + 1).drop_last() =~= queued@.take(i as int));
                assert(cutoff.spec_seconds() as int == timestamp::moment_days_before(
                    now.spec_seconds(),
                    now.spec_nanoseconds(),
                    MAX_AGE_DAYS,
                ).0);
            }
            if queued[i].timestamp.is_not_before(&cutoff) {
                fresh.push(queued[i].clone());
            }
            i += 1;
        }
        assert(queued@.take(i as int) =~= queued@);
        if fresh.len() == queued.len() {
            return (fresh, None);
        }
        let file = self.write_all(peer_id, &fresh);
        (fresh, Some(file))
    }

    /// Takes the first `count` messages out of the queue of `peer_id`, which is `queued` so far,
    /// after that many were delivered in order. Nothing is to be done where none was.
    pub fn acknowledge(
        &self,
        peer_id: &str,
        queued: Vec<ChangeMessage>,
        count: usize,
    ) -> (file: Option<QueueFile>)
        ensures
            match file {
                None => count == 0,
                Some(file) => count > 0 && stores(
                    file,
                    self@,
                    peer_id@,
                    without_first(queued@, count as nat),
                ),
            },
    {
        if count == 0 {
            return None;
        }
        let mut queue = queued;
        let count: usize = if count < queue.len() {
            count
        } else {
            queue.len()
        };
        let rest = queue.split_off(count);
        assert(rest@ =~= without_first(queued@, count as nat));
        Some(self.write_all(peer_id, &rest))
    }
}

/// Delivers a queue message by message, in order, until one fails.
pub struct Flush {
    messages: Vec<ChangeMessage>,
    delivered: usize,
    failed: bool,
}

impl Flush {
    /// The messages that were to be delivered.
    pub closed spec fn messages(self) -> Seq<ChangeMessage> {
        self.messages@
    }

    /// How many of them were, from the front.
    pub closed spec fn spec_delivered(self) -> nat {
        self.delivered as nat
    }

    /// Whether one of them failed.
    pub closed spec fn has_failed(self) -> bool {
        self.failed
    }

    #[verifier::type_invariant]
    spec fn delivered_are_among_messages(self) -> bool {
        self.delivered <= self.messages@.len()
    }

    /// Whether there is a message to be sent next.
    pub open spec fn goes_on(self) -> bool {
        !self.has_failed() && self.spec_delivered() < self.messages().len()
    }

    /// Starts to deliver `messages`.
    pub fn new(messages: Vec<ChangeMessage>) -> (flush: Self)
        ensures
            flush.messages() == messages@,
            flush.spec_delivered() == 0,
            !flush.has_failed(),
    {
        Flush { messages, delivered: 0, failed: false }
    }

    /// The message to be sent next. There is none once one has failed or all were delivered.
    pub fn next(&self) -> (message: Option<&ChangeMessage>)
        ensures
            message == if self.goes_on() {
                Some(&self.messages()[self.spec_delivered() as int])
            } else {
                None
            },
    {
        if self.failed || self.delivered >= self.messages.len() {
            None
        } else {
            Some(&self.messages[self.delivered])
        }
    }

    /// Whether `after` comes of this once it was taken in whether the next message was `sent`.
    pub open spec fn becomes(self, after: Self, sent: bool) -> bool {
        &&& after.messages() == self.messages()
        &&& after.spec_delivered() == self.spec_delivered() + if self.goes_on() && sent {
            1nat
        } else {
            0
        }
        &&& after.has_failed() == (self.has_failed() || self.goes_on() && !sent)
    }

    /// Takes in whether the next message was sent.
    pub fn record(&mut self, sent: bool)
        ensures
            old(self).becomes(*final(self), sent),
    {
        if !self.failed && self.delivered < self.messages.len() {
            if sent {
                self.delivered = self.delivered + 1;
            } else {
                self.failed = true;
            }
        }
    }

    /// How many messages were delivered, and are to be acknowledged.
    pub fn delivered(&self) -> (count: usize)
        ensures
            count == self.spec_delivered(),
            count <= self.messages().len(),
    {
        proof {
            use_type_invariant(self);
        }
        self.delivered
    }
}

/// How many of `results` are successes before the first failure.
pub open spec fn leading_successes(results: Seq<bool>) -> nat
    decreases results.len(),
{
    if results.len() == 0 {
        0
    } else {
        let before = leading_successes(results.drop_last());
        if before == results.len() - 1 && results.last() {
            before + 1
        } else {
            before
        }
    }
}

/// What is counted as delivered are the messages before the first that failed, and no others:
/// where `flush` goes from state to state by `results`, acknowledging the count leaves the first
/// message that failed at the front of the queue.
pub proof fn law_delivery_stops_at_the_first_failure(flush: Seq<Flush>, results: Seq<bool>)
    requires
        flush.len() == results.len() + 1,
        flush[0].spec_delivered() == 0,
        !flush[0].has_failed(),
        forall|i: int|
            0 <= i < results.len() ==> (#[trigger] flush[i]).becomes(flush[i + 1], results[i]),
    ensures
        flush.last().messages() == flush[0].messages(),
        flush.last().spec_delivered() == if leading_successes(results) < flush[0].messages().len() {
            leading_successes(results)
        } else {
            flush[0].messages().len()
        },
        without_first(flush[0].messages(), flush.last().spec_delivered()) == flush[0].messages().skip(
            flush.last().spec_delivered() as int,
        ),
{
    lemma_delivery(flush, results);
    assert(without_first(flush[0].messages(), flush.last().spec_delivered())
        =~= flush[0].messages().skip(flush.last().spec_delivered() as int));
}

proof fn lemma_delivery(flush: Seq<Flush>, results: Seq<bool>)
    requires
        flush.len() == results.len() + 1,
        flush[0].spec_delivered() == 0,
        !flush[0].has_failed(),
        forall|i: int|
            0 <= i < results.len() ==> (#[trigger] flush[i]).becomes(flush[i + 1], results[i]),
    ensures
        leading_successes(results) <= results.len(),
        flush.last().messages() == flush[0].messages(),
        flush.last().spec_delivered() == if leading_successes(results) < flush[0].messages().len() {
            leading_successes(results)
        } else {
            flush[0].messages().len()
        },
        flush.last().has_failed() <==> leading_successes(results) < results.len()
            && leading_successes(results) < flush[0].messages().len(),
    decreases results.len(),
{
    if results.len() > 0 {
        let before = flush.drop_last();
        assert forall|i: int| 0 <= i < results.len() - 1 implies (#[trigger] before[i]).becomes(
            before[i + 1],
            results.drop_last()[i],
        ) by {
            assert(flush[i].becomes(flush[i + 1], results[i]));
        }
        lemma_delivery(before, results.drop_last());
        let i = results.len() - 1;
        assert(flush[i].becomes(flush[i + 1], results[i]));
        assert(before.last() == flush[i]);
    }
}

/// A queue never gets longer than the limit. The message that was appended is its last, and
/// before it stand the newest of the earlier messages, in order: all of them, or as many as fit.
pub proof fn law_newest_messages_are_kept(queue: Seq<ChangeMessage>, message: ChangeMessage)
    ensures
        with_message(queue, message).len() <= MAX_QUEUED_PER_PEER,
        with_message(queue, message).last() == message,
        with_message(queue, message).is_suffix_of(queue.push(message)),
        with_message(queue, message).len() == queue.len() + 1 || with_message(queue, message).len()
            == MAX_QUEUED_PER_PEER,
{
    let kept = with_message(queue, message);
    let longer = queue.push(message);
    assert(longer.subrange(longer.len() - kept.len(), longer.len() as int) =~= kept);
}

/// Each peer has a queue file of its own: the files of two peers in one directory are different
/// ones. This holds of portable directories and of ids without separators and colons.
pub proof fn law_peers_have_files_of_their_own(
    dir: Seq<char>,
    peer_id: Seq<char>,
    other_id: Seq<char>,
    path: Seq<char>,
    other_path: Seq<char>,
)
    requires
        path::is_portable(dir),
        is_file_safe(peer_id),
        is_file_safe(other_id),
        peer_id != other_id,
        path::is_joined(path, dir, file_name(peer_id)),
        path::is_joined(other_path, dir, file_name(other_id)),
    ensures
        path != other_path,
{
    let name = file_name(peer_id);
    let other_name = file_name(other_id);
    lemma_queue_path(dir, peer_id, path);
    lemma_queue_path(dir, other_id, other_path);
    if path == other_path {
        let start = if dir.len() == 0 || dir.last() == '/' {
            dir.len() as int
        } else {
            (dir.len() + 1) as int
        };
        assert(path.skip(start) =~= name);
        assert(other_path.skip(start) =~= other_name);
        assert(name.take(peer_id.len() as int) =~= peer_id);
        assert(other_name.take(other_id.len() as int) =~= other_id);
        assert(peer_id.len() == other_id.len());
    }
}

/// Whether a file can be called after `peer_id`: it holds no separator and no colon.
pub open spec fn is_file_safe(peer_id: Seq<char>) -> bool {
    !peer_id.contains('/') && !peer_id.contains('\\') && !peer_id.contains(':')
}

proof fn lemma_queue_path(dir: Seq<char>, peer_id: Seq<char>, path: Seq<char>)
    requires
        path::is_portable(dir),
        is_file_safe(peer_id),
        path::is_joined(path, dir, file_name(peer_id)),
    ensures
        path == dir + file_name(peer_id) && (dir.len() == 0 || dir.last() == '/') || exists|
            separator: char,
        |
            path == #[trigger] dir.push(separator) + file_name(peer_id) && !(dir.len() == 0
                || dir.last() == '/'),
{
    let name = file_name(peer_id);
    reveal_strlit(".jsonl");
    assert forall|i: int| 0 <= i < name.len() implies name[i] != '/' && name[i] != '\\' && name[i]
        != ':' by {
        if i < peer_id.len() {
            assert(name[i] == peer_id[i]);
            assert(peer_id.contains(peer_id[i]));
        } else {
            assert(name[i] == ".jsonl"@[i - peer_id.len()]);
        }
    }
    assert(path::is_portable(name));
    path::lemma_portable('/', dir);
    path::lemma_portable('\\', dir);
    path::lemma_portable('/', name);
    path::lemma_portable('\\', name);
    assert(dir.len() > 0 ==> dir.contains(dir.last()));
    if path == path::joined_text('/', dir, name) {
        assert(path == path::glued('/', '/', dir, name));
    } else {
        assert(path == path::glued('\\', '\\', dir, name));
    }
}

/// As long as the queue is not full, its file only grows: a message is appended as a line of its
/// own behind the text that was there.
pub proof fn law_message_is_appended_to_the_file(queue: Seq<ChangeMessage>, message: ChangeMessage)
    requires
        queue.len() < MAX_QUEUED_PER_PEER,
    ensures
        file_text(with_message(queue, message)) == file_text(queue) + message.json() + seq!['\n'],
{
    assert(queue.push(message).drop_last() =~= queue);
}

/// A message that was appended is pending, behind all others, as long as it is not too old.
pub proof fn law_queued_message_is_pending(
    queue: Seq<ChangeMessage>,
    message: ChangeMessage,
    now: Timestamp,
)
    requires
        is_fresh(message.timestamp, now),
    ensures
        fresh_part(with_message(queue, message), now).len() > 0,
        fresh_part(with_message(queue, message), now).last() == message,
{
    let kept = with_message(queue, message);
    reveal(Seq::filter);
    assert(kept.last() == message);
}

/// What is pending is not too old, and nothing more is dropped by looking at it again.
pub proof fn law_pending_messages_are_fresh(queue: Seq<ChangeMessage>, now: Timestamp)
    ensures
        forall|i: int|
            0 <= i < fresh_part(queue, now).len() ==> is_fresh(
                (#[trigger] fresh_part(queue, now)[i]).timestamp,
                now,
            ),
        fresh_part(fresh_part(queue, now), now) == fresh_part(queue, now),
    decreases queue.len(),
{
    reveal(Seq::filter);
    if queue.len() > 0 {
        let earlier = fresh_part(queue.drop_last(), now);
        law_pending_messages_are_fresh(queue.drop_last(), now);
        if is_fresh(queue.last().timestamp, now) {
            assert(fresh_part(queue, now) == earlier.push(queue.last()));
            assert(fresh_part(queue, now).drop_last() =~= earlier);
        }
    }
}

/// Pruning drops nothing but what is too old: every message of the queue that is not is still
/// there.
pub proof fn law_fresh_messages_stay(queue: Seq<ChangeMessage>, now: Timestamp, i: int)
    requires
        0 <= i < queue.len(),
        is_fresh(queue[i].timestamp, now),
    ensures
        fresh_part(queue, now).contains(queue[i]),
    decreases queue.len(),
{
    reveal(Seq::filter);
    let earlier = fresh_part(queue.drop_last(), now);
    if i == queue.len() - 1 {
        assert(fresh_part(queue, now).last() == queue[i]);
    } else {
        law_fresh_messages_stay(queue.drop_last(), now, i);
        let j = choose|j: int| 0 <= j < earlier.len() && earlier[j] == queue[i];
        assert(fresh_part(queue, now)[j] == queue[i]);
    }
}

/// Acknowledging some messages and then some more is acknowledging all of them at once, in order
/// from the front.
pub proof fn law_messages_are_acknowledged_in_order(
    queue: Seq<ChangeMessage>,
    first: nat,
    second: nat,
)
    ensures
        without_first(without_first(queue, first), second) == without_first(queue, first + second),
{
    assert(without_first(without_first(queue, first), second) =~= without_first(
        queue,
        first + second,
    ));
}

/// Once every message is acknowledged the queue has no file.
pub proof fn law_delivered_queue_has_no_file(
    file: QueueFile,
    dir: Seq<char>,
    peer_id: Seq<char>,
    queue: Seq<ChangeMessage>,
    count: nat,
)
    requires
        stores(file, dir, peer_id, without_first(queue, count)),
        count >= queue.len(),
    ensures
        file is Remove,
{
}

/// A queue that was written is read back, where `parse` reads the JSON of its messages.
pub proof fn law_written_queue_reads_back<P>(
    queue: Seq<ChangeMessage>,
    parse: P,
    read: Seq<ChangeMessage>,
) where P: Fn(&str) -> Option<ChangeMessage>
    requires
        forall|i: int, line: &str, message: Option<ChangeMessage>|
            0 <= i < queue.len() && line@ == #[trigger] queue[i].json() && #[trigger] parse.ensures(
                (line,),
                message,
            ) ==> message == Some(queue[i]),
        is_read_from(read, file_text(queue), parse),
    ensures
        read == queue,
{
    lemma_lines_of_file_text(queue);
    let parsed = choose|parsed: Seq<Option<ChangeMessage>>|
        {
            &&& read == #[trigger] readable(parsed)
            &&& parsed.len() == text::lines_of(file_text(queue)).len()
            &&& forall|i: int|
                0 <= i < parsed.len() ==> parses_to(
                    parse,
                    text::lines_of(file_text(queue))[i],
                    #[trigger] parsed[i],
                )
        };
    assert forall|i: int| 0 <= i < parsed.len() implies #[trigger] parsed[i] == Some(queue[i]) by {
        assert(text::lines_of(file_text(queue))[i] == queue[i].json());
    }
    lemma_readable_of_all(parsed, queue);
}

proof fn lemma_readable_of_all(parsed: Seq<Option<ChangeMessage>>, queue: Seq<ChangeMessage>)
    requires
        parsed.len() == queue.len(),
        forall|i: int| 0 <= i < parsed.len() ==> #[trigger] parsed[i] == Some(queue[i]),
    ensures
        readable(parsed) == queue,
    decreases parsed.len(),
{
    if parsed.len() > 0 {
        lemma_readable_of_all(parsed.drop_last(), queue.drop_last());
        assert(parsed.last() == Some(queue.last()));
        assert(queue.drop_last().push(queue.last()) =~= queue);
    } else {
        assert(readable(parsed) =~= queue);
    }
}

/// The lines of a queue file are the JSON of its messages.
proof fn lemma_lines_of_file_text(queue: Seq<ChangeMessage>)
    ensures
        text::lines_of(file_text(queue)) == queue.map_values(|message: ChangeMessage| message.json()),
        queue.len() > 0 ==> file_text(queue).len() > 0 && file_text(queue).last() == '\n',
    decreases queue.len(),
{
    let json_of = |message: ChangeMessage| message.json();
    if queue.len() == 0 {
        assert(text::lines_of(file_text(queue)) =~= queue.map_values(json_of));
    } else {
        let earlier = queue.drop_last();
        lemma_lines_of_file_text(earlier);
        protocol::lemma_json_is_one_line(queue.last());
        text::lemma_lines_of_longer_text(file_text(earlier), queue.last().json());
        assert(queue.map_values(json_of) =~= earlier.map_values(json_of).push(queue.last().json()));
    }
}

/// A message is fresh for seven days, 604800 seconds to the nanosecond: exactly where its time is not
/// before the moment that long before `now`. Within a leap second the count starts from the second
/// behind it.
pub proof fn law_message_is_fresh_for_seven_days(sent: Timestamp, now: Timestamp)
    ensures
        now.spec_nanoseconds() < 1_000_000_000 ==> (is_fresh(sent, now) <==> sent.spec_seconds()
            + 604_800 > now.spec_seconds() || sent.spec_seconds() + 604_800 == now.spec_seconds()
            && sent.spec_nanoseconds() >= now.spec_nanoseconds()),
        now.spec_nanoseconds() >= 1_000_000_000 ==> (is_fresh(sent, now) <==> sent.spec_seconds()
            + 604_800 > now.spec_seconds() + 1 || sent.spec_seconds() + 604_800
            == now.spec_seconds() + 1 && sent.spec_nanoseconds() + 1_000_000_000
            >= now.spec_nanoseconds()),
{
}

/// A message that is sent later, or looked at earlier, is no less fresh. Within a leap second nothing
/// is said of looking earlier.
pub proof fn law_newer_messages_are_no_less_fresh(
    sent: Timestamp,
    sent_later: Timestamp,
    now: Timestamp,
    earlier: Timestamp,
)
    requires
        is_fresh(sent, now),
        sent_later.not_before(sent),
        now.not_before(earlier),
        earlier.spec_nanoseconds() < 1_000_000_000,
    ensures
        is_fresh(sent_later, now),
        is_fresh(sent, earlier),
{
}

/// A message of any moment from seven days ago to now is pending, wherever it stands in the queue.
pub proof fn law_messages_of_the_last_week_are_pending(
    queue: Seq<ChangeMessage>,
    now: Timestamp,
    i: int,
)
    requires
        0 <= i < queue.len(),
        now.spec_nanoseconds() < 1_000_000_000,
        now.spec_seconds() - 604_800 < queue[i].timestamp.spec_seconds() <= now.spec_seconds(),
    ensures
        fresh_part(queue, now).contains(queue[i]),
{
    law_fresh_messages_stay(queue, now, i);
}

/// Just the messages of the last seven days are pending, in the order of the queue: those at the places
/// `places`, among which a place is exactly where the message that stands there is not older.
pub proof fn law_just_the_fresh_messages_are_pending(queue: Seq<ChangeMessage>, now: Timestamp)
    requires
        now.spec_nanoseconds() < 1_000_000_000,
    ensures
        exists|places: Seq<int>|
            {
                &&& #[trigger] places.len() == fresh_part(queue, now).len()
                &&& forall|k: int, l: int| 0 <= k < l < places.len() ==> places[k] < places[l]
                &&& forall|k: int|
                    0 <= k < places.len() ==> 0 <= #[trigger] places[k] < queue.len()
                        && fresh_part(queue, now)[k] == queue[places[k]]
                &&& forall|i: int|
                    0 <= i < queue.len() ==> (places.contains(i) <==> {
                        let sent = (#[trigger] queue[i]).timestamp;
                        ||| sent.spec_seconds() > now.spec_seconds() - 604_800
                        ||| sent.spec_seconds() == now.spec_seconds() - 604_800
                            && sent.spec_nanoseconds() >= now.spec_nanoseconds()
                    })
            },
{
    let keep = |message: ChangeMessage| is_fresh(message.timestamp, now);
    let places = lemma_filter_places(queue, keep);
    assert(places.len() == fresh_part(queue, now).len());
    assert forall|i: int| 0 <= i < queue.len() implies (places.contains(i) <==> {
        let sent = (#[trigger] queue[i]).timestamp;
        ||| sent.spec_seconds() > now.spec_seconds() - 604_800
        ||| sent.spec_seconds() == now.spec_seconds() - 604_800 && sent.spec_nanoseconds()
            >= now.spec_nanoseconds()
    }) by {
        assert(keep(queue[i]) == is_fresh(queue[i].timestamp, now));
    }
}

/// The places of the items that a filter keeps.
proof fn lemma_filter_places<T>(items: Seq<T>, keep: spec_fn(T) -> bool) -> (places: Seq<int>)
    ensures
        places.len() == items.filter(keep).len(),
        forall|k: int, l: int| 0 <= k < l < places.len() ==> places[k] < places[l],
        forall|k: int|
            0 <= k < places.len() ==> 0 <= #[trigger] places[k] < items.len() && items.filter(keep)[k]
                == items[places[k]],
        forall|i: int| 0 <= i < items.len() ==> (places.contains(i) <==> keep(#[trigger] items[i])),
    decreases items.len(),
{
    reveal(Seq::filter);
    if items.len() == 0 {
        Seq::empty()
    } else {
        let last = items.len() - 1;
        let less = items.drop_last();
        let earlier = lemma_filter_places(less, keep);
        if keep(items[last]) {
            let places = earlier.push(last);
            assert forall|i: int| 0 <= i < items.len() implies (places.contains(i) <==> keep(
                #[trigger] items[i],
            )) by {
                if i < last {
                    assert(less[i] == items[i]);
                    if earlier.contains(i) {
                        let k = choose|k: int| 0 <= k < earlier.len() && earlier[k] == i;
                        assert(places[k] == i);
                    }
                    if places.contains(i) {
                        let k = choose|k: int| 0 <= k < places.len() && places[k] == i;
                        assert(earlier[k] == i);
                    }
                } else {
                    assert(places[earlier.len() as int] == last);
                }
            }
            assert forall|k: int| 0 <= k < places.len() implies 0 <= #[trigger] places[k] < items.len()
                && items.filter(keep)[k] == items[places[k]] by {
                if k < earlier.len() {
                    assert(earlier[k] == places[k]);
                }
            }
            assert forall|k: int, l: int| 0 <= k < l < places.len() implies places[k] < places[l] by {
                if l == earlier.len() {
                    assert(earlier[k] < last);
                }
            }
            places
        } else {
            assert forall|i: int| 0 <= i < items.len() implies (earlier.contains(i) <==> keep(
                #[trigger] items[i],
            )) by {
                if i < last {
                    assert(less[i] == items[i]);
                } else if earlier.contains(i) {
                    let k = choose|k: int| 0 <= k < earlier.len() && earlier[k] == i;
                    assert(earlier[k] < last);
                }
            }
            earlier
        }
    }
}

/// At most 500 messages wait. The last of a queue is the one that was appended, and before it stand
/// those that were the last before, each as far from the end as it was, and one more.
pub proof fn law_queue_keeps_the_last_five_hundred(queue: Seq<ChangeMessage>, message: ChangeMessage)
    ensures
        ({
            let kept = with_message(queue, message);
            &&& queue.len() < 500 ==> kept.len() == queue.len() + 1
            &&& queue.len() >= 500 ==> kept.len() == 500
            &&& kept[kept.len() - 1] == message
            &&& forall|k: int|
                1 <= k < kept.len() ==> #[trigger] kept[kept.len() - 1 - k] == queue[queue.len() - k]
        }),
{
    let kept = with_message(queue, message);
    let longer = queue.push(message);
    assert forall|k: int| 1 <= k < kept.len() implies #[trigger] kept[kept.len() - 1 - k]
        == queue[queue.len() - k] by {
        assert(kept[kept.len() - 1 - k] == longer[longer.len() - 1 - k]);
    }
}

/// Acknowledging takes messages off the front: the rest stands as it did, that many places further
/// on. Nothing is left where as many are acknowledged as there are, or more.
pub proof fn law_acknowledged_messages_leave_from_the_front(queue: Seq<ChangeMessage>, count: nat)
    ensures
        count <= queue.len() ==> without_first(queue, count).len() + count == queue.len(),
        count >= queue.len() ==> without_first(queue, count).len() == 0,
        forall|i: int|
            count <= i < queue.len() ==> without_first(queue, count)[i - count] == #[trigger] queue[i],
{
}

/// A queue file is the lines of its messages, one behind the other: that of two queues is one text
/// behind the other, and that of a single message is its JSON and a line feed.
pub proof fn law_queue_file_is_its_messages_in_order(
    first: Seq<ChangeMessage>,
    second: Seq<ChangeMessage>,
    message: ChangeMessage,
)
    ensures
        file_text(first + second) == file_text(first) + file_text(second),
        file_text(seq![message]) == message.json() + seq!['\n'],
        file_text(Seq::empty()) == Seq::<char>::empty(),
    decreases second.len(),
{
    assert(seq![message].drop_last() =~= Seq::<ChangeMessage>::empty());
    assert(file_text(seq![message].drop_last()) =~= Seq::<char>::empty());
    assert(file_text(seq![message]) =~= message.json() + seq!['\n']);
    if second.len() == 0 {
        assert(first + second =~= first);
        assert(file_text(first) + file_text(second) =~= file_text(first));
    } else {
        let both = first + second;
        law_queue_file_is_its_messages_in_order(first, second.drop_last(), message);
        assert(both.drop_last() =~= first + second.drop_last());
        assert(file_text(both) =~= file_text(first) + file_text(second));
    }
}

/// The queue file of a peer is called after its id, and ends in `.jsonl`.
pub proof fn law_queue_file_is_named_after_the_peer(peer_id: Seq<char>)
    ensures
        file_name(peer_id) == peer_id + seq!['.', 'j', 's', 'o', 'n', 'l'],
{
    reveal_strlit(".jsonl");
    assert(".jsonl"@ =~= seq!['.', 'j', 's', 'o', 'n', 'l']);
}

/// What is stored is the queue: no file where it is empty, and otherwise a file with one line for each
/// message, its JSON, in order. Either way the file is the one of the peer in the directory.
pub proof fn law_stored_file_has_a_line_for_each_message(
    file: QueueFile,
    dir: Seq<char>,
    peer_id: Seq<char>,
    queue: Seq<ChangeMessage>,
)
    requires
        stores(file, dir, peer_id, queue),
    ensures
        file is Remove <==> queue.len() == 0,
        match file {
            QueueFile::Remove { path } => path::is_joined(
                path@,
                dir,
                peer_id + seq!['.', 'j', 's', 'o', 'n', 'l'],
            ),
            QueueFile::Write { path, contents } => {
                &&& path::is_joined(path@, dir, peer_id + seq!['.', 'j', 's', 'o', 'n', 'l'])
                &&& contents@.last() == '\n'
                &&& text::lines_of(contents@).len() == queue.len()
                &&& forall|i: int|
                    0 <= i < queue.len() ==> #[trigger] text::lines_of(contents@)[i]
                        == queue[i].json()
            },
        },
{
    law_queue_file_is_named_after_the_peer(peer_id);
    lemma_lines_of_file_text(queue);
}

/// Reading a queue file skips the lines that cannot be read and nothing else. Of what `parse` makes of
/// each line, which comes out as the second part, the messages are those at the places in the first
/// part, in order; a place is among these exactly where the line that stands there could be read.
pub proof fn law_only_unreadable_lines_are_skipped<P>(
    queue: Seq<ChangeMessage>,
    contents: Seq<char>,
    parse: P,
) -> (found: (Seq<int>, Seq<Option<ChangeMessage>>)) where P: Fn(&str) -> Option<ChangeMessage>
    requires
        is_read_from(queue, contents, parse),
    ensures
        found.0.len() == queue.len(),
        found.1.len() == text::lines_of(contents).len(),
        forall|i: int|
            0 <= i < found.1.len() ==> parses_to(
                parse,
                text::lines_of(contents)[i],
                #[trigger] found.1[i],
            ),
        forall|k: int, l: int| 0 <= k < l < found.0.len() ==> found.0[k] < found.0[l],
        forall|k: int|
            0 <= k < found.0.len() ==> 0 <= #[trigger] found.0[k] < found.1.len()
                && found.1[found.0[k]] == Some(queue[k]),
        forall|i: int|
            0 <= i < found.1.len() ==> (found.0.contains(i) <==> (#[trigger] found.1[i]) is Some),
{
    let parsed = choose|parsed: Seq<Option<ChangeMessage>>|
        {
            &&& queue == #[trigger] readable(parsed)
            &&& parsed.len() == text::lines_of(contents).len()
            &&& forall|i: int|
                0 <= i < parsed.len() ==> parses_to(
                    parse,
                    text::lines_of(contents)[i],
                    #[trigger] parsed[i],
                )
        };
    let keep = |message: Option<ChangeMessage>| message is Some;
    let places = lemma_filter_places(parsed, keep);
    lemma_readable_is_filtered(parsed);
    assert forall|k: int| 0 <= k < places.len() implies 0 <= #[trigger] places[k] < parsed.len()
        && parsed[places[k]] == Some(queue[k]) by {
        assert(parsed.filter(keep)[k] == Some(queue[k]));
    }
    assert forall|i: int| 0 <= i < parsed.len() implies (places.contains(i) <==> (
    #[trigger] parsed[i]) is Some) by {
        assert(keep(parsed[i]) == parsed[i] is Some);
    }
    (places, parsed)
}

/// Where `parse` reads a line in one way only, that is what it is read as.
pub proof fn law_line_is_what_it_is_read_as<P>(
    parse: P,
    line: Seq<char>,
    parsed: Option<ChangeMessage>,
    only: Option<ChangeMessage>,
) where P: Fn(&str) -> Option<ChangeMessage>
    requires
        parses_to(parse, line, parsed),
        forall|text: &str, read: Option<ChangeMessage>|
            text@ == line && #[trigger] parse.ensures((text,), read) ==> read == only,
    ensures
        parsed == only,
{
}

proof fn lemma_readable_is_filtered(parsed: Seq<Option<ChangeMessage>>)
    ensures
        ({
            let kept = parsed.filter(|message: Option<ChangeMessage>| message is Some);
            &&& kept.len() == readable(parsed).len()
            &&& forall|k: int| 0 <= k < kept.len() ==> #[trigger] kept[k] == Some(readable(parsed)[k])
        }),
    decreases parsed.len(),
{
    reveal(Seq::filter);
    if parsed.len() > 0 {
        lemma_readable_is_filtered(parsed.drop_last());
    }
}

/// All results before the count are successes, and the one at the count, if there is one, is a failure.
pub proof fn law_successes_end_at_the_first_failure(results: Seq<bool>)
    ensures
        leading_successes(results) <= results.len(),
        forall|i: int| 0 <= i < leading_successes(results) ==> #[trigger] results[i],
        leading_successes(results) < results.len() ==> !results[leading_successes(results) as int],
    decreases results.len(),
{
    if results.len() > 0 {
        let less = results.drop_last();
        law_successes_end_at_the_first_failure(less);
        let count = leading_successes(less);
        assert forall|i: int| 0 <= i < leading_successes(results) implies #[trigger] results[i] by {
            if i < count {
                assert(less[i]);
            }
        }
        if count < less.len() {
            assert(!less[count as int]);
        }
    }
}

/// As long as none has failed and some are left, a message that was sent counts as delivered, and one
/// that was not ends the delivery. After that, or once all are delivered, nothing changes.
pub proof fn law_delivery_goes_message_by_message(before: Flush, after: Flush, sent: bool)
    requires
        before.becomes(after, sent),
    ensures
        before.goes_on() <==> !before.has_failed() && before.spec_delivered()
            < before.messages().len(),
        after.messages() == before.messages(),
        !before.has_failed() && before.spec_delivered() < before.messages().len() && sent
            ==> after.spec_delivered() == before.spec_delivered() + 1 && !after.has_failed(),
        !before.has_failed() && before.spec_delivered() < before.messages().len() && !sent
            ==> after.spec_delivered() == before.spec_delivered() && after.has_failed(),
        before.has_failed() || before.spec_delivered() >= before.messages().len()
            ==> after.spec_delivered() == before.spec_delivered() && after.has_failed()
            == before.has_failed(),
{
}

} // verus!
