//! What one widget tells another: a BOARD of named values, not a bus.
//!
//! The topic is text and the payload is bytes. A published value is
//! RETAINED: it stands under its topic until it is replaced, so a reader
//! that starts late still reads it, and load order stops mattering.
//! Publishing never waits for anyone: a publisher writes and returns, a
//! reader picks the value up whenever it next asks. What a board does not
//! provide is history: a reader sees the LAST value, never the ones
//! before it.
//!
//! The board is the host's; an application holds one and every widget's
//! publish and read go to it.

use vstd::prelude::*;
use crate::seqs::{first_index, lemma_first_index_bound, lemma_first_index_unique};
use crate::text::{chars_of, eq_in};

verus! {

/// The longest topic, in bytes. A topic is a constant in somebody's
/// source, never user input, so anything longer is a bug, not a use.
pub const CHANNEL_TOPIC_MAX: usize = 256;
/// The largest payload, in bytes.
pub const CHANNEL_VALUE_MAX: usize = 65536;
/// How many topics one board holds.
pub const CHANNEL_TOPICS_MAX: usize = 256;

/// A value read off the board, with the sequence number it was published
/// under.
#[derive(Clone, PartialEq, Eq, Debug)]
pub struct Message {
    pub data: Vec<u8>,
    /// Counts from 1 for a topic's first value. 0, which never appears
    /// here, is what [`seq`] answers for a topic nobody has ever
    /// published to.
    pub seq: u64,
}

/// One topic and what stands under it.
struct Slot {
    topic: Vec<char>,
    data: Vec<u8>,
    seq: u64,
}

/// The board itself: every topic ever published to, in order of first
/// publication, each with its last value.
pub struct ChannelBoard {
    slots: Vec<Slot>,
}

/// The sequence number after `s`: one more, stepping over 0 — which is
/// reserved for "never published" — should the counter ever wrap.
pub open spec fn next_seq(s: u64) -> u64 {
    if s == u64::MAX {
        1
    } else {
        (s + 1) as u64
    }
}

/// A topic a caller may have meant: not empty and not absurdly long.
pub open spec fn topic_accepted(topic: &str) -> bool {
    topic@.len() > 0 && topic.len() <= CHANNEL_TOPIC_MAX
}

impl ChannelBoard {
    spec fn topics(&self) -> Seq<Seq<char>> {
        self.slots@.map_values(|s: Slot| s.topic@)
    }

    /// The board is well formed: no topic stands twice, every sequence
    /// number is at least 1, every payload is within bounds and there are
    /// never more topics than the board holds.
    pub closed spec fn wf(&self) -> bool {
        &&& forall|i: int, j: int|
            0 <= i < j < self.slots@.len() ==> self.slots@[i].topic@ != self.slots@[j].topic@
        &&& forall|i: int| 0 <= i < self.slots@.len() ==> #[trigger] self.slots@[i].seq >= 1
        &&& forall|i: int|
            0 <= i < self.slots@.len() ==> (#[trigger] self.slots@[i]).data@.len()
                <= CHANNEL_VALUE_MAX
        &&& self.slots@.len() <= CHANNEL_TOPICS_MAX
    }

    /// What stands under `topic`: the last payload and its sequence
    /// number, or nothing when nobody ever published there.
    pub closed spec fn value(&self, topic: Seq<char>) -> Option<(Seq<u8>, u64)> {
        let k = first_index(self.topics(), topic);
        if k < self.slots@.len() {
            Some((self.slots@[k as int].data@, self.slots@[k as int].seq))
        } else {
            None
        }
    }

    /// How many topics stand on the board.
    pub closed spec fn count(&self) -> nat {
        self.slots@.len()
    }

    /// An empty board.
    pub fn new() -> (b: ChannelBoard)
        ensures
            b.wf(),
            b.count() == 0,
            forall|t: Seq<char>| b.value(t) is None,
    {
        ChannelBoard { slots: Vec::new() }
    }

    /// On a well-formed board a standing value is numbered at least 1 and
    /// its payload is within bounds; the board never holds more topics
    /// than it may.
    pub proof fn lemma_standing(&self, t: Seq<char>)
        requires
            self.wf(),
        ensures
            self.count() <= CHANNEL_TOPICS_MAX,
            match self.value(t) {
                Some((d, s)) => s >= 1 && d.len() <= CHANNEL_VALUE_MAX,
                None => true,
            },
    {
        let ts = self.topics();
        lemma_first_index_bound(ts, t);
        let k = first_index(ts, t);
        if k < self.slots@.len() {
            assert(self.slots@[k as int].seq >= 1);
        }
    }

    proof fn lemma_value(&self, k: int)
        requires
            self.wf(),
            0 <= k < self.slots@.len(),
        ensures
            self.value(self.slots@[k].topic@) == Some((self.slots@[k].data@, self.slots@[k].seq)),
    {
        let ts = self.topics();
        assert(ts[k] == self.slots@[k].topic@);
        lemma_first_index_unique(ts, self.slots@[k].topic@, k);
    }

    proof fn lemma_absent(&self, t: Seq<char>)
        requires
            forall|i: int| 0 <= i < self.slots@.len() ==> self.slots@[i].topic@ != t,
        ensures
            self.value(t) is None,
    {
        let ts = self.topics();
        lemma_first_index_bound(ts, t);
        if first_index(ts, t) < ts.len() {
            assert(ts[first_index(ts, t) as int] == self.slots@[first_index(ts, t) as int].topic@);
        }
    }

    /// The slot holding `topic`, if any.
    fn slot_of(&self, topic: &Vec<char>) -> (r: Option<usize>)
        requires
            self.wf(),
        ensures
            match r {
                Some(k) => k < self.slots@.len() && self.slots@[k as int].topic@ == topic@,
                None => self.value(topic@) is None,
            },
    {
        let mut i: usize = 0;
        while i < self.slots.len()
            invariant
                i <= self.slots@.len(),
                forall|j: int| 0 <= j < i ==> self.slots@[j].topic@ != topic@,
            decreases self.slots.len() - i,
        {
            let s = &self.slots[i];
            if eq_in(&s.topic, 0, s.topic.len(), topic) {
                assert(s.topic@.subrange(0, s.topic@.len() as int) == s.topic@);
                return Some(i);
            }
            assert(s.topic@.subrange(0, s.topic@.len() as int) == s.topic@);
            i += 1;
        }
        proof {
            self.lemma_absent(topic@);
        }
        None
    }
}

/// Whether `topic` is one a caller may have meant.
fn topic_ok(topic: &str) -> (b: bool)
    ensures
        b == topic_accepted(topic),
{
    !topic.is_empty() && topic.len() <= CHANNEL_TOPIC_MAX
}

/// What publishing `data` under `topic` does to a board, and what it
/// answers: the topic's new sequence number, or 0 when refused — an
/// empty or over-long topic, a payload past [`CHANNEL_VALUE_MAX`], or a
/// new topic on a board already holding [`CHANNEL_TOPICS_MAX`]. A
/// refusal changes nothing; a value is never evicted to make room.
pub open spec fn publish_post(
    before: ChannelBoard,
    after: ChannelBoard,
    topic: &str,
    data: Seq<u8>,
    r: u64,
) -> bool {
    let t = topic@;
    let unchanged = after.count() == before.count() && forall|u: Seq<char>|
        #[trigger] after.value(u) == before.value(u);
    let stored = |s: u64|
        {
            &&& r == s
            &&& after.value(t) == Some((data, s))
            &&& forall|u: Seq<char>| u != t ==> #[trigger] after.value(u) == before.value(u)
        };
    if !topic_accepted(topic) || data.len() > CHANNEL_VALUE_MAX {
        r == 0 && unchanged
    } else {
        match before.value(t) {
            Some((_, s)) => stored(next_seq(s)) && after.count() == before.count(),
            None => if before.count() >= CHANNEL_TOPICS_MAX {
                r == 0 && unchanged
            } else {
                stored(1) && after.count() == before.count() + 1
            },
        }
    }
}

/// States `data` under `topic`, replacing whatever stood there, and
/// answers the topic's new sequence number; 0 means the call was refused
/// and nothing changed. Returns as soon as the value is written.
pub fn publish(board: &mut ChannelBoard, topic: &str, data: &[u8]) -> (r: u64)
    requires
        old(board).wf(),
    ensures
        final(board).wf(),
        publish_post(*old(board), *final(board), topic, data@, r),
{
    if !topic_ok(topic) || data.len() > CHANNEL_VALUE_MAX {
        return 0;
    }
    let t = chars_of(topic);
    match board.slot_of(&t) {
        Some(k) => {
            let ghost before = *board;
            proof {
                before.lemma_value(k as int);
            }
            let old_seq = board.slots[k].seq;
            let seq = if old_seq == u64::MAX {
                1
            } else {
                old_seq + 1
            };
            let slot = Slot { topic: t, data: vstd::slice::slice_to_vec(data), seq };
            board.slots.set(k, slot);
            proof {
                assert(before.topics() == board.topics());
                board.lemma_value(k as int);
                assert forall|u: Seq<char>| u != topic@ implies #[trigger] board.value(u)
                    == before.value(u) by {
                    let ts = board.topics();
                    lemma_first_index_bound(ts, u);
                    let f = first_index(ts, u);
                    if f < ts.len() {
                        assert(ts[f as int] == board.slots@[f as int].topic@);
                        assert(f != k);
                    }
                }
            }
            seq
        },
        None => {
            if board.slots.len() >= CHANNEL_TOPICS_MAX {
                return 0;
            }
            let ghost before = *board;
            let slot = Slot { topic: t, data: vstd::slice::slice_to_vec(data), seq: 1 };
            board.slots.push(slot);
            proof {
                let n = before.slots@.len();
                assert(board.slots@[n as int].topic@ == topic@);
                assert forall|i: int, j: int|
                    0 <= i < j < board.slots@.len() implies board.slots@[i].topic@
                    != board.slots@[j].topic@ by {
                    if j == n {
                        assert(board.slots@[i] == before.slots@[i]);
                        assert(before.slots@[i].topic@ != topic@) by {
                            if before.slots@[i].topic@ == topic@ {
                                before.lemma_value(i);
                            }
                        }
                    } else {
                        assert(board.slots@[i] == before.slots@[i]);
                        assert(board.slots@[j] == before.slots@[j]);
                    }
                }
                assert forall|i: int| 0 <= i < board.slots@.len() implies #[trigger] board.slots@[i].seq >= 1 by {
                    if i < n {
                        assert(board.slots@[i] == before.slots@[i]);
                    }
                }
                assert forall|i: int| 0 <= i < board.slots@.len() implies (#[trigger] board.slots@[i]).data@.len()
                    <= CHANNEL_VALUE_MAX by {
                    if i < n {
                        assert(board.slots@[i] == before.slots@[i]);
                    }
                }
                board.lemma_value(n as int);
                assert forall|u: Seq<char>| u != topic@ implies #[trigger] board.value(u)
                    == before.value(u) by {
                    let ts = board.topics();
                    let ts0 = before.topics();
                    lemma_first_index_bound(ts, u);
                    lemma_first_index_bound(ts0, u);
                    let f = first_index(ts, u);
                    let f0 = first_index(ts0, u);
                    if f < n {
                        assert(ts[f as int] == before.slots@[f as int].topic@);
                        assert(ts0[f as int] == ts[f as int]);
                        assert forall|i: int| 0 <= i < f implies ts0[i] != u by {
                            assert(ts0[i] == ts[i]);
                        }
                        crate::seqs::lemma_first_index(ts0, u, f as int);
                    } else {
                        assert(f >= n);
                        if f0 < n {
                            assert(ts[f0 as int] == ts0[f0 as int]);
                        }
                        if f == n {
                            assert(ts[n as int] == topic@);
                        }
                    }
                }
            }
            1
        },
    }
}

/// Copies the value under `topic` into `buf`, answering its FULL length
/// and the topic's sequence number — the full length rather than what
/// was written, so a caller can tell a truncation from a fit. A `seq` of
/// 0 means nothing was ever published under this topic, which is how an
/// absent value and an empty one stay different things.
pub fn read_into(board: &ChannelBoard, topic: &str, buf: &mut [u8]) -> (r: (usize, u64))
    requires
        board.wf(),
    ensures
        match board.value(topic@) {
            None => r == (0usize, 0u64) && final(buf)@ == old(buf)@,
            Some((d, s)) => {
                let n = if old(buf)@.len() < d.len() {
                    old(buf)@.len()
                } else {
                    d.len()
                };
                &&& r == (d.len() as usize, s)
                &&& final(buf)@ == d.take(n as int) + old(buf)@.skip(n as int)
            },
        },
{
    let t = chars_of(topic);
    match board.slot_of(&t) {
        None => (0, 0),
        Some(k) => {
            proof {
                board.lemma_value(k as int);
            }
            let s = &board.slots[k];
            let n = if buf.len() < s.data.len() {
                buf.len()
            } else {
                s.data.len()
            };
            let ghost b0 = buf@;
            let mut i: usize = 0;
            while i < n
                invariant
                    i <= n <= buf@.len(),
                    n <= s.data@.len(),
                    buf@.len() == b0.len(),
                    forall|j: int| 0 <= j < i ==> buf@[j] == s.data@[j],
                    forall|j: int| i <= j < buf@.len() ==> buf@[j] == b0[j],
                decreases n - i,
            {
                buf[i] = s.data[i];
                i += 1;
            }
            assert(buf@ =~= s.data@.take(n as int) + b0.skip(n as int));
            (s.data.len(), s.seq)
        },
    }
}

/// The sequence number standing under `topic`, and nothing else: 0 when
/// nothing was ever published there. The cheap half of [`read_into`].
pub fn seq(board: &ChannelBoard, topic: &str) -> (r: u64)
    requires
        board.wf(),
    ensures
        r == match board.value(topic@) {
            Some((_, s)) => s,
            None => 0,
        },
{
    let mut empty: [u8; 0] = [];
    read_into(board, topic, &mut empty).1
}

/// The value under `topic`, allocated. None when nothing was ever
/// published there.
pub fn read(board: &ChannelBoard, topic: &str) -> (r: Option<Message>)
    requires
        board.wf(),
    ensures
        match board.value(topic@) {
            Some((d, s)) => r matches Some(m) && m.data@ == d && m.seq == s,
            None => r is None,
        },
{
    let t = chars_of(topic);
    match board.slot_of(&t) {
        None => None,
        Some(k) => {
            proof {
                board.lemma_value(k as int);
            }
            let s = &board.slots[k];
            let mut data: Vec<u8> = Vec::new();
            let mut i: usize = 0;
            while i < s.data.len()
                invariant
                    i <= s.data@.len(),
                    data@ == s.data@.take(i as int),
                decreases s.data.len() - i,
            {
                data.push(s.data[i]);
                assert(s.data@.take(i + 1) == s.data@.take(i as int).push(s.data@[i as int]));
                i += 1;
            }
            assert(s.data@.take(s.data@.len() as int) == s.data@);
            Some(Message { data, seq: s.seq })
        },
    }
}

/// A published value stands under its topic until that topic is written
/// again: publishing under any other topic leaves it exactly as it was.
pub proof fn law_value_stands_until_replaced(
    b0: ChannelBoard,
    b1: ChannelBoard,
    b2: ChannelBoard,
    topic: &str,
    data: Seq<u8>,
    r1: u64,
    other: &str,
    other_data: Seq<u8>,
    r2: u64,
)
    requires
        publish_post(b0, b1, topic, data, r1),
        r1 != 0,
        publish_post(b1, b2, other, other_data, r2),
        other@ != topic@,
    ensures
        b2.value(topic@) == Some((data, r1)),
{
}

/// Replacing a value steps its sequence number, so a reader can tell
/// "changed" from "unchanged" without comparing payloads; the new value
/// is what stands.
pub proof fn law_replacing_steps_the_sequence(
    b0: ChannelBoard,
    b1: ChannelBoard,
    b2: ChannelBoard,
    topic: &str,
    first: Seq<u8>,
    r1: u64,
    second: Seq<u8>,
    r2: u64,
)
    requires
        publish_post(b0, b1, topic, first, r1),
        r1 != 0,
        publish_post(b1, b2, topic, second, r2),
        second.len() <= CHANNEL_VALUE_MAX,
    ensures
        r2 == next_seq(r1),
        r2 != 0,
        b2.value(topic@) == Some((second, r2)),
{
}

/// A topic's first value is numbered 1, which is what makes 0 usable as
/// "nobody has ever spoken here".
pub proof fn law_first_value_is_one(
    b0: ChannelBoard,
    b1: ChannelBoard,
    topic: &str,
    data: Seq<u8>,
    r: u64,
)
    requires
        b0.value(topic@) is None,
        publish_post(b0, b1, topic, data, r),
        r != 0,
    ensures
        r == 1,
        b1.value(topic@) == Some((data, 1u64)),
{
}

/// A refused publication answers 0 and changes nothing; an accepted one
/// never answers 0.
pub proof fn law_refusal_changes_nothing(
    b0: ChannelBoard,
    b1: ChannelBoard,
    topic: &str,
    data: Seq<u8>,
    r: u64,
)
    requires
        publish_post(b0, b1, topic, data, r),
    ensures
        r != 0 ==> b1.value(topic@) == Some((data, r)),
        r == 0 ==> b1.count() == b0.count() && forall|u: Seq<char>| b1.value(u) == b0.value(u),
{
}

/// A publication is refused exactly at the limits: an empty or
/// over-long topic, a payload past [`CHANNEL_VALUE_MAX`], or a topic
/// nobody has spoken on (its sequence number is 0) while the board
/// already holds [`CHANNEL_TOPICS_MAX`] topics. A full board evicts
/// nothing: a refusal leaves every topic answering as before.
pub proof fn law_refused_exactly_at_the_limits(
    b0: ChannelBoard,
    b1: ChannelBoard,
    topic: &str,
    data: Seq<u8>,
    r: u64,
)
    requires
        b0.wf(),
        publish_post(b0, b1, topic, data, r),
    ensures
        (r == 0) == (!topic_accepted(topic) || data.len() > CHANNEL_VALUE_MAX || (b0.value(topic@) is None
            && b0.count() >= CHANNEL_TOPICS_MAX)),
        r == 0 ==> forall|u: Seq<char>| b1.value(u) == b0.value(u),
{
    b0.lemma_standing(topic@);
}

} // verus!
