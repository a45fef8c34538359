//! The framing protocol: start marker, 4-byte sequence counter, encoded
//! command, terminator byte.
//!
//! Each endpoint keeps two 4-byte counters, one per direction. The send
//! counter is stamped into every outgoing frame and then stepped as an
//! odometer: the least significant byte is incremented modulo 255 (so each
//! byte ranges over `0..=254`), carrying into the next byte when it wraps.
//! On reception a candidate counter is accepted exactly when it is not older
//! than the stored one under byte-lexicographic comparison (equal counters
//! are accepted); stale frames are dropped without touching the stored
//! counter.
//!
//! Reading and writing the transport stays outside this crate: `reception`
//! works over the byte window a read produced, and `send` hands back the
//! frame bytes to write.

use vstd::prelude::*;

use crate::codec::{spec_decode, spec_encode, Command};
use crate::scan::{first_stop, lemma_first_stop, lemma_first_stop_is, lemma_first_stop_none, stops,
    Stop};

verus! {

/// Frame start marker.
pub const MARKER: u8 = 1;

/// Frame terminator.
pub const TERMINATOR: u8 = 0;

/// The outcome of one reception attempt. Only `Disconnection` is terminal
/// for the connection; the others mean "nothing useful arrived this poll".
#[derive(Copy, Clone, Debug, PartialEq, Eq, Structural)]
pub enum ProtocolError {
    /// The peer closed cleanly: the window ended before marker, counter and
    /// at least one body byte arrived.
    Disconnection,
    /// The caller's read could not line up marker and terminator; produced
    /// by the I/O shell when a read fails outside the counter bytes.
    WrongSequence,
    /// The frame's counter is older than the last accepted one.
    OutdatedPackage,
    /// The caller's read broke off inside the counter bytes; produced by the
    /// I/O shell for read errors other than a clean end of stream.
    IllFormattedSequenceNumber,
}

/// Per-connection framing state: the last accepted reception counter and the
/// next send counter, both starting at zero.
#[derive(Debug)]
pub struct Protocol {
    pub last_reception: [u8; 4],
    pub last_send: [u8; 4],
}

/// Byte-lexicographic comparison of two 4-byte counters, most significant
/// byte first: true when `b` is not older than `a`.
pub open spec fn seq_le(a: Seq<u8>, b: Seq<u8>) -> bool {
    if a[0] != b[0] {
        a[0] < b[0]
    } else if a[1] != b[1] {
        a[1] < b[1]
    } else if a[2] != b[2] {
        a[2] < b[2]
    } else {
        a[3] <= b[3]
    }
}

/// One odometer step of a single counter byte: increment modulo 255, so the
/// byte ranges over `0..=254` and wrapping to zero signals a carry.
pub open spec fn inc_byte(b: u8) -> u8 {
    ((b + 1) % 255) as u8
}

/// One odometer step of the whole 4-byte counter: increment the least
/// significant byte, carrying into the next byte on each wrap to zero.
pub open spec fn inc4(s: Seq<u8>) -> Seq<u8> {
    let s3 = s.update(3, inc_byte(s[3]));
    if inc_byte(s[3]) != 0 {
        s3
    } else {
        let s2 = s3.update(2, inc_byte(s[2]));
        if inc_byte(s[2]) != 0 {
            s2
        } else {
            let s1 = s2.update(1, inc_byte(s[1]));
            if inc_byte(s[1]) != 0 {
                s1
            } else {
                s1.update(0, inc_byte(s[0]))
            }
        }
    }
}

/// The counter after `n` odometer steps.
pub open spec fn inc4n(s: Seq<u8>, n: nat) -> Seq<u8>
    decreases n,
{
    if n == 0 {
        s
    } else {
        inc4(inc4n(s, (n - 1) as nat))
    }
}

/// The bytes of one frame: marker, counter snapshot, encoded command,
/// terminator.
pub open spec fn frame_bytes(counter: Seq<u8>, c: Command) -> Seq<u8> {
    seq![MARKER] + counter + spec_encode(c) + seq![TERMINATOR]
}

/// How many body bytes a reception attempt takes from `rest`: up to and
/// including the first terminator, or all of `rest` if there is none.
pub open spec fn body_span(rest: Seq<u8>) -> int {
    if first_stop(Stop::Terminator, rest) < rest.len() {
        first_stop(Stop::Terminator, rest) + 1
    } else {
        rest.len() as int
    }
}

/// The outcome of one reception attempt over the byte window `s`, given the
/// stored counter `last`: the result, and the counter afterwards.
///
/// Everything before the first marker is noise and skipped. A window that
/// ends before marker, counter and at least one body byte arrive reads as a
/// closed peer. A candidate counter older than `last` is rejected without
/// updating `last`; otherwise the body (terminator dropped) is decoded.
pub open spec fn spec_reception(last: Seq<u8>, s: Seq<u8>) -> (Result<Command, ProtocolError>, Seq<
    u8,
>) {
    let mp = first_stop(Stop::Marker, s);
    if mp + 5 > s.len() {
        (Err(ProtocolError::Disconnection), last)
    } else {
        let sq = s.subrange(mp + 1, mp + 5);
        let rest = s.skip(mp + 5);
        let blen = body_span(rest);
        if !seq_le(last, sq) {
            (Err(ProtocolError::OutdatedPackage), last)
        } else if blen == 0 {
            (Err(ProtocolError::Disconnection), sq)
        } else {
            (Ok(spec_decode(rest.take(blen - 1))), sq)
        }
    }
}

/// Whole-stack round-trip law: a frame built for a well-formed command meant
/// for the wire, stamped with a counter the receiver still accepts, is
/// received as exactly that command, and the receiver's stored counter
/// becomes the frame's.
pub proof fn lemma_frame_roundtrip(last: Seq<u8>, counter: Seq<u8>, c: Command)
    requires
        c.wf(),
        c.sendable(),
        counter.len() == 4,
        seq_le(last, counter),
    ensures
        spec_reception(last, frame_bytes(counter, c)) == (
            Ok::<Command, ProtocolError>(c),
            counter,
        ),
{
    let s = frame_bytes(counter, c);
    let enc = spec_encode(c);
    crate::codec::lemma_encode_no_zero(c);
    crate::codec::lemma_encode_decode_roundtrip(c);
    // The marker is the very first byte, so nothing is skipped.
    assert(s[0] == MARKER);
    lemma_first_stop_is(Stop::Marker, s, 0);
    assert(s.subrange(1, 5) =~= counter);
    let rest = s.skip(5);
    assert(rest =~= enc + seq![TERMINATOR]);
    // The body ends exactly at the terminator the frame carries: an encoded
    // command holds no zero byte.
    assert(rest[enc.len() as int] == TERMINATOR);
    assert forall|j: int| 0 <= j < enc.len() implies !stops(Stop::Terminator, rest[j]) by {
        assert(rest[j] == enc[j]);
    }
    lemma_first_stop_is(Stop::Terminator, rest, enc.len() as int);
    assert(rest.take(body_span(rest) - 1) =~= enc);
}

/// A successfully received command is well-formed: it came out of the
/// decoder, which only builds well-formed commands.
pub proof fn lemma_reception_wf(last: Seq<u8>, s: Seq<u8>)
    ensures
        match spec_reception(last, s).0 {
            Ok(c) => c.wf(),
            Err(_) => true,
        },
{
    lemma_first_stop(Stop::Marker, s);
    let mp = first_stop(Stop::Marker, s);
    if mp + 5 <= s.len() {
        let sq = s.subrange(mp + 1, mp + 5);
        let rest = s.skip(mp + 5);
        lemma_first_stop(Stop::Terminator, rest);
        let blen = body_span(rest);
        if seq_le(last, sq) && blen > 0 {
            crate::codec::lemma_decode_wf(rest.take(blen - 1));
        }
    }
}

/// Position of the first marker byte, or the end of the buffer.
fn find_marker(bytes: &[u8]) -> (i: usize)
    ensures
        0 <= i <= bytes@.len(),
        i == first_stop(Stop::Marker, bytes@),
{
    let mut i: usize = 0;
    while i < bytes.len()
        invariant
            0 <= i <= bytes@.len(),
            forall|j: int| 0 <= j < i ==> !stops(Stop::Marker, #[trigger] bytes@[j]),
        decreases bytes@.len() - i,
    {
        if bytes[i] == MARKER {
            proof {
                lemma_first_stop_is(Stop::Marker, bytes@, i as int);
            }
            return i;
        }
        i = i + 1;
    }
    proof {
        lemma_first_stop_none(Stop::Marker, bytes@);
    }
    i
}

/// Position of the first terminator at or after `from`, or the end.
fn find_terminator(bytes: &[u8], from: usize) -> (i: usize)
    requires
        from <= bytes@.len(),
    ensures
        from <= i <= bytes@.len(),
        i - from == first_stop(Stop::Terminator, bytes@.skip(from as int)),
{
    let ghost s = bytes@.skip(from as int);
    let mut i: usize = from;
    while i < bytes.len()
        invariant
            from <= i <= bytes@.len(),
            s == bytes@.skip(from as int),
            forall|j: int| 0 <= j < i - from ==> !stops(Stop::Terminator, #[trigger] s[j]),
        decreases bytes@.len() - i,
    {
        proof {
            assert(s[i - from] == bytes@[i as int]);
        }
        if bytes[i] == TERMINATOR {
            proof {
                lemma_first_stop_is(Stop::Terminator, s, i - from);
            }
            return i;
        }
        i = i + 1;
    }
    proof {
        lemma_first_stop_none(Stop::Terminator, s);
    }
    i
}

/// Step one counter byte; reports whether it wrapped to zero (a carry).
fn increment_byte(target: &mut u8) -> (wrapped: bool)
    ensures
        *final(target) == inc_byte(*old(target)),
        wrapped == (*final(target) == 0),
{
    let v = ((*target as u16 + 1) % 255) as u8;
    *target = v;
    v == 0
}

/// Step the 4-byte odometer counter once.
fn increment_4_bytes(target: &mut [u8; 4])
    ensures
        final(target)@ == inc4(old(target)@),
{
    let mut b = target[3];
    let wrapped = increment_byte(&mut b);
    target[3] = b;
    if !wrapped {
        proof {
            assert(target@ =~= inc4(old(target)@));
        }
        return;
    }
    let mut b = target[2];
    let wrapped = increment_byte(&mut b);
    target[2] = b;
    if !wrapped {
        proof {
            assert(target@ =~= inc4(old(target)@));
        }
        return;
    }
    let mut b = target[1];
    let wrapped = increment_byte(&mut b);
    target[1] = b;
    if !wrapped {
        proof {
            assert(target@ =~= inc4(old(target)@));
        }
        return;
    }
    let mut b = target[0];
    let _ = increment_byte(&mut b);
    target[0] = b;
    proof {
        assert(target@ =~= inc4(old(target)@));
    }
}

impl Protocol {
    /// Fresh per-connection state: both counters all zero.
    pub fn new() -> (r: Self)
        ensures
            r.last_reception@ == seq![0u8, 0u8, 0u8, 0u8],
            r.last_send@ == seq![0u8, 0u8, 0u8, 0u8],
    {
        let r = Protocol { last_reception: [0; 4], last_send: [0; 4] };
        proof {
            assert(r.last_reception@ =~= seq![0u8, 0u8, 0u8, 0u8]);
            assert(r.last_send@ =~= seq![0u8, 0u8, 0u8, 0u8]);
        }
        r
    }

    /// True when the stored counter `a` is not newer than the candidate `b`,
    /// comparing byte by byte from the most significant byte.
    pub fn lower_4_bytes(a: &[u8; 4], b: &[u8; 4]) -> (r: bool)
        ensures
            r == seq_le(a@, b@),
    {
        let mut i: usize = 0;
        while i < 4
            invariant
                0 <= i <= 4,
                forall|j: int| 0 <= j < i ==> a@[j] == b@[j],
            decreases 4 - i,
        {
            if a[i] < b[i] {
                return true;
            } else if a[i] > b[i] {
                return false;
            }
            i = i + 1;
        }
        true
    }

    /// Steps 4 to 6 of a reception: the staleness check against the stored
    /// counter, the empty-body disconnection check, and the decode of the
    /// body with its trailing byte dropped. `body` holds everything read up
    /// to and including the terminator (or to the end of the stream).
    pub fn accept(&mut self, counter: &[u8; 4], body: &[u8]) -> (r: Result<Command, ProtocolError>)
        ensures
            final(self).last_send == old(self).last_send,
            !seq_le(old(self).last_reception@, counter@) ==> r == Err::<Command, ProtocolError>(
                ProtocolError::OutdatedPackage,
            ) && final(self).last_reception == old(self).last_reception,
            seq_le(old(self).last_reception@, counter@) ==> final(self).last_reception@ == counter@
                && (if body@.len() == 0 {
                r == Err::<Command, ProtocolError>(ProtocolError::Disconnection)
            } else {
                r == Ok::<Command, ProtocolError>(spec_decode(body@.take(body@.len() - 1)))
            }),
    {
        if !Self::lower_4_bytes(&self.last_reception, counter) {
            return Err(ProtocolError::OutdatedPackage);
        }
        self.last_reception = *counter;
        if body.len() == 0 {
            return Err(ProtocolError::Disconnection);
        }
        let trimmed = vstd::slice::slice_subrange(body, 0, body.len() - 1);
        proof {
            assert(trimmed@ =~= body@.take(body@.len() - 1));
        }
        Ok(Command::decode(trimmed))
    }

    /// One reception attempt over the byte window `input`: skip to the
    /// marker, take the 4-byte counter, take the body up to the terminator,
    /// then check staleness and decode as `spec_reception` says.
    pub fn reception(&mut self, input: &[u8]) -> (r: Result<Command, ProtocolError>)
        ensures
            r == spec_reception(old(self).last_reception@, input@).0,
            final(self).last_reception@ == spec_reception(old(self).last_reception@, input@).1,
            final(self).last_send == old(self).last_send,
    {
        let n = input.len();
        let mp = find_marker(input);
        if n - mp < 5 {
            return Err(ProtocolError::Disconnection);
        }
        let counter: [u8; 4] = [input[mp + 1], input[mp + 2], input[mp + 3], input[mp + 4]];
        proof {
            assert(counter@ =~= input@.subrange(mp + 1, mp + 5));
        }
        let bstart = mp + 5;
        let t = find_terminator(input, bstart);
        let blen = if t < n {
            t + 1 - bstart
        } else {
            n - bstart
        };
        let body = vstd::slice::slice_subrange(input, bstart, bstart + blen);
        proof {
            let rest = input@.skip(bstart as int);
            assert(body@ =~= rest.take(body_span(rest)));
            if blen > 0 {
                assert(body@.take(body@.len() - 1) =~= rest.take(body_span(rest) - 1));
            }
        }
        self.accept(&counter, body)
    }

    /// Build the frame for `command`: marker, the current send counter, the
    /// encoded command, terminator. The counter is stepped exactly once,
    /// whether or not the caller manages to write the frame out.
    pub fn send(&mut self, command: &Command) -> (frame: Vec<u8>)
        requires
            command.wf(),
        ensures
            frame@ == frame_bytes(old(self).last_send@, *command),
            final(self).last_send@ == inc4(old(self).last_send@),
            final(self).last_reception == old(self).last_reception,
    {
        let mut frame: Vec<u8> = Vec::new();
        frame.push(MARKER);
        frame.push(self.last_send[0]);
        frame.push(self.last_send[1]);
        frame.push(self.last_send[2]);
        frame.push(self.last_send[3]);
        let mut body = command.as_bytes();
        frame.append(&mut body);
        frame.push(TERMINATOR);
        increment_4_bytes(&mut self.last_send);
        proof {
            assert(frame@ =~= frame_bytes(old(self).last_send@, *command));
        }
        frame
    }
}

} // verus!
