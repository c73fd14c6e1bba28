//! The framed control protocol codec: a stateful decoder that segments an
//! unbounded byte stream into command payloads, and a one-pass encoder.
//!
//! A frame is `SOH STX <byte-stuffed payload> ETX <checksum> EOT`. Reserved
//! bytes inside the payload are preceded by a `0x20` escape byte; the
//! checksum is the XOR of the unescaped payload bytes and is transmitted but
//! not verified on decode, for wire compatibility.
use vstd::prelude::*;

use crate::command::{
    command_decode_error, command_fits, command_matches, command_record, payload_decodes,
    ChimeraSessionCommand, CommandError,
};

verus! {

/// Errors surfaced by the stream codec.
#[derive(Clone, Copy, Debug, PartialEq, Eq, Structural)]
pub enum StreamCommandError {
    /// A payload was framed correctly but carries no valid command.
    SerializationError(CommandError),
    /// The byte stream violates the framing rules.
    ParserError,
}

/// True of the bytes that cannot appear unescaped inside a payload.
pub open spec fn is_reserved(d: u8) -> bool {
    d == 0x01u8 || d == 0x02u8 || d == 0x03u8 || d == 0x04u8 || d == 0x20u8
}

/// The stuffed form of one payload byte.
pub open spec fn stuff_byte(d: u8) -> Seq<u8> {
    if is_reserved(d) {
        seq![0x20u8, d]
    } else {
        seq![d]
    }
}

/// Byte-stuffing of a whole payload.
pub open spec fn stuffed(p: Seq<u8>) -> Seq<u8>
    decreases p.len(),
{
    if p.len() == 0 {
        Seq::<u8>::empty()
    } else {
        stuff_byte(p[0]) + stuffed(p.drop_first())
    }
}

/// XOR checksum of the unescaped payload bytes.
pub open spec fn xor_of(p: Seq<u8>) -> u8
    decreases p.len(),
{
    if p.len() == 0 {
        0u8
    } else {
        xor_of(p.drop_last()) ^ p.last()
    }
}

/// The complete frame for a payload.
pub open spec fn frame_of(p: Seq<u8>) -> Seq<u8> {
    seq![0x01u8, 0x02u8] + stuffed(p) + seq![0x03u8, xor_of(p), 0x04u8]
}

/// True when the buffer holds an EOT byte, the decoder's cue to parse.
pub open spec fn contains_eot(s: Seq<u8>) -> bool {
    exists|i: int| 0 <= i < s.len() && s[i] == 0x04u8
}

/// One step of the payload section of the frame grammar: consumes bytes
/// until an unescaped ETX, returning the unstuffed payload and what follows
/// the ETX, or nothing if the section is malformed or the buffer ends.
pub open spec fn parse_text(s: Seq<u8>, acc: Seq<u8>, escape: bool) -> Option<(Seq<u8>, Seq<u8>)>
    decreases s.len(),
{
    if s.len() == 0 {
        None
    } else {
        let d = s[0];
        if escape {
            parse_text(s.drop_first(), acc.push(d), false)
        } else if d == 0x01u8 || d == 0x02u8 || d == 0x04u8 {
            None
        } else if d == 0x03u8 {
            Some((acc, s.drop_first()))
        } else if d == 0x20u8 {
            parse_text(s.drop_first(), acc, true)
        } else {
            parse_text(s.drop_first(), acc.push(d), false)
        }
    }
}

/// Parses one frame from the front of the buffer: the payload and the bytes
/// after the frame's EOT, or nothing on any framing violation, a missing
/// checksum or EOT included.
pub open spec fn parse_frame(s: Seq<u8>) -> Option<(Seq<u8>, Seq<u8>)> {
    if s.len() < 2 || s[0] != 0x01u8 || s[1] != 0x02u8 {
        None
    } else {
        match parse_text(s.skip(2), Seq::<u8>::empty(), false) {
            None => None,
            Some(t) => if t.1.len() >= 2 && t.1[1] == 0x04u8 {
                Some((t.0, t.1.skip(2)))
            } else {
                None
            },
        }
    }
}

/// The decoder's whole parse pass: while an EOT is in the buffer, one frame
/// is taken from the front; the payloads and the leftover bytes come back,
/// or nothing once any frame is malformed.
pub open spec fn frames_decode(buf: Seq<u8>) -> Option<(Seq<Seq<u8>>, Seq<u8>)>
    decreases buf.len(),
{
    if !contains_eot(buf) {
        Some((Seq::<Seq<u8>>::empty(), buf))
    } else {
        match parse_frame(buf) {
            None => None,
            Some(t) => if t.1.len() < buf.len() {
                match frames_decode(t.1) {
                    None => None,
                    Some(u) => Some((seq![t.0] + u.0, u.1)),
                }
            } else {
                None
            },
        }
    }
}

/// Resynchronization: the bytes from the first SOH on, or nothing.
pub open spec fn drop_leading(s: Seq<u8>) -> Seq<u8>
    decreases s.len(),
{
    if s.len() == 0 {
        s
    } else if s[0] == 0x01u8 {
        s
    } else {
        drop_leading(s.drop_first())
    }
}

/// One step of the sliding reassembly window: the oldest byte is evicted
/// when the buffer is full.
pub open spec fn slide1(b: Seq<u8>, d: u8, limit: nat) -> Seq<u8> {
    if b.len() == limit - 1 {
        b.drop_first().push(d)
    } else {
        b.push(d)
    }
}

/// Appending a chunk through the sliding window.
pub open spec fn slide(b: Seq<u8>, d: Seq<u8>, limit: nat) -> Seq<u8>
    decreases d.len(),
{
    if d.len() == 0 {
        b
    } else {
        slide(slide1(b, d[0], limit), d.drop_first(), limit)
    }
}

/// The buffer the decoder parses after taking in a chunk.
pub open spec fn merged_buffer(remainder: Seq<u8>, data: Seq<u8>, limit: nat) -> Seq<u8> {
    slide(drop_leading(remainder), data, limit)
}

/// Prefixing already-delivered payloads onto a parse outcome.
pub open spec fn prepend_frames(ps: Seq<Seq<u8>>, r: Option<(Seq<Seq<u8>>, Seq<u8>)>) -> Option<
    (Seq<Seq<u8>>, Seq<u8>),
> {
    match r {
        None => None,
        Some(t) => Some((ps + t.0, t.1)),
    }
}

/// Index of the first payload that carries no command.
pub open spec fn first_undecodable(ps: Seq<Seq<u8>>) -> int
    decreases ps.len(),
{
    if ps.len() == 0 {
        0
    } else if !payload_decodes(ps[0]) {
        0
    } else {
        1 + first_undecodable(ps.drop_first())
    }
}

proof fn lemma_first_undecodable(ps: Seq<Seq<u8>>, i: int)
    requires
        0 <= i < ps.len(),
        forall|j: int| 0 <= j < i ==> payload_decodes(ps[j]),
        !payload_decodes(ps[i]),
    ensures
        first_undecodable(ps) == i,
    decreases i,
{
    if i == 0 {
    } else {
        assert(payload_decodes(ps[0]));
        assert(forall|j: int| 0 <= j < i - 1 ==> ps.drop_first()[j] == ps[j + 1]);
        lemma_first_undecodable(ps.drop_first(), i - 1);
    }
}

/// Mathematical view of a [`StreamCommand`] codec.
pub struct StreamCommandView {
    pub limit: nat,
    pub remainder: Seq<u8>,
}

/// The stateful stream codec: a bounded reassembly buffer and its capacity.
pub struct StreamCommand {
    limit: usize,
    remainder: Vec<u8>,
}

impl View for StreamCommand {
    type V = StreamCommandView;

    closed spec fn view(&self) -> StreamCommandView {
        StreamCommandView { limit: self.limit as nat, remainder: self.remainder@ }
    }
}

impl StreamCommand {
    /// The codec's standing invariant: the buffer never reaches its capacity.
    pub open spec fn wf(&self) -> bool {
        self@.limit >= 2 && self@.remainder.len() < self@.limit
    }

    /// Creates a codec with the given buffer capacity. A capacity under two
    /// leaves no room for the window to slide, so it is excluded.
    pub fn new(limit: usize) -> (r: StreamCommand)
        requires
            limit >= 2,
        ensures
            r.wf(),
            r@.limit == limit,
            r@.remainder == Seq::<u8>::empty(),
    {
        let remainder = Vec::<u8>::with_capacity(limit);
        StreamCommand { limit, remainder }
    }

    /// Drops all buffered bytes; the capacity is kept.
    pub fn reset(&mut self)
        ensures
            final(self)@.limit == old(self)@.limit,
            final(self)@.remainder == Seq::<u8>::empty(),
            old(self).wf() ==> final(self).wf(),
    {
        self.remainder.clear();
    }

    /// Encodes one payload as a complete frame, in a single pass.
    pub fn encode_payload(&self, payload: &[u8]) -> (r: Vec<u8>)
        ensures
            r@ == frame_of(payload@),
    {
        let mut out: Vec<u8> = Vec::new();
        out.push(0x01u8);
        out.push(0x02u8);
        let mut crc: u8 = 0;
        let mut i: usize = 0;
        while i < payload.len()
            invariant
                0 <= i <= payload@.len(),
                out@ == seq![0x01u8, 0x02u8] + stuffed(payload@.take(i as int)),
                crc == xor_of(payload@.take(i as int)),
            decreases payload@.len() - i,
        {
            let d = payload[i];
            if d == 0x01u8 || d == 0x02u8 || d == 0x03u8 || d == 0x04u8 || d == 0x20u8 {
                out.push(0x20u8);
            }
            out.push(d);
            proof {
                lemma_stuffed_snoc(payload@, i as int);
                assert(payload@.take(i as int + 1).drop_last() =~= payload@.take(i as int));
                assert(payload@.take(i as int + 1).last() == d);
                assert(out@ == seq![0x01u8, 0x02u8] + stuffed(payload@.take(i as int + 1)));
            }
            crc = crc ^ d;
            i = i + 1;
        }
        out.push(0x03u8);
        out.push(crc);
        out.push(0x04u8);
        proof {
            assert(payload@.take(payload@.len() as int) =~= payload@);
            assert(out@ =~= frame_of(payload@));
        }
        out
    }

    /// Feeds a chunk to the decoder and returns every complete payload now
    /// available, leaving partial frames buffered for the next call. A
    /// framing violation is reported as a parser error; the caller is
    /// expected to `reset` before continuing.
    #[verifier::loop_isolation(false)]
    pub fn decode_payloads(&mut self, data: &[u8]) -> (r: Result<Vec<Vec<u8>>, StreamCommandError>)
        requires
            old(self).wf(),
        ensures
            final(self).wf(),
            final(self)@.limit == old(self)@.limit,
            data@.len() == 0 ==> (r matches Ok(v) && v@.len() == 0 && final(self)@.remainder
                == old(self)@.remainder),
            data@.len() > 0 ==> (match frames_decode(
                merged_buffer(old(self)@.remainder, data@, old(self)@.limit),
            ) {
                Some(t) => r matches Ok(v) && v.deep_view() == t.0 && final(self)@.remainder
                    == t.1,
                None => r == Err::<Vec<Vec<u8>>, StreamCommandError>(
                    StreamCommandError::ParserError,
                ),
            }),
    {
        if data.len() == 0 {
            return Ok(Vec::new());
        }
        // Resynchronize: discard bytes up to the next frame start.
        while self.remainder.len() > 0 && self.remainder[0] != 0x01u8
            invariant
                self.limit == old(self).limit,
                self.remainder@.len() < self.limit,
                drop_leading(self.remainder@) == drop_leading(old(self)@.remainder),
            decreases self.remainder@.len(),
        {
            let ghost pre = self.remainder@;
            self.remainder.remove(0);
            proof {
                assert(self.remainder@ =~= pre.drop_first());
            }
        }
        proof {
            assert(drop_leading(self.remainder@) == self.remainder@);
        }
        // Take the chunk in through the sliding window.
        let ghost synced = self.remainder@;
        let mut i: usize = 0;
        while i < data.len()
            invariant
                0 <= i <= data@.len(),
                self.limit == old(self).limit,
                self.limit >= 2,
                self.remainder@.len() < self.limit,
                self.remainder@ == slide(synced, data@.take(i as int), self.limit as nat),
            decreases data@.len() - i,
        {
            let ghost pre = self.remainder@;
            if self.remainder.len() == self.limit - 1 {
                self.remainder.remove(0);
                proof {
                    assert(self.remainder@ =~= pre.drop_first());
                }
            }
            self.remainder.push(data[i]);
            proof {
                assert(self.remainder@ == slide1(pre, data@[i as int], self.limit as nat));
                lemma_slide_snoc(synced, data@, i as int, self.limit as nat);
            }
            i = i + 1;
        }
        proof {
            assert(data@.take(data@.len() as int) =~= data@);
        }
        let ghost merged = self.remainder@;
        // Parse complete frames from the front while an EOT is buffered.
        let mut out: Vec<Vec<u8>> = Vec::new();
        proof {
            assert(prepend_frames(out.deep_view(), frames_decode(merged)) == frames_decode(merged))
                by {
                match frames_decode(merged) {
                    None => {},
                    Some(t) => {
                        assert(out.deep_view() + t.0 =~= t.0);
                    },
                }
            }
        }
        while has_eot(&self.remainder)
            invariant
                self.limit == old(self).limit,
                self.limit >= 2,
                self.remainder@.len() < self.limit,
                prepend_frames(out.deep_view(), frames_decode(self.remainder@)) == frames_decode(
                    merged,
                ),
            decreases self.remainder@.len(),
        {
            match parse_one(&self.remainder) {
                Ok((payload, used)) => {
                    let ghost pre = self.remainder@;
                    let ghost pre_out = out.deep_view();
                    let ghost pv = payload@;
                    let tail = self.remainder.split_off(used);
                    self.remainder = tail;
                    out.push(payload);
                    proof {
                        assert(self.remainder@ =~= pre.skip(used as int));
                        assert(out.deep_view() =~~= pre_out.push(pv));
                        assert(frames_decode(pre) == prepend_frames(
                            seq![pv],
                            frames_decode(self.remainder@),
                        ));
                        match frames_decode(self.remainder@) {
                            None => {},
                            Some(u) => {
                                assert(pre_out + (seq![pv] + u.0) =~= pre_out.push(pv) + u.0);
                            },
                        }
                    }
                },
                Err(_) => {
                    return Err(StreamCommandError::ParserError);
                },
            }
        }
        proof {
            assert(!contains_eot(self.remainder@));
            match frames_decode(merged) {
                None => {
                    assert(false);
                },
                Some(t) => {
                    assert(out.deep_view() + Seq::<Seq<u8>>::empty() =~= out.deep_view());
                },
            }
        }
        Ok(out)
    }

    /// Encodes one command as a frame ready to be sent.
    pub fn encode(&self, value: &ChimeraSessionCommand) -> (r: Result<Vec<u8>, StreamCommandError>)
        ensures
            command_fits(*value) ==> (r matches Ok(v) && v@ == frame_of(command_record(*value))),
            !command_fits(*value) ==> r == Err::<Vec<u8>, StreamCommandError>(
                StreamCommandError::SerializationError(CommandError::OversizedRecord),
            ),
    {
        match value.encode_bytes() {
            Ok(payload) => Ok(self.encode_payload(payload.as_slice())),
            Err(e) => Err(StreamCommandError::SerializationError(e)),
        }
    }

    /// Feeds a chunk to the decoder and returns the commands of every
    /// complete frame, in order.
    #[verifier::loop_isolation(false)]
    pub fn decode(&mut self, data: &[u8]) -> (r: Result<
        Vec<ChimeraSessionCommand>,
        StreamCommandError,
    >)
        requires
            old(self).wf(),
        ensures
            final(self).wf(),
            final(self)@.limit == old(self)@.limit,
            data@.len() == 0 ==> (r matches Ok(v) && v@.len() == 0 && final(self)@.remainder
                == old(self)@.remainder),
            data@.len() > 0 ==> (match frames_decode(
                merged_buffer(old(self)@.remainder, data@, old(self)@.limit),
            ) {
                Some(t) => {
                    &&& (forall|j: int| 0 <= j < t.0.len() ==> payload_decodes(t.0[j]))
                        ==> (r matches Ok(cs) && cs@.len() == t.0.len() && (forall|j: int|
                        0 <= j < t.0.len() ==> command_matches(t.0[j], cs@[j])))
                    &&& !(forall|j: int| 0 <= j < t.0.len() ==> payload_decodes(t.0[j])) ==> r
                        == Err::<Vec<ChimeraSessionCommand>, StreamCommandError>(
                        StreamCommandError::SerializationError(
                            command_decode_error(t.0[first_undecodable(t.0)]),
                        ),
                    )
                    &&& final(self)@.remainder == t.1
                },
                None => r == Err::<Vec<ChimeraSessionCommand>, StreamCommandError>(
                    StreamCommandError::ParserError,
                ),
            }),
    {
        let payloads = match self.decode_payloads(data) {
            Ok(v) => v,
            Err(e) => {
                return Err(e);
            },
        };
        let mut out: Vec<ChimeraSessionCommand> = Vec::new();
        let mut i: usize = 0;
        while i < payloads.len()
            invariant
                0 <= i <= payloads@.len(),
                out@.len() == i,
                forall|j: int| 0 <= j < i ==> payload_decodes(payloads.deep_view()[j]),
                forall|j: int|
                    0 <= j < i ==> command_matches(payloads.deep_view()[j], out@[j]),
            decreases payloads@.len() - i,
        {
            proof {
                assert(payloads.deep_view()[i as int] =~= payloads@[i as int]@);
            }
            match ChimeraSessionCommand::decode_bytes(payloads[i].as_slice()) {
                Ok(c) => {
                    proof {
                        assert(command_matches(payloads.deep_view()[i as int], c));
                        crate::command::lemma_matches_implies_decodes(
                            payloads.deep_view()[i as int],
                            c,
                        );
                    }
                    out.push(c);
                },
                Err(e) => {
                    proof {
                        assert(!payload_decodes(payloads.deep_view()[i as int]));
                        lemma_first_undecodable(payloads.deep_view(), i as int);
                    }
                    return Err(StreamCommandError::SerializationError(e));
                },
            }
            i = i + 1;
        }
        Ok(out)
    }
}

impl Default for StreamCommand {
    /// A codec with the historical default capacity.
    fn default() -> (r: StreamCommand)
        ensures
            r.wf(),
            r@.limit == 1024,
            r@.remainder == Seq::<u8>::empty(),
    {
        StreamCommand::new(1024)
    }
}

/// Whether the buffer holds an EOT byte.
fn has_eot(v: &Vec<u8>) -> (b: bool)
    ensures
        b == contains_eot(v@),
{
    let mut i: usize = 0;
    while i < v.len()
        invariant
            0 <= i <= v@.len(),
            forall|j: int| 0 <= j < i ==> v@[j] != 0x04u8,
        decreases v@.len() - i,
    {
        if v[i] == 0x04u8 {
            return true;
        }
        i = i + 1;
    }
    false
}

/// Parses one frame from the front of the buffer, returning its payload and
/// the number of bytes consumed.
fn parse_one(buf: &Vec<u8>) -> (r: Result<(Vec<u8>, usize), StreamCommandError>)
    ensures
        match parse_frame(buf@) {
            Some(t) => r matches Ok(p) && p.0@ == t.0 && 1 <= p.1 <= buf@.len() && buf@.skip(
                p.1 as int,
            ) == t.1,
            None => r == Err::<(Vec<u8>, usize), StreamCommandError>(
                StreamCommandError::ParserError,
            ),
        },
{
    if buf.len() < 2 {
        return Err(StreamCommandError::ParserError);
    }
    if buf[0] != 0x01u8 || buf[1] != 0x02u8 {
        return Err(StreamCommandError::ParserError);
    }
    let mut acc: Vec<u8> = Vec::new();
    let mut escape: bool = false;
    let mut idx: usize = 2;
    while idx < buf.len()
        invariant
            2 <= idx <= buf@.len(),
            buf@.len() >= 2,
            buf@[0] == 0x01u8 && buf@[1] == 0x02u8,
            parse_text(buf@.skip(2), Seq::<u8>::empty(), false) == parse_text(
                buf@.skip(idx as int),
                acc@,
                escape,
            ),
        decreases buf@.len() - idx,
    {
        let d = buf[idx];
        proof {
            assert(buf@.skip(idx as int).len() > 0);
            assert(buf@.skip(idx as int)[0] == d);
            assert(buf@.skip(idx as int).drop_first() =~= buf@.skip(idx as int + 1));
        }
        if escape {
            acc.push(d);
            escape = false;
            idx = idx + 1;
        } else if d == 0x03u8 {
            // ETX reached: one checksum byte and an EOT must follow.
            let ghost rest = buf@.skip(idx as int + 1);
            if buf.len() - idx >= 3 {
                if buf[idx + 2] == 0x04u8 {
                    proof {
                        assert(rest.len() >= 2);
                        assert(rest[1] == buf@[idx as int + 2]);
                        assert(rest.skip(2) =~= buf@.skip(idx as int + 3));
                    }
                    return Ok((acc, idx + 3));
                } else {
                    return Err(StreamCommandError::ParserError);
                }
            } else {
                proof {
                    assert(rest.len() < 2);
                }
                return Err(StreamCommandError::ParserError);
            }
        } else if d == 0x01u8 || d == 0x02u8 || d == 0x04u8 {
            return Err(StreamCommandError::ParserError);
        } else if d == 0x20u8 {
            escape = true;
            idx = idx + 1;
        } else {
            acc.push(d);
            idx = idx + 1;
        }
    }
    proof {
        assert(buf@.skip(idx as int).len() == 0);
    }
    Err(StreamCommandError::ParserError)
}

/// Stuffing one more payload byte extends the stuffed form.
pub proof fn lemma_stuffed_snoc(p: Seq<u8>, i: int)
    requires
        0 <= i < p.len(),
    ensures
        stuffed(p.take(i + 1)) == stuffed(p.take(i)) + stuff_byte(p[i]),
    decreases i,
{
    if i == 0 {
        assert(p.take(0) =~= Seq::<u8>::empty());
        assert(p.take(1).drop_first() =~= Seq::<u8>::empty());
        assert(p.take(1)[0] == p[0]);
        assert(stuffed(p.take(1)) =~= stuffed(p.take(0)) + stuff_byte(p[0]));
    } else {
        let t = p.drop_first();
        lemma_stuffed_snoc(t, i - 1);
        assert(p.take(i + 1).drop_first() =~= t.take(i));
        assert(p.take(i).drop_first() =~= t.take(i - 1));
        assert(p.take(i + 1)[0] == p[0]);
        assert(p.take(i)[0] == p[0]);
        assert(t[i - 1] == p[i]);
        assert(stuffed(p.take(i + 1)) =~= stuffed(p.take(i)) + stuff_byte(p[i]));
    }
}

/// Extending a chunk feeds one more byte through the window.
pub proof fn lemma_slide_snoc(b: Seq<u8>, d: Seq<u8>, i: int, limit: nat)
    requires
        0 <= i < d.len(),
    ensures
        slide(b, d.take(i + 1), limit) == slide1(slide(b, d.take(i), limit), d[i], limit),
    decreases i,
{
    if i == 0 {
        assert(d.take(0) =~= Seq::<u8>::empty());
        assert(d.take(1).drop_first() =~= Seq::<u8>::empty());
        assert(d.take(1)[0] == d[0]);
        assert(slide(b, d.take(1), limit) == slide(
            slide1(b, d[0], limit),
            Seq::<u8>::empty(),
            limit,
        ));
        assert(slide(b, d.take(0), limit) == b);
    } else {
        lemma_slide_snoc(slide1(b, d[0], limit), d.drop_first(), i - 1, limit);
        assert(d.take(i + 1).drop_first() =~= d.drop_first().take(i));
        assert(d.take(i).drop_first() =~= d.drop_first().take(i - 1));
        assert(d.take(i + 1)[0] == d[0]);
        assert(d.take(i)[0] == d[0]);
        assert(d.drop_first()[i - 1] == d[i]);
        assert(slide(b, d.take(i + 1), limit) == slide(
            slide1(b, d[0], limit),
            d.drop_first().take(i),
            limit,
        ));
        assert(slide(b, d.take(i), limit) == slide(
            slide1(b, d[0], limit),
            d.drop_first().take(i - 1),
            limit,
        ));
    }
}

/// Escaping correctness: the byte-stuffed payload, followed by anything,
/// is consumed by the text parser without error, recovering exactly the
/// original payload bytes and leaving the trailer untouched.
pub proof fn lemma_parse_text_stuffed(p: Seq<u8>, acc: Seq<u8>, rest: Seq<u8>)
    ensures
        parse_text(stuffed(p) + rest, acc, false) == parse_text(rest, acc + p, false),
    decreases p.len(),
{
    if p.len() == 0 {
        assert(stuffed(p) + rest =~= rest);
        assert(acc + p =~= acc);
    } else {
        let d = p[0];
        let pt = p.drop_first();
        let s = stuffed(p) + rest;
        if is_reserved(d) {
            assert(s[0] == 0x20u8);
            assert(s.drop_first() =~= seq![d] + (stuffed(pt) + rest));
            let s2 = s.drop_first();
            assert(s2[0] == d);
            assert(s2.drop_first() =~= stuffed(pt) + rest);
            assert(parse_text(s, acc, false) == parse_text(s2, acc, true));
            assert(parse_text(s2, acc, true) == parse_text(s2.drop_first(), acc.push(d), false));
            lemma_parse_text_stuffed(pt, acc.push(d), rest);
            assert(acc.push(d) + pt =~= acc + p);
        } else {
            assert(s[0] == d);
            assert(!(d == 0x01u8 || d == 0x02u8 || d == 0x04u8) && d != 0x03u8 && d != 0x20u8);
            assert(s.drop_first() =~= stuffed(pt) + rest);
            assert(parse_text(s, acc, false) == parse_text(s.drop_first(), acc.push(d), false));
            lemma_parse_text_stuffed(pt, acc.push(d), rest);
            assert(acc.push(d) + pt =~= acc + p);
        }
    }
}

/// Round trip at the frame level: the frame of any payload parses back to
/// exactly that payload, with nothing left over and no error.
pub proof fn lemma_frame_decodes(p: Seq<u8>)
    ensures
        parse_frame(frame_of(p)) == Some((p, Seq::<u8>::empty())),
        frames_decode(frame_of(p)) == Some((seq![p], Seq::<u8>::empty())),
{
    let f = frame_of(p);
    let trailer = seq![0x03u8, xor_of(p), 0x04u8];
    assert(f.len() >= 5);
    assert(f[0] == 0x01u8);
    assert(f[1] == 0x02u8);
    assert(f.skip(2) =~= stuffed(p) + trailer);
    lemma_parse_text_stuffed(p, Seq::<u8>::empty(), trailer);
    assert(Seq::<u8>::empty() + p =~= p);
    assert(trailer[0] == 0x03u8);
    assert(parse_text(trailer, p, false) == Some((p, trailer.drop_first())));
    let rest = trailer.drop_first();
    assert(rest.len() == 2 && rest[1] == 0x04u8);
    assert(rest.skip(2) =~= Seq::<u8>::empty());
    assert(parse_frame(f) == Some((p, Seq::<u8>::empty())));
    assert(f[f.len() - 1] == 0x04u8);
    assert(contains_eot(f));
    assert(!contains_eot(Seq::<u8>::empty()));
    assert(frames_decode(Seq::<u8>::empty()) == Some(
        (Seq::<Seq<u8>>::empty(), Seq::<u8>::empty()),
    ));
    assert(seq![p] + Seq::<Seq<u8>>::empty() =~= seq![p]);
}

/// Round trip for commands: feeding the encoded frame of any encodable
/// command back to a decoder yields exactly that command's payload, which
/// in turn decodes, so `decode(encode(c))` returns `[c]`.
pub proof fn lemma_command_round_trip(c: ChimeraSessionCommand)
    requires
        command_fits(c),
    ensures
        frames_decode(frame_of(command_record(c))) == Some(
            (seq![command_record(c)], Seq::<u8>::empty()),
        ),
        payload_decodes(command_record(c)),
        command_matches(command_record(c), c),
{
    lemma_frame_decodes(command_record(c));
    match c {
        ChimeraSessionCommand::Terminate => {
            assert(command_record(c)[0] == 0u8);
        },
        ChimeraSessionCommand::Restart(e) => {
            assert(command_record(c)[0] == 1u8);
            assert(command_record(c).drop_first() =~= crate::record::session_record(
                e@.program,
                e@.arguments,
            ));
            assert(crate::record::some_record(command_record(c).drop_first()));
        },
    }
}

/// A stuffed payload holds no EOT byte unless the payload itself does.
proof fn lemma_stuffed_no_eot(p: Seq<u8>)
    requires
        forall|i: int| 0 <= i < p.len() ==> p[i] != 0x04u8,
    ensures
        forall|i: int| 0 <= i < stuffed(p).len() ==> stuffed(p)[i] != 0x04u8,
    decreases p.len(),
{
    if p.len() == 0 {
    } else {
        assert(forall|i: int| 0 <= i < p.drop_first().len() ==> p.drop_first()[i] != 0x04u8);
        lemma_stuffed_no_eot(p.drop_first());
        assert(forall|i: int|
            0 <= i < stuffed(p).len() ==> stuffed(p)[i] == (stuff_byte(p[0])
                + stuffed(p.drop_first()))[i]);
    }
}

/// Every byte of a frame before its final EOT differs from EOT, when the
/// payload holds no EOT byte and its checksum is not the EOT value.
pub proof fn lemma_frame_prefix_no_eot(p: Seq<u8>, j: int)
    requires
        forall|i: int| 0 <= i < p.len() ==> p[i] != 0x04u8,
        xor_of(p) != 0x04u8,
        0 <= j < frame_of(p).len(),
    ensures
        !contains_eot(frame_of(p).take(j)),
{
    let f = frame_of(p);
    lemma_stuffed_no_eot(p);
    assert forall|i: int| 0 <= i < f.len() - 1 implies f[i] != 0x04u8 by {
        if i >= 2 && i - 2 < stuffed(p).len() {
            assert(f[i] == stuffed(p)[i - 2]);
        }
    }
    assert(forall|i: int| 0 <= i < j ==> f.take(j)[i] == f[i]);
}

/// A byte that neither side of the window holds is not in the slid buffer.
proof fn lemma_slide_keeps(b: Seq<u8>, d: Seq<u8>, limit: nat, v: u8)
    requires
        limit >= 2,
        forall|i: int| 0 <= i < b.len() ==> b[i] != v,
        forall|i: int| 0 <= i < d.len() ==> d[i] != v,
    ensures
        forall|i: int| 0 <= i < slide(b, d, limit).len() ==> slide(b, d, limit)[i] != v,
    decreases d.len(),
{
    if d.len() == 0 {
    } else {
        let b2 = slide1(b, d[0], limit);
        assert(d[0] != v);
        assert forall|i: int| 0 <= i < b2.len() implies b2[i] != v by {
            if b.len() == limit - 1 {
                if i < b2.len() - 1 {
                    assert(b2[i] == b[i + 1]);
                } else {
                    assert(b2[i] == d[0]);
                }
            } else {
                if i < b2.len() - 1 {
                    assert(b2[i] == b[i]);
                } else {
                    assert(b2[i] == d[0]);
                }
            }
        }
        assert(forall|i: int| 0 <= i < d.drop_first().len() ==> d.drop_first()[i] != v);
        lemma_slide_keeps(b2, d.drop_first(), limit, v);
        assert(slide(b, d, limit) == slide(b2, d.drop_first(), limit));
    }
}

/// The sliding window keeps the buffer under its capacity.
pub proof fn lemma_slide_len(b: Seq<u8>, d: Seq<u8>, limit: nat)
    requires
        limit >= 2,
        b.len() < limit,
    ensures
        slide(b, d, limit).len() < limit,
    decreases d.len(),
{
    if d.len() == 0 {
    } else {
        assert(slide1(b, d[0], limit).len() < limit) by {
            if b.len() == limit - 1 {
                assert(slide1(b, d[0], limit).len() == b.len());
            } else {
                assert(slide1(b, d[0], limit).len() == b.len() + 1);
            }
        }
        lemma_slide_len(slide1(b, d[0], limit), d.drop_first(), limit);
    }
}

/// A buffer and chunk that fit pass through the window unchanged.
pub proof fn lemma_slide_small(b: Seq<u8>, d: Seq<u8>, limit: nat)
    requires
        b.len() + d.len() < limit,
    ensures
        slide(b, d, limit) == b + d,
    decreases d.len(),
{
    if d.len() == 0 {
        assert(b + d =~= b);
    } else {
        assert(b.len() != limit - 1);
        assert(slide1(b, d[0], limit) == b.push(d[0]));
        lemma_slide_small(b.push(d[0]), d.drop_first(), limit);
        assert(b.push(d[0]) + d.drop_first() =~= b + d);
    }
}

/// Resynchronization drops nothing from a buffer that starts at a frame.
proof fn lemma_drop_leading_soh(s: Seq<u8>)
    requires
        s.len() == 0 || s[0] == 0x01u8,
    ensures
        drop_leading(s) == s,
{
}

/// Resynchronization drops a buffer with no SOH entirely.
proof fn lemma_drop_leading_all(s: Seq<u8>)
    requires
        forall|i: int| 0 <= i < s.len() ==> s[i] != 0x01u8,
    ensures
        drop_leading(s) == Seq::<u8>::empty(),
    decreases s.len(),
{
    if s.len() == 0 {
        assert(s =~= Seq::<u8>::empty());
    } else {
        assert(forall|i: int| 0 <= i < s.drop_first().len() ==> s.drop_first()[i] != 0x01u8);
        lemma_drop_leading_all(s.drop_first());
    }
}

/// Bounded buffer: feeding bytes that never complete a frame yields no
/// commands and no error, and the buffer stays under its capacity, however
/// much is fed.
pub proof fn lemma_bounded_buffer(state: Seq<u8>, data: Seq<u8>, limit: nat)
    requires
        limit >= 2,
        state.len() < limit,
        forall|i: int| 0 <= i < state.len() ==> state[i] != 0x04u8,
        forall|i: int| 0 <= i < data.len() ==> data[i] != 0x04u8,
    ensures
        ({
            let m = merged_buffer(state, data, limit);
            frames_decode(m) == Some((Seq::<Seq<u8>>::empty(), m)) && m.len() < limit && (forall|
                i: int,
            |
                0 <= i < m.len() ==> m[i] != 0x04u8)
        }),
{
    let dl = drop_leading(state);
    lemma_drop_leading_keeps(state);
    lemma_slide_keeps(dl, data, limit, 0x04u8);
    lemma_slide_len(dl, data, limit);
    let m = merged_buffer(state, data, limit);
    assert(!contains_eot(m));
}

/// What resynchronization keeps is a suffix, so any bytewise fact of the
/// buffer holds of it.
proof fn lemma_drop_leading_keeps(s: Seq<u8>)
    ensures
        drop_leading(s).len() <= s.len(),
        forall|i: int|
            0 <= i < drop_leading(s).len() ==> drop_leading(s)[i] == s[i + s.len()
                - drop_leading(s).len()],
    decreases s.len(),
{
    if s.len() == 0 {
    } else if s[0] == 0x01u8 {
    } else {
        lemma_drop_leading_keeps(s.drop_first());
    }
}

/// Resynchronization: garbage bytes holding neither a frame start nor a
/// frame end are absorbed without error or output, and a valid frame fed
/// afterwards yields exactly its payload.
pub proof fn lemma_resync(garbage: Seq<u8>, p: Seq<u8>, limit: nat)
    requires
        limit >= 2,
        garbage.len() > 0,
        frame_of(p).len() < limit,
        forall|i: int| 0 <= i < garbage.len() ==> garbage[i] != 0x01u8,
        forall|i: int| 0 <= i < garbage.len() ==> garbage[i] != 0x04u8,
    ensures
        ({
            let s1 = merged_buffer(Seq::<u8>::empty(), garbage, limit);
            frames_decode(s1) == Some((Seq::<Seq<u8>>::empty(), s1)) && frames_decode(
                merged_buffer(s1, frame_of(p), limit),
            ) == Some((seq![p], Seq::<u8>::empty()))
        }),
{
    lemma_bounded_buffer(Seq::<u8>::empty(), garbage, limit);
    let s1 = merged_buffer(Seq::<u8>::empty(), garbage, limit);
    assert(drop_leading(Seq::<u8>::empty()) == Seq::<u8>::empty());
    lemma_slide_keeps(Seq::<u8>::empty(), garbage, limit, 0x01u8);
    lemma_drop_leading_all(s1);
    assert(merged_buffer(s1, frame_of(p), limit) == slide(
        Seq::<u8>::empty(),
        frame_of(p),
        limit,
    ));
    lemma_slide_small(Seq::<u8>::empty(), frame_of(p), limit);
    assert(Seq::<u8>::empty() + frame_of(p) =~= frame_of(p));
    lemma_frame_decodes(p);
}

/// The bytes of a chunk list, in order.
pub open spec fn concat_chunks(chunks: Seq<Seq<u8>>) -> Seq<u8>
    decreases chunks.len(),
{
    if chunks.len() == 0 {
        Seq::<u8>::empty()
    } else {
        chunks[0] + concat_chunks(chunks.drop_first())
    }
}

/// The decoder's state after feeding a list of chunks in order: all the
/// payloads delivered over the calls, and the final buffer, or nothing once
/// any call errors.
pub open spec fn feed_all(state: Seq<u8>, chunks: Seq<Seq<u8>>, limit: nat) -> Option<
    (Seq<Seq<u8>>, Seq<u8>),
>
    decreases chunks.len(),
{
    if chunks.len() == 0 {
        Some((Seq::<Seq<u8>>::empty(), state))
    } else {
        match frames_decode(merged_buffer(state, chunks[0], limit)) {
            None => None,
            Some(t) => match feed_all(t.1, chunks.drop_first(), limit) {
                None => None,
                Some(u) => Some((t.0 + u.0, u.1)),
            },
        }
    }
}

proof fn lemma_concat_nonempty(chunks: Seq<Seq<u8>>)
    requires
        forall|i: int| 0 <= i < chunks.len() ==> chunks[i].len() > 0,
        concat_chunks(chunks).len() == 0,
    ensures
        chunks.len() == 0,
{
    if chunks.len() > 0 {
        assert(chunks[0].len() > 0);
        assert(concat_chunks(chunks).len() >= chunks[0].len());
    }
}

proof fn lemma_chunked_step(p: Seq<u8>, chunks: Seq<Seq<u8>>, k: int, limit: nat)
    requires
        forall|i: int| 0 <= i < p.len() ==> p[i] != 0x04u8,
        xor_of(p) != 0x04u8,
        frame_of(p).len() < limit,
        0 <= k < frame_of(p).len(),
        forall|i: int| 0 <= i < chunks.len() ==> chunks[i].len() > 0,
        concat_chunks(chunks) == frame_of(p).skip(k),
        k == 0 || frame_of(p).take(k)[0] == 0x01u8,
    ensures
        feed_all(frame_of(p).take(k), chunks, limit) == Some((seq![p], Seq::<u8>::empty())),
    decreases chunks.len(),
{
    let f = frame_of(p);
    let state = f.take(k);
    if chunks.len() == 0 {
        assert(f.skip(k).len() == 0);
        assert(false);
    } else {
        let c0 = chunks[0];
        assert(c0.len() <= f.skip(k).len()) by {
            assert(concat_chunks(chunks).len() >= c0.len());
        }
        let k2 = k + c0.len();
        assert(drop_leading(state) == state) by {
            if k == 0 {
                assert(state =~= Seq::<u8>::empty());
            }
            lemma_drop_leading_soh(state);
        }
        lemma_slide_small(state, c0, limit);
        assert(c0 =~= f.skip(k).take(c0.len() as int));
        assert(state + c0 =~= f.take(k2));
        assert(merged_buffer(state, c0, limit) == f.take(k2));
        assert(concat_chunks(chunks) == c0 + concat_chunks(chunks.drop_first()));
        assert forall|i: int|
            0 <= i < concat_chunks(chunks.drop_first()).len() implies concat_chunks(
            chunks.drop_first(),
        )[i] == f.skip(k2)[i] by {
            assert(concat_chunks(chunks.drop_first())[i] == (c0 + concat_chunks(
                chunks.drop_first(),
            ))[c0.len() + i]);
            assert(f.skip(k)[c0.len() + i] == f[k2 + i]);
        }
        assert(concat_chunks(chunks.drop_first()) =~= f.skip(k2));
        if k2 == f.len() {
            assert(f.take(k2) =~= f);
            lemma_frame_decodes(p);
            assert(f.skip(k2).len() == 0);
            lemma_concat_nonempty(chunks.drop_first());
            assert(feed_all(Seq::<u8>::empty(), chunks.drop_first(), limit) == Some(
                (Seq::<Seq<u8>>::empty(), Seq::<u8>::empty()),
            ));
            assert(seq![p] + Seq::<Seq<u8>>::empty() =~= seq![p]);
        } else {
            lemma_frame_prefix_no_eot(p, k2);
            assert(frames_decode(f.take(k2)) == Some((Seq::<Seq<u8>>::empty(), f.take(k2))));
            assert(f.take(k2)[0] == f[0]);
            lemma_chunked_step(p, chunks.drop_first(), k2, limit);
            assert(Seq::<Seq<u8>>::empty() + seq![p] =~= seq![p]);
        }
    }
}

/// Chunked delivery invariance: however a frame is split into nonempty
/// chunks fed to successive decode calls on a fresh codec, the calls
/// together deliver exactly the frame's payload, with an empty buffer left,
/// provided no byte of the frame but its terminator is the EOT value (an
/// EOT byte inside the payload, or a checksum equal to EOT, makes the
/// decoder commit to a frame before its real end).
pub proof fn lemma_chunked_delivery(p: Seq<u8>, chunks: Seq<Seq<u8>>, limit: nat)
    requires
        forall|i: int| 0 <= i < p.len() ==> p[i] != 0x04u8,
        xor_of(p) != 0x04u8,
        frame_of(p).len() < limit,
        forall|i: int| 0 <= i < chunks.len() ==> chunks[i].len() > 0,
        concat_chunks(chunks) == frame_of(p),
    ensures
        feed_all(Seq::<u8>::empty(), chunks, limit) == Some((seq![p], Seq::<u8>::empty())),
{
    assert(frame_of(p).skip(0) =~= frame_of(p));
    assert(frame_of(p).take(0) =~= Seq::<u8>::empty());
    lemma_chunked_step(p, chunks, 0, limit);
}


} // verus!
