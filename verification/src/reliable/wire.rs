//! Wire format of the reliable channel.
//!
//! A data fragment is a two-byte header, a payload and a one-byte canary
//! trailer.  A pure acknowledgement is the header alone.
//!
//! ```text
//!   Byte 0:  bits 0-3 SEQ, bit 4 FIRST, bit 5 LAST
//!   Byte 1:  bits 0-3 ACK_SEQ, bit 4 ACK (ACK_SEQ is valid)
//! ```

use vstd::prelude::*;
use vstd::slice::slice_subrange;

verus! {

/// Length of the header that starts every message.
pub const HEADER_SIZE: usize = 2;

/// Trailer byte of every data fragment: a receiver that does not find it at
/// the end of a message knows that the host stack cut the message short.
pub const FRAGMENT_CANARY: u8 = 0x5A;

pub const SEQ_MASK: u8 = 0x0F;

/// Header flag of the first fragment of a datagram.
pub const FLAG_FIRST: u8 = 0x10;

/// Header flag of the last fragment of a datagram.
pub const FLAG_LAST: u8 = 0x20;

pub const ACK_SEQ_MASK: u8 = 0x0F;

pub const FLAG_ACK: u8 = 0x10;

/// Sequence numbers count modulo this.
pub const SEQ_MODULUS: u8 = 16;

/// How many fragments may be unacknowledged at once.  Less than half of
/// [`SEQ_MODULUS`], so that positions modulo [`SEQ_MODULUS`] inside the
/// window are unambiguous.
pub const WINDOW_SIZE: u8 = 6;

/// One fragment of a datagram, as the receiving end has to put it together.
#[verifier::ext_equal]
pub struct Frag {
    pub payload: Seq<u8>,
    pub first: bool,
    pub last: bool,
}

/// What a message says once its framing is removed.
#[verifier::ext_equal]
pub struct FrameView {
    pub seq: u8,
    pub frag: Frag,
    pub ack: Option<u8>,
}

impl FrameView {
    /// Whether the message carries a fragment, rather than an acknowledgement only.
    pub open spec fn has_data(self) -> bool {
        self.frag.first || self.frag.last || self.frag.payload.len() > 0
    }
}

/// First header byte: sequence number and position flags.
pub open spec fn head_byte(seq: int, first: bool, last: bool) -> int {
    seq % 16 + (if first { 16int } else { 0 }) + (if last { 32int } else { 0 })
}

/// Second header byte: acknowledgement, if any.
pub open spec fn ack_byte(ack: Option<u8>) -> int {
    match ack {
        Some(a) => a % 16 + 16,
        None => 0,
    }
}

/// The bytes of a data fragment.
pub open spec fn data_message(seq: u8, frag: Frag, ack: Option<u8>) -> Seq<u8> {
    seq![head_byte(seq as int, frag.first, frag.last) as u8, ack_byte(ack) as u8] + frag.payload
        + seq![FRAGMENT_CANARY]
}

/// The bytes of a pure acknowledgement.
pub open spec fn ack_message(ack: u8) -> Seq<u8> {
    seq![0u8, ack_byte(Some(ack)) as u8]
}

/// What `bytes` says if its framing is sound: it holds a header and, where it
/// is longer than that, ends in the canary.
pub open spec fn frame_of(bytes: Seq<u8>) -> Option<FrameView> {
    if bytes.len() < HEADER_SIZE || is_truncated(bytes) {
        None
    } else {
        Some(
            FrameView {
                seq: (bytes[0] % 16) as u8,
                frag: Frag {
                    payload: if bytes.len() > HEADER_SIZE {
                        bytes.subrange(2, bytes.len() - 1)
                    } else {
                        Seq::empty()
                    },
                    first: (bytes[0] / 16) % 2 == 1,
                    last: (bytes[0] / 32) % 2 == 1,
                },
                ack: if (bytes[1] / 16) % 2 == 1 {
                    Some((bytes[1] % 16) as u8)
                } else {
                    None
                },
            },
        )
    }
}

/// A message longer than a header that does not end in the canary.
pub open spec fn is_truncated(bytes: Seq<u8>) -> bool {
    bytes.len() > HEADER_SIZE && bytes.last() != FRAGMENT_CANARY
}

/// Steps from sequence number `a` forward to `b`.
pub open spec fn dist(a: int, b: int) -> int {
    (b - a) % 16
}

/// Header of a data fragment, without acknowledgement.
pub fn make_header(seq: u8, first: bool, last: bool) -> (header: [u8; 2])
    ensures
        header@ == seq![head_byte(seq as int, first, last) as u8, 0u8],
{
    let b0: u8 = (seq & SEQ_MASK) | (if first { FLAG_FIRST } else { 0 }) | (if last {
        FLAG_LAST
    } else {
        0
    });
    proof {
        assert(seq & 0x0F == seq % 16) by (bit_vector);
        assert((seq & 0x0F) | 0 | 0 == seq % 16) by (bit_vector);
        assert((seq & 0x0F) | 0x10 | 0 == seq % 16 + 16) by (bit_vector);
        assert((seq & 0x0F) | 0 | 0x20 == seq % 16 + 32) by (bit_vector);
        assert((seq & 0x0F) | 0x10 | 0x20 == seq % 16 + 48) by (bit_vector);
    }
    let header: [u8; 2] = [b0, 0];
    assert(header@ =~= seq![head_byte(seq as int, first, last) as u8, 0u8]);
    header
}

/// Puts the acknowledgement of `ack_seq` into a message or header.
pub fn set_ack(header: &mut [u8], ack_seq: u8)
    requires
        old(header)@.len() >= 2,
    ensures
        final(header)@ == old(header)@.update(1, ack_byte(Some(ack_seq)) as u8),
{
    proof {
        assert((ack_seq & 0x0F) | 0x10 == ack_seq % 16 + 16) by (bit_vector);
    }
    header[1] = (ack_seq & ACK_SEQ_MASK) | FLAG_ACK;
}

/// Steps from sequence number `a` forward to `b`.
pub fn seq_dist(a: u8, b: u8) -> (d: u8)
    ensures
        d == dist(a as int, b as int),
        d < SEQ_MODULUS,
{
    b.wrapping_sub(a) % SEQ_MODULUS
}

/// A received message with its framing removed.
pub struct Frame<'a> {
    pub seq: u8,
    pub first: bool,
    pub last: bool,
    pub ack: Option<u8>,
    pub payload: &'a [u8],
}

impl<'a> View for Frame<'a> {
    type V = FrameView;

    open spec fn view(&self) -> FrameView {
        FrameView {
            seq: self.seq,
            frag: Frag { payload: self.payload@, first: self.first, last: self.last },
            ack: self.ack,
        }
    }
}

/// What [`parse_message`] makes of a received value.
pub enum Parsed<'a> {
    /// Shorter than a header.
    Short,
    /// The canary is missing.
    Truncated,
    Frame(Frame<'a>),
}

/// Removes the framing of a received value.
pub fn parse_message<'a>(value: &'a [u8]) -> (parsed: Parsed<'a>)
    ensures
        parsed is Short <==> value@.len() < HEADER_SIZE,
        parsed is Truncated <==> is_truncated(value@),
        match parsed {
            Parsed::Frame(frame) => frame_of(value@) == Some(frame@),
            _ => frame_of(value@) is None,
        },
{
    if value.len() < HEADER_SIZE {
        return Parsed::Short;
    }
    let payload: &'a [u8] = if value.len() > HEADER_SIZE {
        if value[value.len() - 1] != FRAGMENT_CANARY {
            return Parsed::Truncated;
        }
        slice_subrange(value, HEADER_SIZE, value.len() - 1)
    } else {
        slice_subrange(value, HEADER_SIZE, HEADER_SIZE)
    };
    let b0: u8 = value[0];
    let b1: u8 = value[1];
    proof {
        assert(b0 & 0x0F == b0 % 16) by (bit_vector);
        assert(b1 & 0x0F == b1 % 16) by (bit_vector);
        assert(b0 & 0x10 != 0 <==> (b0 / 16) % 2 == 1) by (bit_vector);
        assert(b0 & 0x20 != 0 <==> (b0 / 32) % 2 == 1) by (bit_vector);
        assert(b1 & 0x10 != 0 <==> (b1 / 16) % 2 == 1) by (bit_vector);
    }
    let frame = Frame {
        seq: b0 & SEQ_MASK,
        first: b0 & FLAG_FIRST != 0,
        last: b0 & FLAG_LAST != 0,
        ack: if b1 & FLAG_ACK != 0 {
            Some(b1 & ACK_SEQ_MASK)
        } else {
            None
        },
        payload,
    };
    assert(frame_of(value@) == Some(frame@)) by {
        let expected = frame_of(value@)->Some_0;
        assert(expected.frag.payload =~= frame@.frag.payload);
    }
    Parsed::Frame(frame)
}

/// Reading a data fragment gives back what was written: its sequence number,
/// its flags, its payload and its acknowledgement.
pub proof fn law_data_message_round_trip(seq: u8, frag: Frag, ack: Option<u8>)
    requires
        seq < SEQ_MODULUS,
        ack is Some ==> ack->Some_0 < SEQ_MODULUS,
    ensures
        frame_of(data_message(seq, frag, ack)) == Some(FrameView { seq, frag, ack }),
{
    let bytes = data_message(seq, frag, ack);
    assert(bytes.subrange(2, bytes.len() - 1) =~= frag.payload);
    assert(bytes.last() == FRAGMENT_CANARY);
}

/// Reading a pure acknowledgement gives back the acknowledged sequence number
/// and no data.
pub proof fn law_ack_message_round_trip(ack: u8)
    requires
        ack < SEQ_MODULUS,
    ensures
        frame_of(ack_message(ack)) matches Some(frame) && frame.ack == Some(ack)
            && !frame.has_data(),
{
}

/// Replacing the acknowledgement of a sound message changes nothing else that
/// it says.
pub proof fn law_set_ack_keeps_fragment(bytes: Seq<u8>, ack: u8)
    requires
        frame_of(bytes) is Some,
        ack < SEQ_MODULUS,
    ensures
        frame_of(bytes.update(1, ack_byte(Some(ack)) as u8)) == Some(
            FrameView { ack: Some(ack), ..frame_of(bytes)->Some_0 },
        ),
{
    let updated = bytes.update(1, ack_byte(Some(ack)) as u8);
    if bytes.len() > HEADER_SIZE {
        assert(updated.subrange(2, updated.len() - 1) =~= bytes.subrange(2, bytes.len() - 1));
    }
}

/// A data fragment that was cut short is never taken for a sound data
/// fragment, unless the byte that the cut left at its end happens to be the
/// canary.
pub proof fn law_truncation_is_detected(seq: u8, frag: Frag, ack: Option<u8>, kept: int)
    requires
        HEADER_SIZE < kept < data_message(seq, frag, ack).len(),
        data_message(seq, frag, ack)[kept - 1] != FRAGMENT_CANARY,
    ensures
        is_truncated(data_message(seq, frag, ack).take(kept)),
        frame_of(data_message(seq, frag, ack).take(kept)) is None,
{
}

/// Inside one window, positions in the stream of fragments are told apart by
/// their sequence numbers.
pub proof fn law_window_is_unambiguous(start: int, i: int, j: int)
    requires
        start <= i < start + WINDOW_SIZE,
        start <= j < start + WINDOW_SIZE,
    ensures
        i % 16 == j % 16 <==> i == j,
        dist(start % 16, i % 16) == i - start,
{
}

/// A data fragment is two header bytes, the payload and the byte 0x5A. The
/// first header byte is the number, with 16 added on the first and 32 on the
/// last fragment of a datagram; the second is 0, or 16 and the number that is
/// acknowledged. A pure acknowledgement is two header bytes, the first one 0.
pub proof fn law_layout_of_messages(seq: u8, frag: Frag, ack: Option<u8>, a: u8)
    requires
        seq < 16,
        ack is Some ==> ack->Some_0 < 16,
        a < 16,
    ensures
        ({
            let bytes = data_message(seq, frag, ack);
            let n = frag.payload.len() as int;
            &&& bytes.len() == n + 3
            &&& bytes[0] == seq + (if frag.first { 16int } else { 0 }) + (if frag.last {
                32int
            } else {
                0
            })
            &&& ack is None ==> bytes[1] == 0
            &&& ack matches Some(acked) ==> bytes[1] == 16 + acked
            &&& bytes.subrange(2, n + 2) == frag.payload
            &&& bytes[n + 2] == 0x5A
        }),
        ack_message(a) == seq![0u8, (16 + a) as u8],
{
    let bytes = data_message(seq, frag, ack);
    assert(bytes.subrange(2, frag.payload.len() as int + 2) =~= frag.payload);
    assert(ack_message(a) =~= seq![0u8, (16 + a) as u8]);
}

/// How any received bytes are read: they are sound if they are a header alone,
/// or longer and end in 0x5A. The low four bits of the first byte are the
/// number, the next two its flags; the second byte acknowledges the number in
/// its low four bits where the next one is set. Other bits mean nothing.
/// Whatever has a flag set or a payload carries data.
pub proof fn law_reading_of_messages(bytes: Seq<u8>)
    ensures
        is_truncated(bytes) <==> bytes.len() > 2 && bytes[bytes.len() - 1] != 0x5A,
        frame_of(bytes) is Some <==> bytes.len() == 2 || (bytes.len() > 2 && bytes[bytes.len() - 1]
            == 0x5A),
        frame_of(bytes) matches Some(frame) ==> {
            &&& frame.seq == bytes[0] & 0x0F
            &&& frame.seq < 16
            &&& frame.frag.first <==> bytes[0] & 0x10 != 0
            &&& frame.frag.last <==> bytes[0] & 0x20 != 0
            &&& frame.ack is Some <==> bytes[1] & 0x10 != 0
            &&& frame.ack matches Some(a) ==> a == bytes[1] & 0x0F && a < 16
            &&& bytes.len() == 2 ==> frame.frag.payload.len() == 0
            &&& bytes.len() > 2 ==> frame.frag.payload == bytes.subrange(2, bytes.len() - 1)
            &&& frame.has_data() <==> bytes.len() > 3 || bytes[0] & 0x10 != 0 || bytes[0] & 0x20
                != 0
        },
{
    let b0 = bytes[0];
    let b1 = bytes[1];
    assert(b0 & 0x0F == b0 % 16) by (bit_vector);
    assert(b1 & 0x0F == b1 % 16) by (bit_vector);
    assert(b0 & 0x10 != 0 <==> (b0 / 16) % 2 == 1) by (bit_vector);
    assert(b0 & 0x20 != 0 <==> (b0 / 32) % 2 == 1) by (bit_vector);
    assert(b1 & 0x10 != 0 <==> (b1 / 16) % 2 == 1) by (bit_vector);
}

/// The steps from one number to another are fewer than 16, and lead there.
pub proof fn law_steps_lead_there(a: int, b: int)
    ensures
        0 <= dist(a, b) < 16,
        (a + dist(a, b)) % 16 == b % 16,
        0 <= a <= b < 16 ==> dist(a, b) == b - a,
        0 <= b < a < 16 ==> dist(a, b) == b - a + 16,
{
}

/// Of a number only what it is modulo 16 is put into a header.
pub proof fn law_headers_hold_numbers_modulo_16(seq: u8, first: bool, last: bool, ack: u8)
    ensures
        head_byte(seq as int, first, last) == head_byte((seq % 16) as int, first, last),
        head_byte(seq as int, first, last) == seq % 16 + (if first { 16int } else { 0 }) + (
        if last { 32int } else { 0 }),
        ack_byte(Some(ack)) == ack_byte(Some((ack % 16) as u8)),
        ack_byte(Some(ack)) == 16 + ack % 16,
        ack_byte(None) == 0,
{
}

/// A frame is seen as it is.
pub proof fn law_frames_are_seen_as_they_are(frame: Frame)
    ensures
        frame@.seq == frame.seq,
        frame@.frag.first == frame.first,
        frame@.frag.last == frame.last,
        frame@.frag.payload == frame.payload@,
        frame@.ack == frame.ack,
{
}

} // verus!
