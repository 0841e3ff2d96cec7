//! The replay (`.rec`) format: a header, per-tick physics frames, discrete
//! events, and a terminating sentinel.
//!
//! Layout, all integers and doubles little-endian:
//! frame count (`i32`), multiplayer flag (`i32`, nonzero means true),
//! flag-tag flag (`i32`), link (`i32`), level filename (12-byte fixed slot);
//! then the frames (27 bytes each), the event count (`i32`), the events
//! (16 bytes each), and the end-of-replay sentinel.  Frame and event order
//! is preserved exactly in both directions.

use vstd::prelude::*;
use crate::Position;
use crate::FormatError;
use crate::EncodeError;
use crate::FieldId;
use crate::SectionId;
use crate::bytes::le16;
use crate::bytes::le32;
use crate::bytes::le64;
use crate::bytes::u16_of;
use crate::bytes::u32_of;
use crate::bytes::u64_of;
use crate::bytes::as_i16;
use crate::bytes::as_u16;
use crate::bytes::as_i32;
use crate::bytes::as_u32;
use crate::bytes::lemma_u16_round_trip;
use crate::bytes::lemma_u32_round_trip;
use crate::bytes::lemma_u64_round_trip;
use crate::bytes::lemma_as_i16_of_u16;
use crate::bytes::lemma_split_at;
use crate::bytes::lemma_sub_left;
use crate::bytes::lemma_as_i32_of_u32;
use crate::bytes::read_u16;
use crate::bytes::read_u32;
use crate::bytes::read_u64;
use crate::bytes::write_u16;
use crate::bytes::write_u32;
use crate::bytes::write_u64;
use crate::bytes::u16_to_i16;
use crate::bytes::u32_to_i32;
use crate::bytes::i16_to_u16;
use crate::bytes::i32_to_u32;
use crate::fixed::text_of;
use crate::fixed::fits;
use crate::fixed::slot_of;
use crate::fixed::lemma_field_round_trip;
use crate::fixed::decode_field;
use crate::fixed::write_field;

verus! {

/// End-of-replay sentinel.
pub const EOR: u32 = 0x00492F75;

/// Bytes of one frame record on the wire.
pub const FRAME_BYTES: usize = 27;

/// Bytes of one event record on the wire.
pub const EVENT_BYTES: usize = 16;

/// Width of the level filename slot in the header.
pub const LEVEL_NAME_BYTES: usize = 12;

/// Replay header bytes before the first frame.
pub const HEADER_BYTES: usize = 28;

/// Largest frame or event count the 32-bit count fields can carry.
pub const REC_COUNT_MAX: usize = 0x7FFFFFFF;

/// One sampled physics tick.  The bike position is a pair of 32-bit float
/// bit patterns; the integer pairs are wheel and head positions.
#[derive(Debug, Clone, Copy, PartialEq, Eq)]
pub struct Frame {
    /// Bike position (bit patterns of two 32-bit floats).
    pub bike: Position<u32>,
    /// Left wheel position.
    pub left_wheel: Position<i16>,
    /// Right wheel position.
    pub right_wheel: Position<i16>,
    /// Head position.
    pub head: Position<i16>,
    /// Bike rotation. Range 0..10000.
    pub rotation: i16,
    /// Left wheel rotation. Range 0..255.
    pub left_wheel_rotation: u8,
    /// Right wheel rotation. Range 0..255.
    pub right_wheel_rotation: u8,
    /// Throttle.
    pub throttle: bool,
    /// Right direction. True = right, false = left.
    pub right: bool,
    /// Spring sound effect volume.
    pub volume: i16,
}

/// One discrete replay event: a time stamp (bit pattern of a 64-bit float)
/// and two raw words whose semantics the codec leaves opaque.
#[derive(Debug, Clone, Copy, PartialEq, Eq)]
pub struct Event {
    /// Time of event (bit pattern of a 64-bit float).
    pub time: u64,
    /// Event type and auxiliary data, two raw words.
    pub event_type: (u32, u32),
}

/// A whole replay record.
#[derive(Debug, Clone, PartialEq, Eq)]
pub struct Rec {
    /// Whether the replay is multi-player.
    pub multi: bool,
    /// Whether the replay is flag-tag.
    pub flag_tag: bool,
    /// Random number linking the replay to the level it was recorded on.
    pub link: i32,
    /// Full level filename.
    pub level: Vec<u8>,
    /// The frames, in playback order.
    pub frames: Vec<Frame>,
    /// The events, in order.
    pub events: Vec<Event>,
}

/// The mathematical value of a [`Rec`].
pub struct RecV {
    pub multi: bool,
    pub flag_tag: bool,
    pub link: i32,
    pub level: Seq<u8>,
    pub frames: Seq<Frame>,
    pub events: Seq<Event>,
}

impl View for Rec {
    type V = RecV;

    open spec fn view(&self) -> RecV {
        RecV {
            multi: self.multi,
            flag_tag: self.flag_tag,
            link: self.link,
            level: self.level@,
            frames: self.frames@,
            events: self.events@,
        }
    }
}

impl Rec {
    /// Build an empty single-player replay.
    pub fn new() -> (r: Rec)
        ensures
            !r.multi,
            !r.flag_tag,
            r.link == 0,
            r.level@ =~= Seq::<u8>::empty(),
            r.frames@ =~= Seq::<Frame>::empty(),
            r.events@ =~= Seq::<Event>::empty(),
    {
        Rec {
            multi: false,
            flag_tag: false,
            link: 0,
            level: Vec::new(),
            frames: Vec::new(),
            events: Vec::new(),
        }
    }
}

/// 0 or 1 as a 32-bit flag word.
pub open spec fn bool32(b: bool) -> u32 {
    if b {
        1
    } else {
        0
    }
}

/// The packed throttle/direction byte: bit 0 is throttle, bit 1 is the
/// right direction.
pub open spec fn flags_byte(throttle: bool, right: bool) -> u8 {
    ((if throttle {
        1int
    } else {
        0
    }) + (if right {
        2int
    } else {
        0
    })) as u8
}

/// The 27 wire bytes of one frame.
pub open spec fn enc_frame(f: Frame) -> Seq<u8> {
    le32(f.bike.x) + le32(f.bike.y) + le16(as_u16(f.left_wheel.x)) + le16(as_u16(f.left_wheel.y))
        + le16(as_u16(f.right_wheel.x)) + le16(as_u16(f.right_wheel.y)) + le16(as_u16(f.head.x))
        + le16(as_u16(f.head.y)) + le16(as_u16(f.rotation)) + seq![
        f.left_wheel_rotation,
        f.right_wheel_rotation,
        flags_byte(f.throttle, f.right),
    ] + le16(as_u16(f.volume))
}

/// The wire bytes of a run of frames, in order.
pub open spec fn enc_frames(s: Seq<Frame>) -> Seq<u8>
    decreases s.len(),
{
    if s.len() == 0 {
        Seq::empty()
    } else {
        enc_frame(s[0]) + enc_frames(s.drop_first())
    }
}

/// The 16 wire bytes of one event.
pub open spec fn enc_event(e: Event) -> Seq<u8> {
    le64(e.time) + le32(e.event_type.0) + le32(e.event_type.1)
}

/// The wire bytes of a run of events, in order.
pub open spec fn enc_events(s: Seq<Event>) -> Seq<u8>
    decreases s.len(),
{
    if s.len() == 0 {
        Seq::empty()
    } else {
        enc_event(s[0]) + enc_events(s.drop_first())
    }
}

/// A replay that the wire layout can carry: the filename fits its slot and
/// the counts fit their signed 32-bit fields.
pub open spec fn replay_encodable(r: RecV) -> bool {
    &&& r.frames.len() <= REC_COUNT_MAX
    &&& r.level.len() < LEVEL_NAME_BYTES
    &&& r.events.len() <= REC_COUNT_MAX
}

/// The bytes of a whole replay, or the first reason (in write order) it
/// cannot be represented.
pub open spec fn spec_encode_replay(r: RecV) -> Result<Seq<u8>, EncodeError> {
    if r.frames.len() > REC_COUNT_MAX {
        Err(EncodeError::CapacityExceeded { section: SectionId::Frames, max: REC_COUNT_MAX })
    } else if r.level.len() >= LEVEL_NAME_BYTES {
        Err(EncodeError::FieldTooLong { field: FieldId::LevelFilename, max: LEVEL_NAME_BYTES })
    } else if r.events.len() > REC_COUNT_MAX {
        Err(EncodeError::CapacityExceeded { section: SectionId::Events, max: REC_COUNT_MAX })
    } else {
        Ok(
            le32(r.frames.len() as u32) + le32(bool32(r.multi)) + le32(bool32(r.flag_tag)) + le32(
                as_u32(r.link),
            ) + slot_of(r.level, LEVEL_NAME_BYTES as nat) + enc_frames(r.frames) + le32(
                r.events.len() as u32,
            ) + enc_events(r.events) + le32(EOR),
        )
    }
}

/// The frame whose 27 wire bytes start at `pos`.
pub open spec fn frame_at(s: Seq<u8>, pos: int) -> Frame {
    Frame {
        bike: Position {
            x: u32_of(s.subrange(pos, pos + 4)),
            y: u32_of(s.subrange(pos + 4, pos + 8)),
        },
        left_wheel: Position {
            x: as_i16(u16_of(s.subrange(pos + 8, pos + 10))),
            y: as_i16(u16_of(s.subrange(pos + 10, pos + 12))),
        },
        right_wheel: Position {
            x: as_i16(u16_of(s.subrange(pos + 12, pos + 14))),
            y: as_i16(u16_of(s.subrange(pos + 14, pos + 16))),
        },
        head: Position {
            x: as_i16(u16_of(s.subrange(pos + 16, pos + 18))),
            y: as_i16(u16_of(s.subrange(pos + 18, pos + 20))),
        },
        rotation: as_i16(u16_of(s.subrange(pos + 20, pos + 22))),
        left_wheel_rotation: s[pos + 22],
        right_wheel_rotation: s[pos + 23],
        throttle: s[pos + 24] % 2 == 1,
        right: (s[pos + 24] / 2) % 2 == 1,
        volume: as_i16(u16_of(s.subrange(pos + 25, pos + 27))),
    }
}

/// The event whose 16 wire bytes start at `pos`.
pub open spec fn event_at(s: Seq<u8>, pos: int) -> Event {
    Event {
        time: u64_of(s.subrange(pos, pos + 8)),
        event_type: (
            u32_of(s.subrange(pos + 8, pos + 12)),
            u32_of(s.subrange(pos + 12, pos + 16)),
        ),
    }
}

/// Parse `n` frames starting at `pos`: the frames and the position after
/// them, or where the buffer ran out.
pub open spec fn parse_frames(s: Seq<u8>, pos: int, n: nat) -> Result<
    (Seq<Frame>, int),
    FormatError,
>
    decreases n,
{
    if n == 0 {
        Ok((Seq::empty(), pos))
    } else if pos + FRAME_BYTES <= s.len() {
        match parse_frames(s, pos + FRAME_BYTES, (n - 1) as nat) {
            Ok((rest, p2)) => Ok((seq![frame_at(s, pos)] + rest, p2)),
            Err(e) => Err(e),
        }
    } else {
        Err(FormatError::UnexpectedEnd { offset: pos as usize })
    }
}

/// Parse `n` events starting at `pos`.
pub open spec fn parse_events(s: Seq<u8>, pos: int, n: nat) -> Result<
    (Seq<Event>, int),
    FormatError,
>
    decreases n,
{
    if n == 0 {
        Ok((Seq::empty(), pos))
    } else if pos + EVENT_BYTES <= s.len() {
        match parse_events(s, pos + EVENT_BYTES, (n - 1) as nat) {
            Ok((rest, p2)) => Ok((seq![event_at(s, pos)] + rest, p2)),
            Err(e) => Err(e),
        }
    } else {
        Err(FormatError::UnexpectedEnd { offset: pos as usize })
    }
}

/// The replay stored in `s`, or the first structural violation found.
/// Bytes after the sentinel are ignored.
pub open spec fn spec_decode_replay(s: Seq<u8>) -> Result<RecV, FormatError> {
    if s.len() < 4 {
        Err(FormatError::UnexpectedEnd { offset: 0 })
    } else {
        let fc = as_i32(u32_of(s.subrange(0, 4)));
        if fc < 0 {
            Err(FormatError::CountOutOfRange { offset: 0 })
        } else if s.len() < 8 {
            Err(FormatError::UnexpectedEnd { offset: 4 })
        } else if s.len() < 12 {
            Err(FormatError::UnexpectedEnd { offset: 8 })
        } else if s.len() < 16 {
            Err(FormatError::UnexpectedEnd { offset: 12 })
        } else if s.len() < 28 {
            Err(FormatError::UnexpectedEnd { offset: 16 })
        } else {
            let multi = u32_of(s.subrange(4, 8)) != 0;
            let flag_tag = u32_of(s.subrange(8, 12)) != 0;
            let link = as_i32(u32_of(s.subrange(12, 16)));
            let level = text_of(s.subrange(16, 28));
            match parse_frames(s, HEADER_BYTES as int, fc as nat) {
                Err(e) => Err(e),
                Ok((frames, p1)) => {
                    if p1 + 4 > s.len() {
                        Err(FormatError::UnexpectedEnd { offset: p1 as usize })
                    } else {
                        let ec = as_i32(u32_of(s.subrange(p1, p1 + 4)));
                        if ec < 0 {
                            Err(FormatError::CountOutOfRange { offset: p1 as usize })
                        } else {
                            match parse_events(s, p1 + 4, ec as nat) {
                                Err(e) => Err(e),
                                Ok((events, p2)) => {
                                    if p2 + 4 > s.len() {
                                        Err(FormatError::UnexpectedEnd { offset: p2 as usize })
                                    } else {
                                        let sentinel = u32_of(s.subrange(p2, p2 + 4));
                                        if sentinel != EOR {
                                            Err(
                                                FormatError::SentinelMismatch {
                                                    expected: EOR,
                                                    found: sentinel,
                                                    offset: p2 as usize,
                                                },
                                            )
                                        } else {
                                            Ok(
                                                RecV {
                                                    multi,
                                                    flag_tag,
                                                    link,
                                                    level,
                                                    frames,
                                                    events,
                                                },
                                            )
                                        }
                                    }
                                },
                            }
                        }
                    }
                },
            }
        }
    }
}

/// `r` with `acc` prepended to its frames on success.
pub open spec fn with_frames_prefix(acc: Seq<Frame>, r: Result<(Seq<Frame>, int), FormatError>) -> Result<
    (Seq<Frame>, int),
    FormatError,
> {
    match r {
        Ok((rest, p)) => Ok((acc + rest, p)),
        Err(e) => Err(e),
    }
}

/// `r` with `acc` prepended to its events on success.
pub open spec fn with_events_prefix(acc: Seq<Event>, r: Result<(Seq<Event>, int), FormatError>) -> Result<
    (Seq<Event>, int),
    FormatError,
> {
    match r {
        Ok((rest, p)) => Ok((acc + rest, p)),
        Err(e) => Err(e),
    }
}

/// Prepending twice is prepending the concatenation.
proof fn lemma_frames_prefix_assoc(a: Seq<Frame>, b: Seq<Frame>, r: Result<(Seq<Frame>, int), FormatError>)
    ensures
        with_frames_prefix(a, with_frames_prefix(b, r)) == with_frames_prefix(a + b, r),
{
    match r {
        Ok((rest, p)) => {
            assert(a + (b + rest) =~= (a + b) + rest);
        },
        Err(_) => {},
    }
}

/// Prepending twice is prepending the concatenation.
proof fn lemma_events_prefix_assoc(a: Seq<Event>, b: Seq<Event>, r: Result<(Seq<Event>, int), FormatError>)
    ensures
        with_events_prefix(a, with_events_prefix(b, r)) == with_events_prefix(a + b, r),
{
    match r {
        Ok((rest, p)) => {
            assert(a + (b + rest) =~= (a + b) + rest);
        },
        Err(_) => {},
    }
}

/// Read the frame stored at `pos`.
fn parse_frame(buf: &Vec<u8>, pos: usize) -> (f: Frame)
    requires
        pos + FRAME_BYTES <= buf.len(),
    ensures
        f == frame_at(buf@, pos as int),
{
    let bike_x = read_u32(buf, pos);
    let bike_y = read_u32(buf, pos + 4);
    let lw_x = u16_to_i16(read_u16(buf, pos + 8));
    let lw_y = u16_to_i16(read_u16(buf, pos + 10));
    let rw_x = u16_to_i16(read_u16(buf, pos + 12));
    let rw_y = u16_to_i16(read_u16(buf, pos + 14));
    let hd_x = u16_to_i16(read_u16(buf, pos + 16));
    let hd_y = u16_to_i16(read_u16(buf, pos + 18));
    let rotation = u16_to_i16(read_u16(buf, pos + 20));
    let lwr = buf[pos + 22];
    let rwr = buf[pos + 23];
    let flags = buf[pos + 24];
    let volume = u16_to_i16(read_u16(buf, pos + 25));
    Frame {
        bike: Position { x: bike_x, y: bike_y },
        left_wheel: Position { x: lw_x, y: lw_y },
        right_wheel: Position { x: rw_x, y: rw_y },
        head: Position { x: hd_x, y: hd_y },
        rotation,
        left_wheel_rotation: lwr,
        right_wheel_rotation: rwr,
        throttle: flags % 2 == 1,
        right: (flags / 2) % 2 == 1,
        volume,
    }
}

/// Read the event stored at `pos`.
fn parse_event(buf: &Vec<u8>, pos: usize) -> (e: Event)
    requires
        pos + EVENT_BYTES <= buf.len(),
    ensures
        e == event_at(buf@, pos as int),
{
    let time = read_u64(buf, pos);
    let w0 = read_u32(buf, pos + 8);
    let w1 = read_u32(buf, pos + 12);
    Event { time, event_type: (w0, w1) }
}

/// Read `n` frames starting at `pos`.
fn parse_frames_exec(buf: &Vec<u8>, pos: usize, n: usize) -> (r: Result<
    (Vec<Frame>, usize),
    FormatError,
>)
    requires
        pos <= buf.len(),
    ensures
        match r {
            Ok((v, p)) => parse_frames(buf@, pos as int, n as nat) == Ok::<_, FormatError>(
                (v@, p as int),
            ) && p <= buf.len(),
            Err(e) => parse_frames(buf@, pos as int, n as nat) == Err::<(Seq<Frame>, int), _>(e),
        },
{
    let mut acc: Vec<Frame> = Vec::new();
    let mut p = pos;
    let mut i: usize = 0;
    while i < n
        invariant
            i <= n,
            p <= buf.len(),
            parse_frames(buf@, pos as int, n as nat) == with_frames_prefix(
                acc@,
                parse_frames(buf@, p as int, (n - i) as nat),
            ),
        decreases n - i,
    {
        if buf.len() - p < FRAME_BYTES {
            assert(parse_frames(buf@, p as int, (n - i) as nat) == Err::<(Seq<Frame>, int), _>(
                FormatError::UnexpectedEnd { offset: p },
            ));
            return Err(FormatError::UnexpectedEnd { offset: p });
        }
        let f = parse_frame(buf, p);
        let ghost acc_old = acc@;
        let ghost p_old = p as int;
        let ghost m = (n - i) as nat;
        acc.push(f);
        p = p + FRAME_BYTES;
        i = i + 1;
        proof {
            lemma_frames_prefix_assoc(
                acc_old,
                seq![f],
                parse_frames(buf@, p as int, (n - i) as nat),
            );
            assert(acc_old + seq![f] =~= acc@);
            assert(with_frames_prefix(seq![f], parse_frames(buf@, p as int, (n - i) as nat))
                == parse_frames(buf@, p_old, m));
        }
    }
    assert(parse_frames(buf@, p as int, 0) == Ok::<_, FormatError>((Seq::<Frame>::empty(), p as int)));
    assert(acc@ + Seq::<Frame>::empty() =~= acc@);
    Ok((acc, p))
}

/// Read `n` events starting at `pos`.
fn parse_events_exec(buf: &Vec<u8>, pos: usize, n: usize) -> (r: Result<
    (Vec<Event>, usize),
    FormatError,
>)
    requires
        pos <= buf.len(),
    ensures
        match r {
            Ok((v, p)) => parse_events(buf@, pos as int, n as nat) == Ok::<_, FormatError>(
                (v@, p as int),
            ) && p <= buf.len(),
            Err(e) => parse_events(buf@, pos as int, n as nat) == Err::<(Seq<Event>, int), _>(e),
        },
{
    let mut acc: Vec<Event> = Vec::new();
    let mut p = pos;
    let mut i: usize = 0;
    while i < n
        invariant
            i <= n,
            p <= buf.len(),
            parse_events(buf@, pos as int, n as nat) == with_events_prefix(
                acc@,
                parse_events(buf@, p as int, (n - i) as nat),
            ),
        decreases n - i,
    {
        if buf.len() - p < EVENT_BYTES {
            assert(parse_events(buf@, p as int, (n - i) as nat) == Err::<(Seq<Event>, int), _>(
                FormatError::UnexpectedEnd { offset: p },
            ));
            return Err(FormatError::UnexpectedEnd { offset: p });
        }
        let e = parse_event(buf, p);
        let ghost acc_old = acc@;
        let ghost p_old = p as int;
        let ghost m = (n - i) as nat;
        acc.push(e);
        p = p + EVENT_BYTES;
        i = i + 1;
        proof {
            lemma_events_prefix_assoc(
                acc_old,
                seq![e],
                parse_events(buf@, p as int, (n - i) as nat),
            );
            assert(acc_old + seq![e] =~= acc@);
            assert(with_events_prefix(seq![e], parse_events(buf@, p as int, (n - i) as nat))
                == parse_events(buf@, p_old, m));
        }
    }
    assert(parse_events(buf@, p as int, 0) == Ok::<_, FormatError>((Seq::<Event>::empty(), p as int)));
    assert(acc@ + Seq::<Event>::empty() =~= acc@);
    Ok((acc, p))
}

/// Decode a whole replay record from its wire bytes; no partial record is
/// returned on a structural violation.  Bytes after the sentinel are
/// ignored.
#[verifier::rlimit(50)]
pub fn decode_replay(bytes: &Vec<u8>) -> (r: Result<Rec, FormatError>)
    ensures
        match r {
            Ok(rec) => spec_decode_replay(bytes@) == Ok::<RecV, FormatError>(rec@),
            Err(e) => spec_decode_replay(bytes@) == Err::<RecV, FormatError>(e),
        },
{
    if bytes.len() < 4 {
        return Err(FormatError::UnexpectedEnd { offset: 0 });
    }
    let fc = u32_to_i32(read_u32(bytes, 0));
    if fc < 0 {
        return Err(FormatError::CountOutOfRange { offset: 0 });
    }
    if bytes.len() < 8 {
        return Err(FormatError::UnexpectedEnd { offset: 4 });
    }
    if bytes.len() < 12 {
        return Err(FormatError::UnexpectedEnd { offset: 8 });
    }
    if bytes.len() < 16 {
        return Err(FormatError::UnexpectedEnd { offset: 12 });
    }
    if bytes.len() < 28 {
        return Err(FormatError::UnexpectedEnd { offset: 16 });
    }
    let multi = read_u32(bytes, 4) != 0;
    let flag_tag = read_u32(bytes, 8) != 0;
    let link = u32_to_i32(read_u32(bytes, 12));
    let level = decode_field(bytes, 16, LEVEL_NAME_BYTES);
    let (frames, p1) = match parse_frames_exec(bytes, HEADER_BYTES, fc as usize) {
        Ok(fp) => fp,
        Err(e) => {
            return Err(e);
        },
    };
    if bytes.len() - p1 < 4 {
        return Err(FormatError::UnexpectedEnd { offset: p1 });
    }
    let ec = u32_to_i32(read_u32(bytes, p1));
    if ec < 0 {
        return Err(FormatError::CountOutOfRange { offset: p1 });
    }
    let (events, p2) = match parse_events_exec(bytes, p1 + 4, ec as usize) {
        Ok(ep) => ep,
        Err(e) => {
            return Err(e);
        },
    };
    if bytes.len() - p2 < 4 {
        return Err(FormatError::UnexpectedEnd { offset: p2 });
    }
    let sentinel = read_u32(bytes, p2);
    if sentinel != EOR {
        return Err(FormatError::SentinelMismatch { expected: EOR, found: sentinel, offset: p2 });
    }
    Ok(Rec { multi, flag_tag, link, level, frames, events })
}

/// One frame occupies 27 bytes on the wire.
proof fn lemma_enc_frames_len(s: Seq<Frame>)
    ensures
        enc_frames(s).len() == FRAME_BYTES * s.len(),
    decreases s.len(),
{
    if s.len() > 0 {
        lemma_enc_frames_len(s.drop_first());
    }
}

/// One event occupies 16 bytes on the wire.
proof fn lemma_enc_events_len(s: Seq<Event>)
    ensures
        enc_events(s).len() == EVENT_BYTES * s.len(),
    decreases s.len(),
{
    if s.len() > 0 {
        lemma_enc_events_len(s.drop_first());
    }
}

/// Encoding one more frame appends its bytes.
proof fn lemma_enc_frames_snoc(s: Seq<Frame>, i: int)
    requires
        0 <= i < s.len(),
    ensures
        enc_frames(s.take(i + 1)) == enc_frames(s.take(i)) + enc_frame(s[i]),
    decreases i,
{
    if i == 0 {
        assert(s.take(1) =~= seq![s[0]]);
        assert(s.take(1).drop_first() =~= Seq::<Frame>::empty());
        assert(s.take(0) =~= Seq::<Frame>::empty());
        assert(enc_frames(s.take(i + 1)) =~= enc_frames(s.take(i)) + enc_frame(s[i]));
    } else {
        let t = s.drop_first();
        lemma_enc_frames_snoc(t, i - 1);
        assert(s.take(i + 1).drop_first() =~= t.take(i));
        assert(s.take(i).drop_first() =~= t.take(i - 1));
        assert(enc_frames(s.take(i + 1)) == enc_frame(s[0]) + (enc_frames(t.take(i - 1))
            + enc_frame(t[i - 1])));
        assert(enc_frame(s[0]) + (enc_frames(t.take(i - 1)) + enc_frame(t[i - 1])) =~= (enc_frame(
            s[0],
        ) + enc_frames(t.take(i - 1))) + enc_frame(t[i - 1]));
    }
}

/// Encoding one more event appends its bytes.
proof fn lemma_enc_events_snoc(s: Seq<Event>, i: int)
    requires
        0 <= i < s.len(),
    ensures
        enc_events(s.take(i + 1)) == enc_events(s.take(i)) + enc_event(s[i]),
    decreases i,
{
    if i == 0 {
        assert(s.take(1) =~= seq![s[0]]);
        assert(s.take(1).drop_first() =~= Seq::<Event>::empty());
        assert(s.take(0) =~= Seq::<Event>::empty());
        assert(enc_events(s.take(i + 1)) =~= enc_events(s.take(i)) + enc_event(s[i]));
    } else {
        let t = s.drop_first();
        lemma_enc_events_snoc(t, i - 1);
        assert(s.take(i + 1).drop_first() =~= t.take(i));
        assert(s.take(i).drop_first() =~= t.take(i - 1));
        assert(enc_events(s.take(i + 1)) == enc_event(s[0]) + (enc_events(t.take(i - 1))
            + enc_event(t[i - 1])));
        assert(enc_event(s[0]) + (enc_events(t.take(i - 1)) + enc_event(t[i - 1])) =~= (enc_event(
            s[0],
        ) + enc_events(t.take(i - 1))) + enc_event(t[i - 1]));
    }
}

/// Append the 27 wire bytes of one frame.
fn write_frame(out: &mut Vec<u8>, f: Frame)
    ensures
        final(out)@ == old(out)@ + enc_frame(f),
{
    write_u32(out, f.bike.x);
    write_u32(out, f.bike.y);
    write_u16(out, i16_to_u16(f.left_wheel.x));
    write_u16(out, i16_to_u16(f.left_wheel.y));
    write_u16(out, i16_to_u16(f.right_wheel.x));
    write_u16(out, i16_to_u16(f.right_wheel.y));
    write_u16(out, i16_to_u16(f.head.x));
    write_u16(out, i16_to_u16(f.head.y));
    write_u16(out, i16_to_u16(f.rotation));
    out.push(f.left_wheel_rotation);
    out.push(f.right_wheel_rotation);
    let flags: u8 = (if f.throttle {
        1u8
    } else {
        0
    }) + (if f.right {
        2u8
    } else {
        0
    });
    out.push(flags);
    write_u16(out, i16_to_u16(f.volume));
    assert(out@ =~= old(out)@ + enc_frame(f));
}

/// Append the 16 wire bytes of one event.
fn write_event(out: &mut Vec<u8>, e: Event)
    ensures
        final(out)@ == old(out)@ + enc_event(e),
{
    write_u64(out, e.time);
    write_u32(out, e.event_type.0);
    write_u32(out, e.event_type.1);
    assert(out@ =~= old(out)@ + enc_event(e));
}

/// Encode a whole replay record to its wire bytes; the exact mirror of
/// [`decode_replay`].  Fails, without output, exactly when a field cannot
/// live in the fixed layout.
#[verifier::rlimit(50)]
pub fn encode_replay(rec: &Rec) -> (r: Result<Vec<u8>, EncodeError>)
    ensures
        match r {
            Ok(v) => spec_encode_replay(rec@) == Ok::<Seq<u8>, EncodeError>(v@),
            Err(e) => spec_encode_replay(rec@) == Err::<Seq<u8>, EncodeError>(e),
        },
{
    if rec.frames.len() > REC_COUNT_MAX {
        return Err(EncodeError::CapacityExceeded { section: SectionId::Frames, max: REC_COUNT_MAX });
    }
    if rec.level.len() >= LEVEL_NAME_BYTES {
        return Err(EncodeError::FieldTooLong { field: FieldId::LevelFilename, max: LEVEL_NAME_BYTES });
    }
    if rec.events.len() > REC_COUNT_MAX {
        return Err(EncodeError::CapacityExceeded { section: SectionId::Events, max: REC_COUNT_MAX });
    }
    let mut out: Vec<u8> = Vec::new();
    write_u32(&mut out, rec.frames.len() as u32);
    write_u32(
        &mut out,
        if rec.multi {
            1
        } else {
            0
        },
    );
    write_u32(
        &mut out,
        if rec.flag_tag {
            1
        } else {
            0
        },
    );
    write_u32(&mut out, i32_to_u32(rec.link));
    write_field(&mut out, &rec.level, LEVEL_NAME_BYTES);
    let ghost header = le32(rec.frames@.len() as u32) + le32(bool32(rec.multi)) + le32(
        bool32(rec.flag_tag),
    ) + le32(as_u32(rec.link)) + slot_of(rec.level@, LEVEL_NAME_BYTES as nat);
    assert(out@ =~= header);
    let mut i: usize = 0;
    while i < rec.frames.len()
        invariant
            i <= rec.frames.len(),
            out@ == header + enc_frames(rec.frames@.take(i as int)),
        decreases rec.frames.len() - i,
    {
        write_frame(&mut out, rec.frames[i]);
        i = i + 1;
        proof {
            lemma_enc_frames_snoc(rec.frames@, i - 1);
            assert(out@ =~= header + enc_frames(rec.frames@.take(i as int)));
        }
    }
    assert(rec.frames@.take(rec.frames@.len() as int) =~= rec.frames@);
    let ghost with_frames = header + enc_frames(rec.frames@);
    write_u32(&mut out, rec.events.len() as u32);
    let ghost with_ec = with_frames + le32(rec.events@.len() as u32);
    let mut j: usize = 0;
    while j < rec.events.len()
        invariant
            j <= rec.events.len(),
            out@ == with_ec + enc_events(rec.events@.take(j as int)),
        decreases rec.events.len() - j,
    {
        write_event(&mut out, rec.events[j]);
        j = j + 1;
        proof {
            lemma_enc_events_snoc(rec.events@, j - 1);
            assert(out@ =~= with_ec + enc_events(rec.events@.take(j as int)));
        }
    }
    assert(rec.events@.take(rec.events@.len() as int) =~= rec.events@);
    write_u32(&mut out, EOR);
    proof {
        assert(out@ =~= spec_encode_replay(rec@)->Ok_0);
    }
    Ok(out)
}

/// A replay that both directions carry faithfully: encodable, and with a
/// filename free of interior zero bytes (a read stops at the first zero).
pub open spec fn replay_valid(r: RecV) -> bool {
    &&& replay_encodable(r)
    &&& fits(r.level, LEVEL_NAME_BYTES as nat)
}

/// Reading back the 27 bytes written for a frame gives the same frame.
#[verifier::rlimit(50)]
proof fn lemma_frame_round_trip(s: Seq<u8>, pos: int, f: Frame)
    requires
        0 <= pos,
        pos + FRAME_BYTES <= s.len(),
        s.subrange(pos, pos + FRAME_BYTES) == enc_frame(f),
    ensures
        frame_at(s, pos) == f,
{
    let e = FRAME_BYTES as int;
    s.lemma_slice_of_slice(pos, pos + e, 0, 4);
    s.lemma_slice_of_slice(pos, pos + e, 4, 8);
    s.lemma_slice_of_slice(pos, pos + e, 8, 10);
    s.lemma_slice_of_slice(pos, pos + e, 10, 12);
    s.lemma_slice_of_slice(pos, pos + e, 12, 14);
    s.lemma_slice_of_slice(pos, pos + e, 14, 16);
    s.lemma_slice_of_slice(pos, pos + e, 16, 18);
    s.lemma_slice_of_slice(pos, pos + e, 18, 20);
    s.lemma_slice_of_slice(pos, pos + e, 20, 22);
    s.lemma_slice_of_slice(pos, pos + e, 25, 27);
    let w = enc_frame(f);
    assert(w.subrange(0, 4) =~= le32(f.bike.x));
    assert(w.subrange(4, 8) =~= le32(f.bike.y));
    assert(w.subrange(8, 10) =~= le16(as_u16(f.left_wheel.x)));
    assert(w.subrange(10, 12) =~= le16(as_u16(f.left_wheel.y)));
    assert(w.subrange(12, 14) =~= le16(as_u16(f.right_wheel.x)));
    assert(w.subrange(14, 16) =~= le16(as_u16(f.right_wheel.y)));
    assert(w.subrange(16, 18) =~= le16(as_u16(f.head.x)));
    assert(w.subrange(18, 20) =~= le16(as_u16(f.head.y)));
    assert(w.subrange(20, 22) =~= le16(as_u16(f.rotation)));
    assert(w.subrange(25, 27) =~= le16(as_u16(f.volume)));
    assert(s.subrange(pos, pos + e)[22] == s[pos + 22]);
    assert(s.subrange(pos, pos + e)[23] == s[pos + 23]);
    assert(s.subrange(pos, pos + e)[24] == s[pos + 24]);
    assert(w[22] == f.left_wheel_rotation);
    assert(w[23] == f.right_wheel_rotation);
    assert(w[24] == flags_byte(f.throttle, f.right));
    lemma_u32_round_trip(f.bike.x);
    lemma_u32_round_trip(f.bike.y);
    lemma_u16_round_trip(as_u16(f.left_wheel.x));
    lemma_u16_round_trip(as_u16(f.left_wheel.y));
    lemma_u16_round_trip(as_u16(f.right_wheel.x));
    lemma_u16_round_trip(as_u16(f.right_wheel.y));
    lemma_u16_round_trip(as_u16(f.head.x));
    lemma_u16_round_trip(as_u16(f.head.y));
    lemma_u16_round_trip(as_u16(f.rotation));
    lemma_u16_round_trip(as_u16(f.volume));
    lemma_as_i16_of_u16(f.left_wheel.x);
    lemma_as_i16_of_u16(f.left_wheel.y);
    lemma_as_i16_of_u16(f.right_wheel.x);
    lemma_as_i16_of_u16(f.right_wheel.y);
    lemma_as_i16_of_u16(f.head.x);
    lemma_as_i16_of_u16(f.head.y);
    lemma_as_i16_of_u16(f.rotation);
    lemma_as_i16_of_u16(f.volume);
}

/// Reading back the 16 bytes written for an event gives the same event.
#[verifier::rlimit(50)]
proof fn lemma_event_round_trip(s: Seq<u8>, pos: int, e: Event)
    requires
        0 <= pos,
        pos + EVENT_BYTES <= s.len(),
        s.subrange(pos, pos + EVENT_BYTES) == enc_event(e),
    ensures
        event_at(s, pos) == e,
{
    let n = EVENT_BYTES as int;
    s.lemma_slice_of_slice(pos, pos + n, 0, 8);
    s.lemma_slice_of_slice(pos, pos + n, 8, 12);
    s.lemma_slice_of_slice(pos, pos + n, 12, 16);
    let w = enc_event(e);
    assert(w.subrange(0, 8) =~= le64(e.time));
    assert(w.subrange(8, 12) =~= le32(e.event_type.0));
    assert(w.subrange(12, 16) =~= le32(e.event_type.1));
    lemma_u64_round_trip(e.time);
    lemma_u32_round_trip(e.event_type.0);
    lemma_u32_round_trip(e.event_type.1);
}

/// Parsing the bytes written for a run of frames gives the run back and
/// stops right after it.
#[verifier::rlimit(50)]
proof fn lemma_frames_round_trip(s: Seq<u8>, pos: int, fr: Seq<Frame>)
    requires
        0 <= pos,
        pos + FRAME_BYTES * fr.len() <= s.len(),
        s.subrange(pos, pos + FRAME_BYTES * fr.len()) == enc_frames(fr),
    ensures
        parse_frames(s, pos, fr.len()) == Ok::<_, FormatError>(
            (fr, pos + FRAME_BYTES * fr.len()),
        ),
    decreases fr.len(),
{
    lemma_enc_frames_len(fr);
    if fr.len() == 0 {
        assert(fr =~= Seq::<Frame>::empty());
    } else {
        let rest = fr.drop_first();
        lemma_enc_frames_len(rest);
        let total = FRAME_BYTES * fr.len();
        s.lemma_slice_of_slice(pos, pos + total, 0, FRAME_BYTES as int);
        assert(enc_frames(fr).subrange(0, FRAME_BYTES as int) =~= enc_frame(fr[0]));
        lemma_frame_round_trip(s, pos, fr[0]);
        s.lemma_slice_of_slice(pos, pos + total, FRAME_BYTES as int, total);
        assert(enc_frames(fr).subrange(FRAME_BYTES as int, total) =~= enc_frames(rest));
        lemma_frames_round_trip(s, pos + FRAME_BYTES as int, rest);
        assert(seq![fr[0]] + rest =~= fr);
    }
}

/// Parsing the bytes written for a run of events gives the run back and
/// stops right after it.
#[verifier::rlimit(50)]
proof fn lemma_events_round_trip(s: Seq<u8>, pos: int, ev: Seq<Event>)
    requires
        0 <= pos,
        pos + EVENT_BYTES * ev.len() <= s.len(),
        s.subrange(pos, pos + EVENT_BYTES * ev.len()) == enc_events(ev),
    ensures
        parse_events(s, pos, ev.len()) == Ok::<_, FormatError>(
            (ev, pos + EVENT_BYTES * ev.len()),
        ),
    decreases ev.len(),
{
    lemma_enc_events_len(ev);
    if ev.len() == 0 {
        assert(ev =~= Seq::<Event>::empty());
    } else {
        let rest = ev.drop_first();
        lemma_enc_events_len(rest);
        let total = EVENT_BYTES * ev.len();
        s.lemma_slice_of_slice(pos, pos + total, 0, EVENT_BYTES as int);
        assert(enc_events(ev).subrange(0, EVENT_BYTES as int) =~= enc_event(ev[0]));
        lemma_event_round_trip(s, pos, ev[0]);
        s.lemma_slice_of_slice(pos, pos + total, EVENT_BYTES as int, total);
        assert(enc_events(ev).subrange(EVENT_BYTES as int, total) =~= enc_events(rest));
        lemma_events_round_trip(s, pos + EVENT_BYTES as int, rest);
        assert(seq![ev[0]] + rest =~= ev);
    }
}

/// Decoding an encoded replay gives the replay back, for every replay the
/// wire layout can carry.
///
/// A filename with an interior zero byte is the one exclusion: the read
/// stops at the first zero, so such a name cannot survive the trip.
#[verifier::rlimit(100)]
pub proof fn lemma_replay_round_trip(r: RecV)
    requires
        replay_valid(r),
    ensures
        spec_encode_replay(r) is Ok,
        spec_decode_replay(spec_encode_replay(r)->Ok_0) == Ok::<RecV, FormatError>(r),
{
    let s = spec_encode_replay(r)->Ok_0;
    lemma_enc_frames_len(r.frames);
    lemma_enc_events_len(r.events);
    let fb = FRAME_BYTES * r.frames.len();
    let evb = EVENT_BYTES * r.events.len();
    let p1 = HEADER_BYTES + fb;
    let p2 = p1 + 4 + evb;
    // name the segments and the cumulative prefixes of the wire bytes
    let h1 = le32(r.frames.len() as u32);
    let h2 = le32(bool32(r.multi));
    let h3 = le32(bool32(r.flag_tag));
    let h4 = le32(as_u32(r.link));
    let h5 = slot_of(r.level, LEVEL_NAME_BYTES as nat);
    let sf = enc_frames(r.frames);
    let h7 = le32(r.events.len() as u32);
    let se = enc_events(r.events);
    let h9 = le32(EOR);
    let c2 = h1 + h2;
    let c3 = c2 + h3;
    let c4 = c3 + h4;
    let c5 = c4 + h5;
    let c6 = c5 + sf;
    let c7 = c6 + h7;
    let c8 = c7 + se;
    assert(s == c8 + h9);
    assert(s.len() == p2 + 4);
    // carve each segment back out of the concatenation
    lemma_sub_left(c8, h9, 0, 4);
    lemma_sub_left(c7, se, 0, 4);
    lemma_sub_left(c6, h7, 0, 4);
    lemma_sub_left(c5, sf, 0, 4);
    lemma_sub_left(c4, h5, 0, 4);
    lemma_sub_left(c3, h4, 0, 4);
    lemma_sub_left(c2, h3, 0, 4);
    lemma_split_at(h1, h2);
    assert(s.subrange(0, 4) == h1);
    lemma_sub_left(c8, h9, 4, 8);
    lemma_sub_left(c7, se, 4, 8);
    lemma_sub_left(c6, h7, 4, 8);
    lemma_sub_left(c5, sf, 4, 8);
    lemma_sub_left(c4, h5, 4, 8);
    lemma_sub_left(c3, h4, 4, 8);
    assert(s.subrange(4, 8) == h2);
    lemma_sub_left(c8, h9, 8, 12);
    lemma_sub_left(c7, se, 8, 12);
    lemma_sub_left(c6, h7, 8, 12);
    lemma_sub_left(c5, sf, 8, 12);
    lemma_sub_left(c4, h5, 8, 12);
    lemma_split_at(c2, h3);
    assert(s.subrange(8, 12) == h3);
    lemma_sub_left(c8, h9, 12, 16);
    lemma_sub_left(c7, se, 12, 16);
    lemma_sub_left(c6, h7, 12, 16);
    lemma_sub_left(c5, sf, 12, 16);
    lemma_split_at(c3, h4);
    assert(s.subrange(12, 16) == h4);
    lemma_sub_left(c8, h9, 16, 28);
    lemma_sub_left(c7, se, 16, 28);
    lemma_sub_left(c6, h7, 16, 28);
    lemma_sub_left(c5, sf, 16, 28);
    lemma_split_at(c4, h5);
    assert(s.subrange(16, 28) == h5);
    lemma_sub_left(c8, h9, 28, p1 as int);
    lemma_sub_left(c7, se, 28, p1 as int);
    lemma_sub_left(c6, h7, 28, p1 as int);
    lemma_split_at(c5, sf);
    assert(s.subrange(28, p1 as int) == sf);
    lemma_sub_left(c8, h9, p1 as int, p1 as int + 4);
    lemma_sub_left(c7, se, p1 as int, p1 as int + 4);
    lemma_split_at(c6, h7);
    assert(s.subrange(p1 as int, p1 as int + 4) == h7);
    lemma_sub_left(c8, h9, p1 as int + 4, p2 as int);
    lemma_split_at(c7, se);
    assert(s.subrange(p1 as int + 4, p2 as int) == se);
    lemma_split_at(c8, h9);
    assert(s.subrange(p2 as int, p2 as int + 4) == h9);
    // header fields decode to the record's fields
    lemma_u32_round_trip(r.frames.len() as u32);
    lemma_u32_round_trip(bool32(r.multi));
    lemma_u32_round_trip(bool32(r.flag_tag));
    lemma_u32_round_trip(as_u32(r.link));
    lemma_as_i32_of_u32(r.link);
    assert(as_i32(u32_of(s.subrange(0, 4))) == r.frames.len());
    assert((u32_of(s.subrange(4, 8)) != 0) == r.multi);
    assert((u32_of(s.subrange(8, 12)) != 0) == r.flag_tag);
    lemma_field_round_trip(r.level, LEVEL_NAME_BYTES as nat);
    assert(text_of(s.subrange(16, 28)) == r.level);
    // the two runs and the counts before them
    lemma_frames_round_trip(s, HEADER_BYTES as int, r.frames);
    lemma_u32_round_trip(r.events.len() as u32);
    assert(as_i32(u32_of(s.subrange(p1 as int, p1 as int + 4))) == r.events.len());
    lemma_events_round_trip(s, p1 as int + 4, r.events);
    lemma_u32_round_trip(EOR);
    let d = spec_decode_replay(s);
    assert(d is Ok);
    assert(d->Ok_0 == RecV {
        multi: r.multi,
        flag_tag: r.flag_tag,
        link: r.link,
        level: r.level,
        frames: r.frames,
        events: r.events,
    });
}

} // verus!
