use elma::lev::crypt_top10;
use elma::lev::decode_level;
use elma::lev::encode_level;
use elma::lev::ClipMode;
use elma::lev::Level;
use elma::lev::ListEntry;
use elma::lev::Object;
use elma::lev::ObjectType;
use elma::lev::Picture;
use elma::lev::Polygon;
use elma::lev::Version;
use elma::rec::decode_replay;
use elma::rec::encode_replay;
use elma::rec::Event;
use elma::rec::Frame;
use elma::rec::Rec;
use elma::EncodeError;
use elma::FieldId;
use elma::FormatError;
use elma::Position;
use elma::SectionId;
use rand::random;

fn pos64(x: f64, y: f64) -> Position<u64> {
    Position { x: x.to_bits(), y: y.to_bits() }
}

fn sample_level() -> Level {
    Level {
        version: Version::Elma,
        link: 1524269776,
        integrity: [
            (-1148375.210607791f64).to_bits(),
            (1164056.210607791f64).to_bits(),
            (1162467.210607791f64).to_bits(),
            (1162283.210607791f64).to_bits(),
        ],
        name: b"Rust test".to_vec(),
        lgr: b"default".to_vec(),
        ground: b"ground".to_vec(),
        sky: b"sky".to_vec(),
        polygons: vec![
            Polygon {
                grass: false,
                vertices: vec![
                    pos64(-23.993693053024586, -3.135779448402292),
                    pos64(-23.83645939819548, 1.995755366905195),
                    pos64(-15.989070625361132, 2.230902525487564),
                    pos64(-16.23063374302839, -2.96072133195798),
                ],
            },
            Polygon {
                grass: true,
                vertices: vec![
                    pos64(-23.993693053024586, -3.135779448402292),
                    pos64(-15.989070625361132, 2.230902525487564),
                    pos64(-16.23063374302839, -2.96072133195798),
                ],
            },
        ],
        objects: vec![
            Object {
                position: pos64(-23.221818747499999, -1.3204453532000001),
                object_type: ObjectType::Player,
                gravity: 0,
                animation: 1,
            },
            Object {
                position: pos64(-16.5, -1.0),
                object_type: ObjectType::Exit,
                gravity: 0,
                animation: 1,
            },
            Object {
                position: pos64(-17.0, 0.0),
                object_type: ObjectType::Apple,
                gravity: 1,
                animation: 3,
            },
            Object {
                position: pos64(-18.0, 0.25),
                object_type: ObjectType::Apple,
                gravity: 2,
                animation: 9,
            },
            Object {
                position: pos64(-19.0, 0.5),
                object_type: ObjectType::Killer,
                gravity: 0,
                animation: 1,
            },
            Object {
                position: pos64(-20.0, 0.75),
                object_type: ObjectType::Apple,
                gravity: 0,
                animation: 1,
            },
            Object {
                position: pos64(-21.0, 1.0),
                object_type: ObjectType::Killer,
                gravity: 0,
                animation: 1,
            },
            Object {
                position: pos64(-22.0, 1.25),
                object_type: ObjectType::Exit,
                gravity: 0,
                animation: 1,
            },
        ],
        pictures: vec![
            Picture {
                name: b"barrel".to_vec(),
                texture: Vec::new(),
                mask: Vec::new(),
                position: pos64(-19.37674118849727, 0.895119783101471),
                distance: 380,
                clip: ClipMode::Sky,
            },
            Picture {
                name: Vec::new(),
                texture: b"stone1".to_vec(),
                mask: b"maskbig".to_vec(),
                position: pos64(-24.465594649792746, -3.964829547979911),
                distance: 750,
                clip: ClipMode::Ground,
            },
        ],
        top10_single: vec![
            ListEntry { name_1: b"Rust".to_vec(), name_2: Vec::new(), time: 2039 },
            ListEntry { name_1: b"Pelle".to_vec(), name_2: Vec::new(), time: 4413 },
        ],
        top10_multi: vec![ListEntry {
            name_1: b"Rust".to_vec(),
            name_2: b"Pelle".to_vec(),
            time: 2512,
        }],
    }
}

// The cipher is its own inverse on random data.
#[test]
fn test_decrypt_encrypt() {
    let mut initial: Vec<u8> = vec![];
    for _ in 0..688 {
        initial.push(random::<u8>());
    }
    let decrypted = crypt_top10(initial.clone());
    let encrypted = crypt_top10(decrypted);
    assert_eq!(initial, encrypted);
}

// The cipher is its own inverse on the all-zero block.
#[test]
fn test_crypt_all_zero() {
    let block = vec![0u8; 688];
    let once = crypt_top10(block.clone());
    assert_ne!(once, block);
    assert_eq!(crypt_top10(once), block);
}

// The cipher is its own inverse on the all-0xFF block.
#[test]
fn test_crypt_all_ff() {
    let block = vec![0xFFu8; 688];
    let once = crypt_top10(block.clone());
    assert_ne!(once, block);
    assert_eq!(crypt_top10(once), block);
}

#[test]
fn test_lev_default_values() {
    let level = Level::new();
    assert_eq!(level.version, Version::Elma);
    assert_eq!(level.link, 0);
    assert_eq!(level.integrity, [0.0f64.to_bits(); 4]);
    assert_eq!(level.name, b"".to_vec());
    assert_eq!(level.lgr, b"default".to_vec());
    assert_eq!(level.ground, b"ground".to_vec());
    assert_eq!(level.sky, b"sky".to_vec());
    let polygon = Polygon::new();
    assert_eq!(polygon.grass, false);
    assert_eq!(polygon.vertices.len(), 0);
}

#[test]
fn test_rec_default_values() {
    let rec = Rec::new();
    assert_eq!(rec.multi, false);
    assert_eq!(rec.flag_tag, false);
    assert_eq!(rec.link, 0);
    assert_eq!(rec.level, b"".to_vec());
    assert_eq!(rec.frames, vec![]);
    assert_eq!(rec.events, vec![]);
}

// End-to-end fixture: the sample level comes back field for field.
#[test]
fn test_lev_load_level() {
    let level = sample_level();
    let bytes = encode_level(&level).unwrap();
    let decoded = decode_level(&bytes).unwrap();
    assert_eq!(decoded.version, Version::Elma);
    assert_eq!(decoded.link, 1524269776);
    assert_eq!(
        decoded.integrity,
        [
            (-1148375.210607791f64).to_bits(),
            (1164056.210607791f64).to_bits(),
            (1162467.210607791f64).to_bits(),
            (1162283.210607791f64).to_bits(),
        ]
    );
    assert_eq!(decoded.name, b"Rust test".to_vec());
    assert_eq!(decoded.lgr, b"default".to_vec());
    assert_eq!(decoded.ground, b"ground".to_vec());
    assert_eq!(decoded.sky, b"sky".to_vec());
    assert_eq!(decoded.polygons.len(), 2);
    assert_eq!(decoded.objects.len(), 8);
    assert_eq!(decoded.pictures.len(), 2);
    assert_eq!(decoded, level);
}

// Round trip of a level with no polygons, objects, pictures or entries.
#[test]
fn test_lev_round_trip_empty() {
    let level = Level::new();
    let bytes = encode_level(&level).unwrap();
    let decoded = decode_level(&bytes).unwrap();
    assert_eq!(decoded, level);
}

// Round trip keeps full leaderboards, shared vertices and all clip modes.
#[test]
fn test_lev_round_trip_full_top10() {
    let mut level = sample_level();
    level.top10_single.clear();
    level.top10_multi.clear();
    for i in 0..10 {
        level.top10_single.push(ListEntry {
            name_1: format!("play{}", i).into_bytes(),
            name_2: Vec::new(),
            time: 100 * i + 7,
        });
        level.top10_multi.push(ListEntry {
            name_1: format!("left{}", i).into_bytes(),
            name_2: format!("right{}", i).into_bytes(),
            time: 90 * i + 11,
        });
    }
    level.pictures.push(Picture {
        name: b"flag".to_vec(),
        texture: Vec::new(),
        mask: Vec::new(),
        position: pos64(1.0, 2.0),
        distance: 0,
        clip: ClipMode::Unclipped,
    });
    let bytes = encode_level(&level).unwrap();
    let decoded = decode_level(&bytes).unwrap();
    assert_eq!(decoded, level);
}

// A buffer with an unknown signature is rejected as a whole.
#[test]
fn test_lev_unknown_signature() {
    let mut bytes = encode_level(&sample_level()).unwrap();
    bytes[4] = b'9';
    assert_eq!(decode_level(&bytes), Err(FormatError::UnknownSignature));
    assert_eq!(decode_level(&vec![]), Err(FormatError::UnknownSignature));
    assert_eq!(decode_level(&b"POT".to_vec()), Err(FormatError::UnknownSignature));
}

// A corrupted end-of-data sentinel is reported with both values and its offset.
#[test]
fn test_lev_eod_sentinel_mismatch() {
    let level = Level::new();
    let mut bytes = encode_level(&level).unwrap();
    // header 138, three count doubles of 8 bytes each with empty sections
    let eod_offset = 138 + 8 + 8;
    let found = u32::from_le_bytes([
        bytes[eod_offset],
        bytes[eod_offset + 1],
        bytes[eod_offset + 2],
        bytes[eod_offset + 3],
    ]);
    assert_eq!(found, 0x0067103A);
    bytes[eod_offset] ^= 0xFF;
    assert_eq!(
        decode_level(&bytes),
        Err(FormatError::SentinelMismatch {
            expected: 0x0067103A,
            found: found ^ 0xFF,
            offset: eod_offset,
        })
    );
}

// A corrupted end-of-file sentinel is caught after the leaderboard block.
#[test]
fn test_lev_eof_sentinel_mismatch() {
    let level = Level::new();
    let mut bytes = encode_level(&level).unwrap();
    let eof_offset = bytes.len() - 4;
    bytes[eof_offset + 3] = 0x77;
    match decode_level(&bytes) {
        Err(FormatError::SentinelMismatch { expected, offset, .. }) => {
            assert_eq!(expected, 0x00845D52);
            assert_eq!(offset, eof_offset);
        }
        other => panic!("expected a sentinel mismatch, got {:?}", other),
    }
}

// An object kind tag outside 1 to 4 aborts the decode.
#[test]
fn test_lev_invalid_object_type() {
    let mut level = Level::new();
    level.objects.push(Object {
        position: pos64(0.0, 0.0),
        object_type: ObjectType::Exit,
        gravity: 0,
        animation: 1,
    });
    let mut bytes = encode_level(&level).unwrap();
    // object section begins after the header and two count doubles
    let tag_offset = 138 + 8 + 16;
    assert_eq!(bytes[tag_offset], 1);
    bytes[tag_offset] = 9;
    assert_eq!(decode_level(&bytes), Err(FormatError::InvalidObjectType(9)));
}

// A clip tag outside 0 to 2 aborts the decode.
#[test]
fn test_lev_invalid_clip_mode() {
    let mut level = Level::new();
    level.pictures.push(Picture {
        name: b"flag".to_vec(),
        texture: Vec::new(),
        mask: Vec::new(),
        position: pos64(0.0, 0.0),
        distance: 55,
        clip: ClipMode::Unclipped,
    });
    let mut bytes = encode_level(&level).unwrap();
    // picture section begins after the header and three count doubles
    let clip_offset = 138 + 8 + 8 + 50;
    assert_eq!(bytes[clip_offset], 0);
    bytes[clip_offset] = 3;
    assert_eq!(decode_level(&bytes), Err(FormatError::InvalidClipMode(3)));
}

// A count double that is not a plausible biased count is rejected.
#[test]
fn test_lev_count_out_of_range() {
    let level = Level::new();
    let mut bytes = encode_level(&level).unwrap();
    for i in 130..138 {
        bytes[i] = 0xFF;
    }
    assert_eq!(decode_level(&bytes), Err(FormatError::CountOutOfRange { offset: 130 }));
}

// A truncated buffer is rejected with the offset of the missing field.
#[test]
fn test_lev_unexpected_end() {
    let level = Level::new();
    let bytes = encode_level(&level).unwrap();
    let truncated = bytes[..140].to_vec();
    // the object count double at 138 no longer fits
    assert_eq!(decode_level(&truncated), Err(FormatError::UnexpectedEnd { offset: 138 }));
}

// An oversized name fails the encode with the field and its capacity.
#[test]
fn test_lev_name_too_long() {
    let mut level = Level::new();
    level.name = vec![b'x'; 51];
    assert_eq!(
        encode_level(&level),
        Err(EncodeError::FieldTooLong { field: FieldId::Name, max: 51 })
    );
}

// An overfull leaderboard fails the encode with the section and its capacity.
#[test]
fn test_lev_top10_capacity() {
    let mut level = Level::new();
    for i in 0..11 {
        level.top10_single.push(ListEntry {
            name_1: vec![b'a' + i as u8],
            name_2: Vec::new(),
            time: i,
        });
    }
    assert_eq!(
        encode_level(&level),
        Err(EncodeError::CapacityExceeded { section: SectionId::SingleList, max: 10 })
    );
}

fn sample_replay() -> Rec {
    Rec {
        multi: false,
        flag_tag: false,
        link: 1524269776,
        level: b"rust.lev".to_vec(),
        frames: vec![
            Frame {
                bike: Position { x: (-15.3f32).to_bits(), y: 0.95f32.to_bits() },
                left_wheel: Position { x: -517, y: -689 },
                right_wheel: Position { x: 32, y: -700 },
                head: Position { x: 7, y: 620 },
                rotation: 9540,
                left_wheel_rotation: 250,
                right_wheel_rotation: 11,
                throttle: true,
                right: false,
                volume: 12000,
            },
            Frame {
                bike: Position { x: (-15.1f32).to_bits(), y: 0.9f32.to_bits() },
                left_wheel: Position { x: -500, y: -680 },
                right_wheel: Position { x: 40, y: -695 },
                head: Position { x: 5, y: 615 },
                rotation: 9620,
                left_wheel_rotation: 252,
                right_wheel_rotation: 14,
                throttle: true,
                right: true,
                volume: -11,
            },
        ],
        events: vec![
            Event { time: 1.5397536011387468f64.to_bits(), event_type: (327680, 0) },
            Event { time: 2.921818281513622f64.to_bits(), event_type: (5, 421700) },
        ],
    }
}

// Round trip of an empty replay and of one with frames and events.
#[test]
fn test_rec_round_trip() {
    let empty = Rec::new();
    let bytes = encode_replay(&empty).unwrap();
    assert_eq!(decode_replay(&bytes).unwrap(), empty);
    let rec = sample_replay();
    let bytes = encode_replay(&rec).unwrap();
    assert_eq!(decode_replay(&bytes).unwrap(), rec);
}

// The frame and event order is preserved exactly.
#[test]
fn test_rec_order_preserved() {
    let rec = sample_replay();
    let bytes = encode_replay(&rec).unwrap();
    let decoded = decode_replay(&bytes).unwrap();
    assert_eq!(decoded.frames[0], rec.frames[0]);
    assert_eq!(decoded.frames[1], rec.frames[1]);
    assert_eq!(decoded.events[0], rec.events[0]);
    assert_eq!(decoded.events[1], rec.events[1]);
}

// A corrupted end-of-replay sentinel is rejected.
#[test]
fn test_rec_sentinel_mismatch() {
    let rec = Rec::new();
    let mut bytes = encode_replay(&rec).unwrap();
    let off = bytes.len() - 4;
    let found = u32::from_le_bytes([bytes[off], bytes[off + 1], bytes[off + 2], bytes[off + 3]]);
    assert_eq!(found, 0x00492F75);
    bytes[off] = 0;
    assert_eq!(
        decode_replay(&bytes),
        Err(FormatError::SentinelMismatch { expected: 0x00492F75, found: 0x00492F00, offset: off })
    );
}

// An oversized level filename fails the encode.
#[test]
fn test_rec_filename_too_long() {
    let mut rec = Rec::new();
    rec.level = b"muchtoolongname.lev".to_vec();
    assert_eq!(
        encode_replay(&rec),
        Err(EncodeError::FieldTooLong { field: FieldId::LevelFilename, max: 12 })
    );
}

// A negative frame count is rejected as out of range.
#[test]
fn test_rec_negative_count() {
    let rec = Rec::new();
    let mut bytes = encode_replay(&rec).unwrap();
    bytes[3] = 0x80;
    assert_eq!(decode_replay(&bytes), Err(FormatError::CountOutOfRange { offset: 0 }));
}

// Fixed-width slots: store, read back, and the mandatory trailing zero.
#[test]
fn test_fixed_field_round_trip() {
    let text = b"abc".to_vec();
    let slot = elma::fixed::encode_field(&text, 5, FieldId::Name).unwrap();
    assert_eq!(slot, vec![97, 98, 99, 0, 0]);
    let buf = slot;
    assert_eq!(elma::fixed::decode_field(&buf, 0, 5), text);
    // stale bytes after the first zero are ignored on read
    let stale = vec![97, 98, 0, 77, 88];
    assert_eq!(elma::fixed::decode_field(&stale, 0, 5), vec![97, 98]);
    // a text as long as the slot leaves no room for the trailing zero
    assert_eq!(
        elma::fixed::encode_field(&b"abcde".to_vec(), 5, FieldId::Lgr),
        Err(EncodeError::FieldTooLong { field: FieldId::Lgr, max: 5 })
    );
    assert_eq!(
        elma::fixed::encode_field(&b"abcdef".to_vec(), 5, FieldId::Lgr),
        Err(EncodeError::FieldTooLong { field: FieldId::Lgr, max: 5 })
    );
}

// The biased count fields reproduce the doubles a float writer would store.
#[test]
fn test_count_bits_exact() {
    // 0.4643643 itself, 2 + 0.4643643 and 8 + 0.4643643
    assert_eq!(elma::count::encode_count(0, 8365243553776645, 54), 0.4643643f64.to_bits());
    assert_eq!(elma::count::encode_count(2, 8365243553776645, 54), (2.4643643f64).to_bits());
    assert_eq!(elma::count::encode_count(8, 8365243553776645, 54), (8.4643643f64).to_bits());
    // the picture bias 0.2345672
    assert_eq!(elma::count::encode_count(2, 8451174036106725, 55), (2.2345672f64).to_bits());
    assert_eq!(elma::count::encode_count(65535, 8365243553776645, 54), (65535.4643643f64).to_bits());
}

// Every representable count survives the store-and-read trip.
#[test]
fn test_count_round_trip_exhaustive() {
    for n in 0..=65535u16 {
        let bits = elma::count::encode_count(n, 8365243553776645, 54);
        assert_eq!(elma::count::decode_count(bits, 8365243553776645, 54), Some(n));
        let bits = elma::count::encode_count(n, 8451174036106725, 55);
        assert_eq!(elma::count::decode_count(bits, 8451174036106725, 55), Some(n));
    }
}

// Counts that are negative, huge or not finite are rejected.
#[test]
fn test_count_rejects_garbage() {
    let mb = 8365243553776645u64;
    // minus one
    assert_eq!(elma::count::decode_count((-1.0f64).to_bits(), mb, 54), None);
    // far beyond the count domain
    assert_eq!(elma::count::decode_count(1.0e9f64.to_bits(), mb, 54), None);
    // not finite
    assert_eq!(elma::count::decode_count(f64::NAN.to_bits(), mb, 54), None);
    assert_eq!(elma::count::decode_count(f64::INFINITY.to_bits(), mb, 54), None);
    // a tiny value still rounds to zero
    assert_eq!(elma::count::decode_count(0.25f64.to_bits(), mb, 54), Some(0));
    assert_eq!(elma::count::decode_count(0.0f64.to_bits(), mb, 54), Some(0));
    assert_eq!(elma::count::decode_count((-0.01f64).to_bits(), mb, 54), Some(0));
}

// Bytes after the end-of-file sentinel are ignored, and the two reserved
// header bytes carry no meaning.
#[test]
fn test_lev_ignores_trailing_and_reserved() {
    let level = sample_level();
    let mut bytes = encode_level(&level).unwrap();
    bytes[5] = 0xAB;
    bytes[6] = 0xCD;
    bytes.extend_from_slice(b"trailing junk");
    assert_eq!(decode_level(&bytes).unwrap(), level);
}

// The zero-based store of the animation index wraps at the integer limits.
#[test]
fn test_lev_animation_wraps() {
    let mut level = Level::new();
    level.objects.push(Object {
        position: pos64(0.0, 0.0),
        object_type: ObjectType::Apple,
        gravity: 0,
        animation: i32::MIN,
    });
    let bytes = encode_level(&level).unwrap();
    let decoded = decode_level(&bytes).unwrap();
    assert_eq!(decoded.objects[0].animation, i32::MIN);
    assert_eq!(decoded, level);
}

// A fixed slot with no zero byte reads back as the whole slot.
#[test]
fn test_fixed_field_unterminated() {
    let full = vec![65u8, 66, 67, 68, 69];
    assert_eq!(elma::fixed::decode_field(&full, 0, 5), full);
}
