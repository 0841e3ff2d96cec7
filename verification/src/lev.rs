//! The level (`.lev`) format: geometry, objects, decorative pictures, and
//! two embedded leaderboards protected by a stream cipher.
//!
//! Layout, all integers and doubles little-endian: a 5-byte version
//! signature, 2 reserved bytes, the link, four integrity doubles, four
//! fixed-width names, then the polygon, object and picture sections (each
//! headed by a biased double count, see [`crate::count`]), the end-of-data
//! sentinel, the 688-byte enciphered leaderboard block (see
//! [`crate::crypt`]), and the end-of-file sentinel.

use vstd::prelude::*;
use crate::Position;
use crate::FormatError;
use crate::EncodeError;
use crate::FieldId;
use crate::SectionId;
use crate::bytes::le32;
use crate::bytes::le64;
use crate::bytes::u32_of;
use crate::bytes::u64_of;
use crate::bytes::as_i32;
use crate::bytes::as_u32;
use crate::count::bits_of_count;
use crate::count::count_of_bits;
use crate::crypt::crypt_seq;
use crate::fixed::text_of;
use crate::fixed::slot_of;
pub use crate::crypt::crypt_top10;

verus! {

/// End-of-data sentinel, before the leaderboard block.
pub const EOD: u32 = 0x0067103A;

/// End-of-file sentinel, after the leaderboard block.
pub const EOF: u32 = 0x00845D52;

/// Mantissa of the polygon/object count bias 0.4643643; its exact value is
/// this mantissa divided by `2^54`.
pub const COUNT_BIAS_MANTISSA: u64 = 8365243553776645;

/// Scale of the polygon/object count bias.
pub const COUNT_BIAS_SCALE: u32 = 54;

/// Mantissa of the picture count bias 0.2345672; its exact value is this
/// mantissa divided by `2^55`.
pub const PICTURE_BIAS_MANTISSA: u64 = 8451174036106725;

/// Scale of the picture count bias.
pub const PICTURE_BIAS_SCALE: u32 = 55;

/// Width of the level name slot.
pub const NAME_BYTES: usize = 51;

/// Width of the LGR name slot.
pub const LGR_BYTES: usize = 16;

/// Width of the ground and sky texture name slots.
pub const TEXTURE_BYTES: usize = 10;

/// Width of a picture name, texture or mask slot.
pub const PIC_NAME_BYTES: usize = 10;

/// Width of a leaderboard player name slot.
pub const ENTRY_NAME_BYTES: usize = 15;

/// Bytes of one object record on the wire.
pub const OBJECT_BYTES: usize = 28;

/// Bytes of one picture record on the wire.
pub const PICTURE_BYTES: usize = 54;

/// Bytes of one leaderboard sub-block.
pub const LIST_BYTES: usize = 344;

/// Bytes of the whole enciphered leaderboard block.
pub const TOP10_BYTES: usize = 688;

/// Entries a leaderboard sub-block can hold: the 344-byte block fits one
/// count word, ten times and ten name pairs.
pub const TOP10_CAP: usize = 10;

/// Largest polygon/object/picture count a biased count field can carry.
pub const LEV_COUNT_MAX: usize = 65535;

/// Largest vertex count the signed 32-bit vertex count field can carry.
pub const VERTEX_COUNT_MAX: usize = 0x7FFFFFFF;

/// Byte offset of the link field.
pub const LINK_OFFSET: usize = 7;

/// Byte offset of the four integrity doubles.
pub const INTEGRITY_OFFSET: usize = 11;

/// Byte offset of the level name slot.
pub const NAME_OFFSET: usize = 43;

/// Byte offset of the LGR name slot.
pub const LGR_OFFSET: usize = 94;

/// Byte offset of the ground texture name slot.
pub const GROUND_OFFSET: usize = 110;

/// Byte offset of the sky texture name slot.
pub const SKY_OFFSET: usize = 120;

/// Byte offset of the polygon count double.
pub const POLY_COUNT_OFFSET: usize = 130;

/// Byte offset of the first polygon record.
pub const POLY_OFFSET: usize = 138;

/// The two recognized level format versions, distinguished by the 5-byte
/// signature.
#[derive(Debug, Clone, Copy, PartialEq, Eq)]
pub enum Version {
    /// Signature `POT14`.
    Elma,
    /// Signature `POT06`.
    Across,
}

/// Type of object.
#[derive(Debug, Clone, Copy, PartialEq, Eq)]
pub enum ObjectType {
    Apple,
    Exit,
    Killer,
    Player,
}

/// How a picture is clipped against the scenery.
#[derive(Debug, Clone, Copy, PartialEq, Eq)]
pub enum ClipMode {
    Unclipped,
    Ground,
    Sky,
}

/// A game object.  Every playable level holds one `Player` object and at
/// least one `Exit` object; the codec records, and does not enforce, such
/// game-design rules.
#[derive(Debug, Clone, Copy, PartialEq, Eq)]
pub struct Object {
    /// Position (bit patterns of two 64-bit floats).
    pub position: Position<u64>,
    /// Type of object.
    pub object_type: ObjectType,
    /// Gravity modifier; meaningful only for apples.
    /// 0 = normal, 1 = up, 2 = down, 3 = left, 4 = right.
    pub gravity: i32,
    /// Animation index, one-based; meaningful only for apples.
    /// Valid values are 1 to 9.
    pub animation: i32,
}

/// A level polygon: an ordered ring of vertices.
#[derive(Debug, Clone, PartialEq, Eq)]
pub struct Polygon {
    /// Grass polygon.
    pub grass: bool,
    /// The vertices, in order (bit patterns of 64-bit float pairs).
    pub vertices: Vec<Position<u64>>,
}

/// A decorative picture.
#[derive(Debug, Clone, PartialEq, Eq)]
pub struct Picture {
    /// Picture name.
    pub name: Vec<u8>,
    /// Texture name.
    pub texture: Vec<u8>,
    /// Mask name.
    pub mask: Vec<u8>,
    /// Position (bit patterns of two 64-bit floats).
    pub position: Position<u64>,
    /// Z-ordering distance.
    pub distance: i32,
    /// Clipping.
    pub clip: ClipMode,
}

/// One leaderboard entry.
#[derive(Debug, Clone, PartialEq, Eq)]
pub struct ListEntry {
    /// Player 1 name.
    pub name_1: Vec<u8>,
    /// Player 2 name; used only in the multi-player list.
    pub name_2: Vec<u8>,
    /// Time in centiseconds.
    pub time: i32,
}

/// A whole level record.
#[derive(Debug, Clone, PartialEq, Eq)]
pub struct Level {
    /// Elma or Across level.
    pub version: Version,
    /// Random number that links the level file to replay files.
    pub link: i32,
    /// Four integrity checksums (bit patterns of 64-bit floats).
    pub integrity: [u64; 4],
    /// Level name.
    pub name: Vec<u8>,
    /// LGR file name.
    pub lgr: Vec<u8>,
    /// Ground texture name.
    pub ground: Vec<u8>,
    /// Sky texture name.
    pub sky: Vec<u8>,
    /// All polygons, in order.
    pub polygons: Vec<Polygon>,
    /// All objects, in order.
    pub objects: Vec<Object>,
    /// All pictures, in order.
    pub pictures: Vec<Picture>,
    /// Single-player leaderboard, at most ten entries.
    pub top10_single: Vec<ListEntry>,
    /// Multi-player leaderboard, at most ten entries.
    pub top10_multi: Vec<ListEntry>,
}

/// The mathematical value of a [`Polygon`].
pub struct PolygonV {
    pub grass: bool,
    pub vertices: Seq<Position<u64>>,
}

/// The mathematical value of a [`Picture`].
pub struct PictureV {
    pub name: Seq<u8>,
    pub texture: Seq<u8>,
    pub mask: Seq<u8>,
    pub position: Position<u64>,
    pub distance: i32,
    pub clip: ClipMode,
}

/// The mathematical value of a [`ListEntry`].
pub struct EntryV {
    pub name_1: Seq<u8>,
    pub name_2: Seq<u8>,
    pub time: i32,
}

/// The mathematical value of a [`Level`].
pub struct LevelV {
    pub version: Version,
    pub link: i32,
    pub integrity: Seq<u64>,
    pub name: Seq<u8>,
    pub lgr: Seq<u8>,
    pub ground: Seq<u8>,
    pub sky: Seq<u8>,
    pub polygons: Seq<PolygonV>,
    pub objects: Seq<Object>,
    pub pictures: Seq<PictureV>,
    pub top10_single: Seq<EntryV>,
    pub top10_multi: Seq<EntryV>,
}

impl View for Polygon {
    type V = PolygonV;

    open spec fn view(&self) -> PolygonV {
        PolygonV { grass: self.grass, vertices: self.vertices@ }
    }
}

impl View for Picture {
    type V = PictureV;

    open spec fn view(&self) -> PictureV {
        PictureV {
            name: self.name@,
            texture: self.texture@,
            mask: self.mask@,
            position: self.position,
            distance: self.distance,
            clip: self.clip,
        }
    }
}

impl View for ListEntry {
    type V = EntryV;

    open spec fn view(&self) -> EntryV {
        EntryV { name_1: self.name_1@, name_2: self.name_2@, time: self.time }
    }
}

impl View for Level {
    type V = LevelV;

    open spec fn view(&self) -> LevelV {
        LevelV {
            version: self.version,
            link: self.link,
            integrity: self.integrity@,
            name: self.name@,
            lgr: self.lgr@,
            ground: self.ground@,
            sky: self.sky@,
            polygons: Seq::new(self.polygons@.len(), |i: int| self.polygons@[i]@),
            objects: self.objects@,
            pictures: Seq::new(self.pictures@.len(), |i: int| self.pictures@[i]@),
            top10_single: Seq::new(self.top10_single@.len(), |i: int| self.top10_single@[i]@),
            top10_multi: Seq::new(self.top10_multi@.len(), |i: int| self.top10_multi@[i]@),
        }
    }
}

impl Polygon {
    /// Build an empty, non-grass polygon.
    pub fn new() -> (r: Polygon)
        ensures
            !r.grass,
            r.vertices@ =~= Seq::<Position<u64>>::empty(),
    {
        Polygon { grass: false, vertices: Vec::new() }
    }
}

impl Level {
    /// Build an empty Elma level with the stock LGR and texture names.
    pub fn new() -> (r: Level)
        ensures
            r.version == Version::Elma,
            r.link == 0,
            r.integrity@ =~= seq![0u64, 0u64, 0u64, 0u64],
            r.name@ =~= Seq::<u8>::empty(),
            r.lgr@ =~= seq![0x64u8, 0x65u8, 0x66u8, 0x61u8, 0x75u8, 0x6cu8, 0x74u8],
            r.ground@ =~= seq![0x67u8, 0x72u8, 0x6fu8, 0x75u8, 0x6eu8, 0x64u8],
            r.sky@ =~= seq![0x73u8, 0x6bu8, 0x79u8],
            r.polygons@ =~= Seq::<Polygon>::empty(),
            r.objects@ =~= Seq::<Object>::empty(),
            r.pictures@ =~= Seq::<Picture>::empty(),
            r.top10_single@ =~= Seq::<ListEntry>::empty(),
            r.top10_multi@ =~= Seq::<ListEntry>::empty(),
    {
        // "default", "ground" and "sky" as bytes
        let lgr = vec![0x64u8, 0x65u8, 0x66u8, 0x61u8, 0x75u8, 0x6cu8, 0x74u8];
        let ground = vec![0x67u8, 0x72u8, 0x6fu8, 0x75u8, 0x6eu8, 0x64u8];
        let sky = vec![0x73u8, 0x6bu8, 0x79u8];
        Level {
            version: Version::Elma,
            link: 0,
            integrity: [0u64, 0u64, 0u64, 0u64],
            name: Vec::new(),
            lgr,
            ground,
            sky,
            polygons: Vec::new(),
            objects: Vec::new(),
            pictures: Vec::new(),
            top10_single: Vec::new(),
            top10_multi: Vec::new(),
        }
    }
}

/// The 5-byte signature of the Elma version, `POT14`.
pub open spec fn sig_elma() -> Seq<u8> {
    seq![80u8, 79u8, 84u8, 49u8, 52u8]
}

/// The 5-byte signature of the Across version, `POT06`.
pub open spec fn sig_across() -> Seq<u8> {
    seq![80u8, 79u8, 84u8, 48u8, 54u8]
}

/// The signature bytes of a version.
pub open spec fn enc_version(v: Version) -> Seq<u8> {
    match v {
        Version::Elma => sig_elma(),
        Version::Across => sig_across(),
    }
}

/// The wire tag of an object type.
pub open spec fn object_tag(t: ObjectType) -> u32 {
    match t {
        ObjectType::Exit => 1,
        ObjectType::Apple => 2,
        ObjectType::Killer => 3,
        ObjectType::Player => 4,
    }
}

/// The wire tag of a clip mode.
pub open spec fn clip_tag(c: ClipMode) -> u32 {
    match c {
        ClipMode::Unclipped => 0,
        ClipMode::Ground => 1,
        ClipMode::Sky => 2,
    }
}

/// 0 or 1 as a 32-bit flag word; the grass flag is stored this way and read
/// back as "strictly positive".
pub open spec fn grass32(b: bool) -> u32 {
    if b {
        1
    } else {
        0
    }
}

/// The animation index is stored zero-based and decoded one-based; the
/// increment wraps so that every stored word decodes to some index.
pub open spec fn wrap_inc(v: i32) -> i32 {
    if v == i32::MAX {
        i32::MIN
    } else {
        (v + 1) as i32
    }
}

/// The inverse of [`wrap_inc`].
pub open spec fn wrap_dec(v: i32) -> i32 {
    if v == i32::MIN {
        i32::MAX
    } else {
        (v - 1) as i32
    }
}

/// The 16 wire bytes of one vertex.
pub open spec fn enc_vertex(p: Position<u64>) -> Seq<u8> {
    le64(p.x) + le64(p.y)
}

/// The wire bytes of a run of vertices, in order.
pub open spec fn enc_vertices(s: Seq<Position<u64>>) -> Seq<u8>
    decreases s.len(),
{
    if s.len() == 0 {
        Seq::empty()
    } else {
        enc_vertex(s[0]) + enc_vertices(s.drop_first())
    }
}

/// The wire bytes of one polygon: grass flag, vertex count, vertices.
pub open spec fn enc_polygon(p: PolygonV) -> Seq<u8> {
    le32(grass32(p.grass)) + le32(p.vertices.len() as u32) + enc_vertices(p.vertices)
}

/// The wire bytes of a run of polygons, in order.
pub open spec fn enc_polygons(s: Seq<PolygonV>) -> Seq<u8>
    decreases s.len(),
{
    if s.len() == 0 {
        Seq::empty()
    } else {
        enc_polygon(s[0]) + enc_polygons(s.drop_first())
    }
}

/// The 28 wire bytes of one object.
pub open spec fn enc_object(o: Object) -> Seq<u8> {
    le64(o.position.x) + le64(o.position.y) + le32(object_tag(o.object_type)) + le32(
        as_u32(o.gravity),
    ) + le32(as_u32(wrap_dec(o.animation)))
}

/// The wire bytes of a run of objects, in order.
pub open spec fn enc_objects(s: Seq<Object>) -> Seq<u8>
    decreases s.len(),
{
    if s.len() == 0 {
        Seq::empty()
    } else {
        enc_object(s[0]) + enc_objects(s.drop_first())
    }
}

/// The 54 wire bytes of one picture.
pub open spec fn enc_picture(p: PictureV) -> Seq<u8> {
    slot_of(p.name, PIC_NAME_BYTES as nat) + slot_of(p.texture, PIC_NAME_BYTES as nat) + slot_of(
        p.mask,
        PIC_NAME_BYTES as nat,
    ) + le64(p.position.x) + le64(p.position.y) + le32(as_u32(p.distance)) + le32(
        clip_tag(p.clip),
    )
}

/// The wire bytes of a run of pictures, in order.
pub open spec fn enc_pictures(s: Seq<PictureV>) -> Seq<u8>
    decreases s.len(),
{
    if s.len() == 0 {
        Seq::empty()
    } else {
        enc_picture(s[0]) + enc_pictures(s.drop_first())
    }
}

/// `n` zero bytes.
pub open spec fn zeros(n: nat) -> Seq<u8> {
    Seq::new(n, |i: int| 0u8)
}

/// The times of a run of entries, 4 bytes each.
pub open spec fn enc_times(s: Seq<EntryV>) -> Seq<u8>
    decreases s.len(),
{
    if s.len() == 0 {
        Seq::empty()
    } else {
        le32(as_u32(s[0].time)) + enc_times(s.drop_first())
    }
}

/// The first player names of a run of entries, one 15-byte slot each.
pub open spec fn enc_names_1(s: Seq<EntryV>) -> Seq<u8>
    decreases s.len(),
{
    if s.len() == 0 {
        Seq::empty()
    } else {
        slot_of(s[0].name_1, ENTRY_NAME_BYTES as nat) + enc_names_1(s.drop_first())
    }
}

/// The second player names of a run of entries, one 15-byte slot each.
pub open spec fn enc_names_2(s: Seq<EntryV>) -> Seq<u8>
    decreases s.len(),
{
    if s.len() == 0 {
        Seq::empty()
    } else {
        slot_of(s[0].name_2, ENTRY_NAME_BYTES as nat) + enc_names_2(s.drop_first())
    }
}

/// One 344-byte leaderboard sub-block, in the clear: the entry count, the
/// times at offset 4, the first names at offset 44, the second names at
/// offset 194 (written only for the multi-player list), zero fill between.
pub open spec fn enc_list(s: Seq<EntryV>, multi: bool) -> Seq<u8>
    recommends
        s.len() <= TOP10_CAP,
{
    le32(s.len() as u32) + enc_times(s) + zeros((40 - 4 * s.len()) as nat) + enc_names_1(s)
        + zeros((150 - 15 * s.len()) as nat) + (if multi {
        enc_names_2(s)
    } else {
        Seq::empty()
    }) + zeros((if multi {
        150 - 15 * s.len()
    } else {
        150int
    }) as nat)
}

/// The whole 688-byte leaderboard block in the clear: the single-player
/// sub-block, then the multi-player sub-block.
pub open spec fn enc_top10_plain(l: LevelV) -> Seq<u8> {
    enc_list(l.top10_single, false) + enc_list(l.top10_multi, true)
}

/// Some polygon has more vertices than its count field can carry.
pub open spec fn some_vertices_over(s: Seq<PolygonV>) -> bool {
    exists|i: int| 0 <= i < s.len() && #[trigger] s[i].vertices.len() > VERTEX_COUNT_MAX
}

/// Some picture name overflows its slot.
pub open spec fn some_pic_name_long(s: Seq<PictureV>) -> bool {
    exists|i: int| 0 <= i < s.len() && #[trigger] s[i].name.len() >= PIC_NAME_BYTES
}

/// Some picture texture name overflows its slot.
pub open spec fn some_pic_texture_long(s: Seq<PictureV>) -> bool {
    exists|i: int| 0 <= i < s.len() && #[trigger] s[i].texture.len() >= PIC_NAME_BYTES
}

/// Some picture mask name overflows its slot.
pub open spec fn some_pic_mask_long(s: Seq<PictureV>) -> bool {
    exists|i: int| 0 <= i < s.len() && #[trigger] s[i].mask.len() >= PIC_NAME_BYTES
}

/// Some entry's first player name overflows its slot.
pub open spec fn some_name_1_long(s: Seq<EntryV>) -> bool {
    exists|i: int| 0 <= i < s.len() && #[trigger] s[i].name_1.len() >= ENTRY_NAME_BYTES
}

/// Some entry's second player name overflows its slot.
pub open spec fn some_name_2_long(s: Seq<EntryV>) -> bool {
    exists|i: int| 0 <= i < s.len() && #[trigger] s[i].name_2.len() >= ENTRY_NAME_BYTES
}

/// The first reason, in write order, a level cannot be represented in the
/// wire layout; `None` when it can.
pub open spec fn level_encode_err(l: LevelV) -> Option<EncodeError> {
    if l.name.len() >= NAME_BYTES {
        Some(EncodeError::FieldTooLong { field: FieldId::Name, max: NAME_BYTES })
    } else if l.lgr.len() >= LGR_BYTES {
        Some(EncodeError::FieldTooLong { field: FieldId::Lgr, max: LGR_BYTES })
    } else if l.ground.len() >= TEXTURE_BYTES {
        Some(EncodeError::FieldTooLong { field: FieldId::Ground, max: TEXTURE_BYTES })
    } else if l.sky.len() >= TEXTURE_BYTES {
        Some(EncodeError::FieldTooLong { field: FieldId::Sky, max: TEXTURE_BYTES })
    } else if l.polygons.len() > LEV_COUNT_MAX {
        Some(EncodeError::CapacityExceeded { section: SectionId::Polygons, max: LEV_COUNT_MAX })
    } else if some_vertices_over(l.polygons) {
        Some(EncodeError::CapacityExceeded { section: SectionId::Vertices, max: VERTEX_COUNT_MAX })
    } else if l.objects.len() > LEV_COUNT_MAX {
        Some(EncodeError::CapacityExceeded { section: SectionId::Objects, max: LEV_COUNT_MAX })
    } else if l.pictures.len() > LEV_COUNT_MAX {
        Some(EncodeError::CapacityExceeded { section: SectionId::Pictures, max: LEV_COUNT_MAX })
    } else if some_pic_name_long(l.pictures) {
        Some(EncodeError::FieldTooLong { field: FieldId::PictureName, max: PIC_NAME_BYTES })
    } else if some_pic_texture_long(l.pictures) {
        Some(EncodeError::FieldTooLong { field: FieldId::PictureTexture, max: PIC_NAME_BYTES })
    } else if some_pic_mask_long(l.pictures) {
        Some(EncodeError::FieldTooLong { field: FieldId::PictureMask, max: PIC_NAME_BYTES })
    } else if l.top10_single.len() > TOP10_CAP {
        Some(EncodeError::CapacityExceeded { section: SectionId::SingleList, max: TOP10_CAP })
    } else if l.top10_multi.len() > TOP10_CAP {
        Some(EncodeError::CapacityExceeded { section: SectionId::MultiList, max: TOP10_CAP })
    } else if some_name_1_long(l.top10_single) {
        Some(EncodeError::FieldTooLong { field: FieldId::EntryName1, max: ENTRY_NAME_BYTES })
    } else if some_name_1_long(l.top10_multi) {
        Some(EncodeError::FieldTooLong { field: FieldId::EntryName1, max: ENTRY_NAME_BYTES })
    } else if some_name_2_long(l.top10_multi) {
        Some(EncodeError::FieldTooLong { field: FieldId::EntryName2, max: ENTRY_NAME_BYTES })
    } else {
        None
    }
}

/// The four integrity doubles on the wire.
pub open spec fn enc_integrity(v: Seq<u64>) -> Seq<u8>
    recommends
        v.len() == 4,
{
    le64(v[0]) + le64(v[1]) + le64(v[2]) + le64(v[3])
}

/// The bytes of a whole level, defined when [`level_encode_err`] is `None`.
#[verifier::opaque]
pub open spec fn enc_level_bytes(l: LevelV) -> Seq<u8> {
    enc_version(l.version) + seq![0u8, 0u8] + le32(as_u32(l.link)) + enc_integrity(l.integrity)
        + slot_of(l.name, NAME_BYTES as nat) + slot_of(l.lgr, LGR_BYTES as nat) + slot_of(
        l.ground,
        TEXTURE_BYTES as nat,
    ) + slot_of(l.sky, TEXTURE_BYTES as nat) + le64(
        bits_of_count(l.polygons.len() as u16, COUNT_BIAS_MANTISSA, COUNT_BIAS_SCALE as nat),
    ) + enc_polygons(l.polygons) + le64(
        bits_of_count(l.objects.len() as u16, COUNT_BIAS_MANTISSA, COUNT_BIAS_SCALE as nat),
    ) + enc_objects(l.objects) + le64(
        bits_of_count(l.pictures.len() as u16, PICTURE_BIAS_MANTISSA, PICTURE_BIAS_SCALE as nat),
    ) + enc_pictures(l.pictures) + le32(EOD) + crypt_seq(enc_top10_plain(l)) + le32(EOF)
}

/// The bytes of a whole level, or the first reason it cannot be
/// represented.
pub open spec fn spec_encode_level(l: LevelV) -> Result<Seq<u8>, EncodeError> {
    match level_encode_err(l) {
        Some(e) => Err(e),
        None => Ok(enc_level_bytes(l)),
    }
}

/// The vertex whose 16 wire bytes start at `pos`.
pub open spec fn vertex_at(s: Seq<u8>, pos: int) -> Position<u64> {
    Position { x: u64_of(s.subrange(pos, pos + 8)), y: u64_of(s.subrange(pos + 8, pos + 16)) }
}

/// Parse `n` vertices starting at `pos`.
pub open spec fn parse_vertices(s: Seq<u8>, pos: int, n: nat) -> Result<
    (Seq<Position<u64>>, int),
    FormatError,
>
    decreases n,
{
    if n == 0 {
        Ok((Seq::empty(), pos))
    } else if pos + 16 <= s.len() {
        match parse_vertices(s, pos + 16, (n - 1) as nat) {
            Ok((rest, p2)) => Ok((seq![vertex_at(s, pos)] + rest, p2)),
            Err(e) => Err(e),
        }
    } else {
        Err(FormatError::UnexpectedEnd { offset: pos as usize })
    }
}

/// Parse one polygon starting at `pos`: the grass flag, the vertex count
/// (rejected when negative), then the vertices.
pub open spec fn parse_polygon(s: Seq<u8>, pos: int) -> Result<(PolygonV, int), FormatError> {
    if pos + 8 <= s.len() {
        let grass = as_i32(u32_of(s.subrange(pos, pos + 4))) > 0;
        let vc = as_i32(u32_of(s.subrange(pos + 4, pos + 8)));
        if vc < 0 {
            Err(FormatError::CountOutOfRange { offset: (pos + 4) as usize })
        } else {
            match parse_vertices(s, pos + 8, vc as nat) {
                Ok((vertices, p2)) => Ok((PolygonV { grass, vertices }, p2)),
                Err(e) => Err(e),
            }
        }
    } else {
        Err(FormatError::UnexpectedEnd { offset: pos as usize })
    }
}

/// Parse `n` polygons starting at `pos`.
pub open spec fn parse_polygons(s: Seq<u8>, pos: int, n: nat) -> Result<
    (Seq<PolygonV>, int),
    FormatError,
>
    decreases n,
{
    if n == 0 {
        Ok((Seq::empty(), pos))
    } else {
        match parse_polygon(s, pos) {
            Ok((p, p1)) => match parse_polygons(s, p1, (n - 1) as nat) {
                Ok((rest, p2)) => Ok((seq![p] + rest, p2)),
                Err(e) => Err(e),
            },
            Err(e) => Err(e),
        }
    }
}

/// Parse one object starting at `pos`; an object kind tag outside 1 to 4
/// aborts the decode.
pub open spec fn parse_object(s: Seq<u8>, pos: int) -> Result<(Object, int), FormatError> {
    if pos + OBJECT_BYTES <= s.len() {
        let tag = as_i32(u32_of(s.subrange(pos + 16, pos + 20)));
        if tag == 1 || tag == 2 || tag == 3 || tag == 4 {
            let object_type = if tag == 1 {
                ObjectType::Exit
            } else if tag == 2 {
                ObjectType::Apple
            } else if tag == 3 {
                ObjectType::Killer
            } else {
                ObjectType::Player
            };
            Ok(
                (
                    Object {
                        position: Position {
                            x: u64_of(s.subrange(pos, pos + 8)),
                            y: u64_of(s.subrange(pos + 8, pos + 16)),
                        },
                        object_type,
                        gravity: as_i32(u32_of(s.subrange(pos + 20, pos + 24))),
                        animation: wrap_inc(as_i32(u32_of(s.subrange(pos + 24, pos + 28)))),
                    },
                    pos + OBJECT_BYTES,
                ),
            )
        } else {
            Err(FormatError::InvalidObjectType(tag))
        }
    } else {
        Err(FormatError::UnexpectedEnd { offset: pos as usize })
    }
}

/// Parse `n` objects starting at `pos`.
pub open spec fn parse_objects(s: Seq<u8>, pos: int, n: nat) -> Result<
    (Seq<Object>, int),
    FormatError,
>
    decreases n,
{
    if n == 0 {
        Ok((Seq::empty(), pos))
    } else {
        match parse_object(s, pos) {
            Ok((o, p1)) => match parse_objects(s, p1, (n - 1) as nat) {
                Ok((rest, p2)) => Ok((seq![o] + rest, p2)),
                Err(e) => Err(e),
            },
            Err(e) => Err(e),
        }
    }
}

/// Parse one picture starting at `pos`; a clip tag outside 0 to 2 aborts
/// the decode.
pub open spec fn parse_picture(s: Seq<u8>, pos: int) -> Result<(PictureV, int), FormatError> {
    if pos + PICTURE_BYTES <= s.len() {
        let tag = as_i32(u32_of(s.subrange(pos + 50, pos + 54)));
        if tag == 0 || tag == 1 || tag == 2 {
            let clip = if tag == 0 {
                ClipMode::Unclipped
            } else if tag == 1 {
                ClipMode::Ground
            } else {
                ClipMode::Sky
            };
            Ok(
                (
                    PictureV {
                        name: text_of(s.subrange(pos, pos + 10)),
                        texture: text_of(s.subrange(pos + 10, pos + 20)),
                        mask: text_of(s.subrange(pos + 20, pos + 30)),
                        position: Position {
                            x: u64_of(s.subrange(pos + 30, pos + 38)),
                            y: u64_of(s.subrange(pos + 38, pos + 46)),
                        },
                        distance: as_i32(u32_of(s.subrange(pos + 46, pos + 50))),
                        clip,
                    },
                    pos + PICTURE_BYTES,
                ),
            )
        } else {
            Err(FormatError::InvalidClipMode(tag))
        }
    } else {
        Err(FormatError::UnexpectedEnd { offset: pos as usize })
    }
}

/// Parse `n` pictures starting at `pos`.
pub open spec fn parse_pictures(s: Seq<u8>, pos: int, n: nat) -> Result<
    (Seq<PictureV>, int),
    FormatError,
>
    decreases n,
{
    if n == 0 {
        Ok((Seq::empty(), pos))
    } else {
        match parse_picture(s, pos) {
            Ok((p, p1)) => match parse_pictures(s, p1, (n - 1) as nat) {
                Ok((rest, p2)) => Ok((seq![p] + rest, p2)),
                Err(e) => Err(e),
            },
            Err(e) => Err(e),
        }
    }
}

/// The entry at index `i` of a 344-byte leaderboard sub-block in the clear:
/// the time at offset `4 + 4i`, the first name at `44 + 15i`, and (for the
/// multi-player list only) the second name at `194 + 15i`.
pub open spec fn entry_at(block: Seq<u8>, multi: bool, i: int) -> EntryV {
    EntryV {
        name_1: text_of(block.subrange(44 + 15 * i, 59 + 15 * i)),
        name_2: if multi {
            text_of(block.subrange(194 + 15 * i, 209 + 15 * i))
        } else {
            Seq::empty()
        },
        time: as_i32(u32_of(block.subrange(4 + 4 * i, 8 + 4 * i))),
    }
}

/// The first `n` entries of a sub-block in the clear.
pub open spec fn entries_of(block: Seq<u8>, multi: bool, n: nat) -> Seq<EntryV> {
    Seq::new(n, |i: int| entry_at(block, multi, i))
}

/// The entry count of a sub-block in the clear, rejected unless it lies in
/// `0 ..= TOP10_CAP`; `base` is the file offset the error reports.
pub open spec fn parse_list_count(block: Seq<u8>, base: int) -> Result<nat, FormatError> {
    let c = as_i32(u32_of(block.subrange(0, 4)));
    if c < 0 || c > TOP10_CAP {
        Err(FormatError::CountOutOfRange { offset: base as usize })
    } else {
        Ok(c as nat)
    }
}

/// The level stored in `s`, or the first structural violation found.
/// Bytes after the end-of-file sentinel are ignored.
pub open spec fn spec_decode_level(s: Seq<u8>) -> Result<LevelV, FormatError> {
    if s.len() < 5 || (s.subrange(0, 5) != sig_elma() && s.subrange(0, 5) != sig_across()) {
        Err(FormatError::UnknownSignature)
    } else if s.len() < POLY_OFFSET {
        Err(FormatError::UnexpectedEnd { offset: 5 })
    } else {
        let version = if s.subrange(0, 5) == sig_elma() {
            Version::Elma
        } else {
            Version::Across
        };
        let link = as_i32(u32_of(s.subrange(LINK_OFFSET as int, LINK_OFFSET + 4)));
        let integrity = Seq::new(
            4,
            |i: int| u64_of(s.subrange(INTEGRITY_OFFSET + 8 * i, INTEGRITY_OFFSET + 8 * i + 8)),
        );
        let name = text_of(s.subrange(NAME_OFFSET as int, NAME_OFFSET + NAME_BYTES));
        let lgr = text_of(s.subrange(LGR_OFFSET as int, LGR_OFFSET + LGR_BYTES));
        let ground = text_of(s.subrange(GROUND_OFFSET as int, GROUND_OFFSET + TEXTURE_BYTES));
        let sky = text_of(s.subrange(SKY_OFFSET as int, SKY_OFFSET + TEXTURE_BYTES));
        match count_of_bits(
            u64_of(s.subrange(POLY_COUNT_OFFSET as int, POLY_COUNT_OFFSET + 8)),
            COUNT_BIAS_MANTISSA,
            COUNT_BIAS_SCALE as nat,
        ) {
            None => Err(FormatError::CountOutOfRange { offset: POLY_COUNT_OFFSET }),
            Some(pc) => match parse_polygons(s, POLY_OFFSET as int, pc as nat) {
                Err(e) => Err(e),
                Ok((polygons, p1)) => if p1 + 8 > s.len() {
                    Err(FormatError::UnexpectedEnd { offset: p1 as usize })
                } else {
                    match count_of_bits(
                        u64_of(s.subrange(p1, p1 + 8)),
                        COUNT_BIAS_MANTISSA,
                        COUNT_BIAS_SCALE as nat,
                    ) {
                        None => Err(FormatError::CountOutOfRange { offset: p1 as usize }),
                        Some(oc) => match parse_objects(s, p1 + 8, oc as nat) {
                            Err(e) => Err(e),
                            Ok((objects, p2)) => if p2 + 8 > s.len() {
                                Err(FormatError::UnexpectedEnd { offset: p2 as usize })
                            } else {
                                match count_of_bits(
                                    u64_of(s.subrange(p2, p2 + 8)),
                                    PICTURE_BIAS_MANTISSA,
                                    PICTURE_BIAS_SCALE as nat,
                                ) {
                                    None => Err(
                                        FormatError::CountOutOfRange { offset: p2 as usize },
                                    ),
                                    Some(cc) => match parse_pictures(s, p2 + 8, cc as nat) {
                                        Err(e) => Err(e),
                                        Ok((pictures, p3)) => spec_decode_tail(
                                            s,
                                            p3,
                                            LevelV {
                                                version,
                                                link,
                                                integrity,
                                                name,
                                                lgr,
                                                ground,
                                                sky,
                                                polygons,
                                                objects,
                                                pictures,
                                                top10_single: Seq::empty(),
                                                top10_multi: Seq::empty(),
                                            },
                                        ),
                                    },
                                }
                            },
                        },
                    }
                },
            },
        }
    }
}

/// The tail of a level decode, after the picture section: the end-of-data
/// sentinel, the enciphered leaderboard block, and the end-of-file
/// sentinel.  `partial` holds everything decoded so far.
pub open spec fn spec_decode_tail(s: Seq<u8>, p3: int, partial: LevelV) -> Result<
    LevelV,
    FormatError,
> {
    if p3 + 4 > s.len() {
        Err(FormatError::UnexpectedEnd { offset: p3 as usize })
    } else {
        let found = u32_of(s.subrange(p3, p3 + 4));
        if found != EOD {
            Err(FormatError::SentinelMismatch { expected: EOD, found, offset: p3 as usize })
        } else if p3 + 4 + TOP10_BYTES > s.len() {
            Err(FormatError::UnexpectedEnd { offset: (p3 + 4) as usize })
        } else {
            let plain = crypt_seq(s.subrange(p3 + 4, p3 + 4 + TOP10_BYTES));
            let single_block = plain.subrange(0, LIST_BYTES as int);
            let multi_block = plain.subrange(LIST_BYTES as int, TOP10_BYTES as int);
            let p4 = p3 + 4 + TOP10_BYTES;
            match parse_list_count(single_block, p3 + 4) {
                Err(e) => Err(e),
                Ok(sc) => match parse_list_count(multi_block, p3 + 4 + LIST_BYTES) {
                    Err(e) => Err(e),
                    Ok(mc) => if p4 + 4 > s.len() {
                        Err(FormatError::UnexpectedEnd { offset: p4 as usize })
                    } else {
                        let found2 = u32_of(s.subrange(p4, p4 + 4));
                        if found2 != EOF {
                            Err(
                                FormatError::SentinelMismatch {
                                    expected: EOF,
                                    found: found2,
                                    offset: p4 as usize,
                                },
                            )
                        } else {
                            Ok(
                                LevelV {
                                    top10_single: entries_of(single_block, false, sc),
                                    top10_multi: entries_of(multi_block, true, mc),
                                    ..partial
                                },
                            )
                        }
                    },
                },
            }
        }
    }
}

/// The two bias descriptions both satisfy the count codec's contract.
pub proof fn lemma_biases_ok()
    ensures
        crate::count::bias_ok(COUNT_BIAS_MANTISSA, COUNT_BIAS_SCALE as nat),
        crate::count::bias_ok(PICTURE_BIAS_MANTISSA, PICTURE_BIAS_SCALE as nat),
{
    vstd::arithmetic::power2::lemma2_to64();
    vstd::arithmetic::power2::lemma2_to64_rest();
}

/// `r` with `acc` prepended to its vertices on success.
pub open spec fn with_vertices_prefix(
    acc: Seq<Position<u64>>,
    r: Result<(Seq<Position<u64>>, int), FormatError>,
) -> Result<(Seq<Position<u64>>, int), FormatError> {
    match r {
        Ok((rest, p)) => Ok((acc + rest, p)),
        Err(e) => Err(e),
    }
}

/// `r` with `acc` prepended to its polygons on success.
pub open spec fn with_polygons_prefix(
    acc: Seq<PolygonV>,
    r: Result<(Seq<PolygonV>, int), FormatError>,
) -> Result<(Seq<PolygonV>, int), FormatError> {
    match r {
        Ok((rest, p)) => Ok((acc + rest, p)),
        Err(e) => Err(e),
    }
}

/// `r` with `acc` prepended to its objects on success.
pub open spec fn with_objects_prefix(
    acc: Seq<Object>,
    r: Result<(Seq<Object>, int), FormatError>,
) -> Result<(Seq<Object>, int), FormatError> {
    match r {
        Ok((rest, p)) => Ok((acc + rest, p)),
        Err(e) => Err(e),
    }
}

/// `r` with `acc` prepended to its pictures on success.
pub open spec fn with_pictures_prefix(
    acc: Seq<PictureV>,
    r: Result<(Seq<PictureV>, int), FormatError>,
) -> Result<(Seq<PictureV>, int), FormatError> {
    match r {
        Ok((rest, p)) => Ok((acc + rest, p)),
        Err(e) => Err(e),
    }
}

/// Prepending twice is prepending the concatenation.
proof fn lemma_vertices_prefix_assoc(
    a: Seq<Position<u64>>,
    b: Seq<Position<u64>>,
    r: Result<(Seq<Position<u64>>, int), FormatError>,
)
    ensures
        with_vertices_prefix(a, with_vertices_prefix(b, r)) == with_vertices_prefix(a + b, r),
{
    match r {
        Ok((rest, p)) => {
            assert(a + (b + rest) =~= (a + b) + rest);
        },
        Err(_) => {},
    }
}

/// Prepending twice is prepending the concatenation.
proof fn lemma_polygons_prefix_assoc(
    a: Seq<PolygonV>,
    b: Seq<PolygonV>,
    r: Result<(Seq<PolygonV>, int), FormatError>,
)
    ensures
        with_polygons_prefix(a, with_polygons_prefix(b, r)) == with_polygons_prefix(a + b, r),
{
    match r {
        Ok((rest, p)) => {
            assert(a + (b + rest) =~= (a + b) + rest);
        },
        Err(_) => {},
    }
}

/// Prepending twice is prepending the concatenation.
proof fn lemma_objects_prefix_assoc(
    a: Seq<Object>,
    b: Seq<Object>,
    r: Result<(Seq<Object>, int), FormatError>,
)
    ensures
        with_objects_prefix(a, with_objects_prefix(b, r)) == with_objects_prefix(a + b, r),
{
    match r {
        Ok((rest, p)) => {
            assert(a + (b + rest) =~= (a + b) + rest);
        },
        Err(_) => {},
    }
}

/// Prepending twice is prepending the concatenation.
proof fn lemma_pictures_prefix_assoc(
    a: Seq<PictureV>,
    b: Seq<PictureV>,
    r: Result<(Seq<PictureV>, int), FormatError>,
)
    ensures
        with_pictures_prefix(a, with_pictures_prefix(b, r)) == with_pictures_prefix(a + b, r),
{
    match r {
        Ok((rest, p)) => {
            assert(a + (b + rest) =~= (a + b) + rest);
        },
        Err(_) => {},
    }
}

/// Read `n` vertices starting at `pos`.
fn parse_vertices_exec(buf: &Vec<u8>, pos: usize, n: usize) -> (r: Result<
    (Vec<Position<u64>>, usize),
    FormatError,
>)
    requires
        pos <= buf.len(),
    ensures
        match r {
            Ok((v, p)) => parse_vertices(buf@, pos as int, n as nat) == Ok::<_, FormatError>(
                (v@, p as int),
            ) && p <= buf.len(),
            Err(e) => parse_vertices(buf@, pos as int, n as nat) == Err::<
                (Seq<Position<u64>>, int),
                _,
            >(e),
        },
{
    let mut acc: Vec<Position<u64>> = Vec::new();
    let mut p = pos;
    let mut i: usize = 0;
    while i < n
        invariant
            i <= n,
            p <= buf.len(),
            parse_vertices(buf@, pos as int, n as nat) == with_vertices_prefix(
                acc@,
                parse_vertices(buf@, p as int, (n - i) as nat),
            ),
        decreases n - i,
    {
        if buf.len() - p < 16 {
            assert(parse_vertices(buf@, p as int, (n - i) as nat) == Err::<
                (Seq<Position<u64>>, int),
                _,
            >(FormatError::UnexpectedEnd { offset: p }));
            return Err(FormatError::UnexpectedEnd { offset: p });
        }
        let x = crate::bytes::read_u64(buf, p);
        let y = crate::bytes::read_u64(buf, p + 8);
        let v = Position { x, y };
        assert(v == vertex_at(buf@, p as int));
        let ghost acc_old = acc@;
        let ghost p_old = p as int;
        let ghost m = (n - i) as nat;
        acc.push(v);
        p = p + 16;
        i = i + 1;
        proof {
            lemma_vertices_prefix_assoc(
                acc_old,
                seq![v],
                parse_vertices(buf@, p as int, (n - i) as nat),
            );
            assert(acc_old + seq![v] =~= acc@);
            assert(with_vertices_prefix(seq![v], parse_vertices(buf@, p as int, (n - i) as nat))
                == parse_vertices(buf@, p_old, m));
        }
    }
    assert(parse_vertices(buf@, p as int, 0) == Ok::<_, FormatError>(
        (Seq::<Position<u64>>::empty(), p as int),
    ));
    assert(acc@ + Seq::<Position<u64>>::empty() =~= acc@);
    Ok((acc, p))
}

/// Read the polygon starting at `pos`.
fn parse_polygon_exec(buf: &Vec<u8>, pos: usize) -> (r: Result<(Polygon, usize), FormatError>)
    requires
        pos <= buf.len(),
    ensures
        match r {
            Ok((p, q)) => parse_polygon(buf@, pos as int) == Ok::<_, FormatError>((p@, q as int))
                && q <= buf.len(),
            Err(e) => parse_polygon(buf@, pos as int) == Err::<(PolygonV, int), _>(e),
        },
{
    if buf.len() - pos < 8 {
        return Err(FormatError::UnexpectedEnd { offset: pos });
    }
    let grass = crate::bytes::u32_to_i32(crate::bytes::read_u32(buf, pos)) > 0;
    let vc = crate::bytes::u32_to_i32(crate::bytes::read_u32(buf, pos + 4));
    if vc < 0 {
        return Err(FormatError::CountOutOfRange { offset: pos + 4 });
    }
    match parse_vertices_exec(buf, pos + 8, vc as usize) {
        Ok((vertices, q)) => Ok((Polygon { grass, vertices }, q)),
        Err(e) => Err(e),
    }
}

/// Read `n` polygons starting at `pos`.
fn parse_polygons_exec(buf: &Vec<u8>, pos: usize, n: usize) -> (r: Result<
    (Vec<Polygon>, usize),
    FormatError,
>)
    requires
        pos <= buf.len(),
    ensures
        match r {
            Ok((v, p)) => parse_polygons(buf@, pos as int, n as nat) == Ok::<_, FormatError>(
                (Seq::new(v@.len(), |i: int| v@[i]@), p as int),
            ) && p <= buf.len(),
            Err(e) => parse_polygons(buf@, pos as int, n as nat) == Err::<(Seq<PolygonV>, int), _>(
                e,
            ),
        },
{
    let mut acc: Vec<Polygon> = Vec::new();
    let mut p = pos;
    let mut i: usize = 0;
    while i < n
        invariant
            i <= n,
            p <= buf.len(),
            parse_polygons(buf@, pos as int, n as nat) == with_polygons_prefix(
                Seq::new(acc@.len(), |k: int| acc@[k]@),
                parse_polygons(buf@, p as int, (n - i) as nat),
            ),
        decreases n - i,
    {
        let ghost acc_old = Seq::new(acc@.len(), |k: int| acc@[k]@);
        let ghost p_old = p as int;
        let ghost m = (n - i) as nat;
        let (poly, q) = match parse_polygon_exec(buf, p) {
            Ok(pq) => pq,
            Err(e) => {
                return Err(e);
            },
        };
        let ghost pv = poly@;
        acc.push(poly);
        p = q;
        i = i + 1;
        proof {
            lemma_polygons_prefix_assoc(
                acc_old,
                seq![pv],
                parse_polygons(buf@, p as int, (n - i) as nat),
            );
            assert(acc_old + seq![pv] =~= Seq::new(acc@.len(), |k: int| acc@[k]@));
            assert(with_polygons_prefix(seq![pv], parse_polygons(buf@, p as int, (n - i) as nat))
                == parse_polygons(buf@, p_old, m));
        }
    }
    assert(parse_polygons(buf@, p as int, 0) == Ok::<_, FormatError>(
        (Seq::<PolygonV>::empty(), p as int),
    ));
    assert(Seq::new(acc@.len(), |k: int| acc@[k]@) + Seq::<PolygonV>::empty() =~= Seq::new(
        acc@.len(),
        |k: int| acc@[k]@,
    ));
    Ok((acc, p))
}

/// Read the object starting at `pos`.
fn parse_object_exec(buf: &Vec<u8>, pos: usize) -> (r: Result<(Object, usize), FormatError>)
    requires
        pos <= buf.len(),
    ensures
        match r {
            Ok((o, q)) => parse_object(buf@, pos as int) == Ok::<_, FormatError>((o, q as int))
                && q <= buf.len(),
            Err(e) => parse_object(buf@, pos as int) == Err::<(Object, int), _>(e),
        },
{
    if buf.len() - pos < OBJECT_BYTES {
        return Err(FormatError::UnexpectedEnd { offset: pos });
    }
    let x = crate::bytes::read_u64(buf, pos);
    let y = crate::bytes::read_u64(buf, pos + 8);
    let tag = crate::bytes::u32_to_i32(crate::bytes::read_u32(buf, pos + 16));
    let object_type = if tag == 1 {
        ObjectType::Exit
    } else if tag == 2 {
        ObjectType::Apple
    } else if tag == 3 {
        ObjectType::Killer
    } else if tag == 4 {
        ObjectType::Player
    } else {
        return Err(FormatError::InvalidObjectType(tag));
    };
    let gravity = crate::bytes::u32_to_i32(crate::bytes::read_u32(buf, pos + 20));
    let raw_anim = crate::bytes::u32_to_i32(crate::bytes::read_u32(buf, pos + 24));
    let animation = if raw_anim == i32::MAX {
        i32::MIN
    } else {
        raw_anim + 1
    };
    Ok(
        (
            Object { position: Position { x, y }, object_type, gravity, animation },
            pos + OBJECT_BYTES,
        ),
    )
}

/// Read `n` objects starting at `pos`.
fn parse_objects_exec(buf: &Vec<u8>, pos: usize, n: usize) -> (r: Result<
    (Vec<Object>, usize),
    FormatError,
>)
    requires
        pos <= buf.len(),
    ensures
        match r {
            Ok((v, p)) => parse_objects(buf@, pos as int, n as nat) == Ok::<_, FormatError>(
                (v@, p as int),
            ) && p <= buf.len(),
            Err(e) => parse_objects(buf@, pos as int, n as nat) == Err::<(Seq<Object>, int), _>(e),
        },
{
    let mut acc: Vec<Object> = Vec::new();
    let mut p = pos;
    let mut i: usize = 0;
    while i < n
        invariant
            i <= n,
            p <= buf.len(),
            parse_objects(buf@, pos as int, n as nat) == with_objects_prefix(
                acc@,
                parse_objects(buf@, p as int, (n - i) as nat),
            ),
        decreases n - i,
    {
        let ghost acc_old = acc@;
        let ghost p_old = p as int;
        let ghost m = (n - i) as nat;
        let (o, q) = match parse_object_exec(buf, p) {
            Ok(oq) => oq,
            Err(e) => {
                return Err(e);
            },
        };
        acc.push(o);
        p = q;
        i = i + 1;
        proof {
            lemma_objects_prefix_assoc(
                acc_old,
                seq![o],
                parse_objects(buf@, p as int, (n - i) as nat),
            );
            assert(acc_old + seq![o] =~= acc@);
            assert(with_objects_prefix(seq![o], parse_objects(buf@, p as int, (n - i) as nat))
                == parse_objects(buf@, p_old, m));
        }
    }
    assert(parse_objects(buf@, p as int, 0) == Ok::<_, FormatError>(
        (Seq::<Object>::empty(), p as int),
    ));
    assert(acc@ + Seq::<Object>::empty() =~= acc@);
    Ok((acc, p))
}

/// Read the picture starting at `pos`.
fn parse_picture_exec(buf: &Vec<u8>, pos: usize) -> (r: Result<(Picture, usize), FormatError>)
    requires
        pos <= buf.len(),
    ensures
        match r {
            Ok((p, q)) => parse_picture(buf@, pos as int) == Ok::<_, FormatError>((p@, q as int))
                && q <= buf.len(),
            Err(e) => parse_picture(buf@, pos as int) == Err::<(PictureV, int), _>(e),
        },
{
    if buf.len() - pos < PICTURE_BYTES {
        return Err(FormatError::UnexpectedEnd { offset: pos });
    }
    let tag = crate::bytes::u32_to_i32(crate::bytes::read_u32(buf, pos + 50));
    let clip = if tag == 0 {
        ClipMode::Unclipped
    } else if tag == 1 {
        ClipMode::Ground
    } else if tag == 2 {
        ClipMode::Sky
    } else {
        return Err(FormatError::InvalidClipMode(tag));
    };
    let name = crate::fixed::decode_field(buf, pos, PIC_NAME_BYTES);
    let texture = crate::fixed::decode_field(buf, pos + 10, PIC_NAME_BYTES);
    let mask = crate::fixed::decode_field(buf, pos + 20, PIC_NAME_BYTES);
    let x = crate::bytes::read_u64(buf, pos + 30);
    let y = crate::bytes::read_u64(buf, pos + 38);
    let distance = crate::bytes::u32_to_i32(crate::bytes::read_u32(buf, pos + 46));
    Ok(
        (
            Picture { name, texture, mask, position: Position { x, y }, distance, clip },
            pos + PICTURE_BYTES,
        ),
    )
}

/// Read `n` pictures starting at `pos`.
fn parse_pictures_exec(buf: &Vec<u8>, pos: usize, n: usize) -> (r: Result<
    (Vec<Picture>, usize),
    FormatError,
>)
    requires
        pos <= buf.len(),
    ensures
        match r {
            Ok((v, p)) => parse_pictures(buf@, pos as int, n as nat) == Ok::<_, FormatError>(
                (Seq::new(v@.len(), |i: int| v@[i]@), p as int),
            ) && p <= buf.len(),
            Err(e) => parse_pictures(buf@, pos as int, n as nat) == Err::<(Seq<PictureV>, int), _>(
                e,
            ),
        },
{
    let mut acc: Vec<Picture> = Vec::new();
    let mut p = pos;
    let mut i: usize = 0;
    while i < n
        invariant
            i <= n,
            p <= buf.len(),
            parse_pictures(buf@, pos as int, n as nat) == with_pictures_prefix(
                Seq::new(acc@.len(), |k: int| acc@[k]@),
                parse_pictures(buf@, p as int, (n - i) as nat),
            ),
        decreases n - i,
    {
        let ghost acc_old = Seq::new(acc@.len(), |k: int| acc@[k]@);
        let ghost p_old = p as int;
        let ghost m = (n - i) as nat;
        let (pic, q) = match parse_picture_exec(buf, p) {
            Ok(pq) => pq,
            Err(e) => {
                return Err(e);
            },
        };
        let ghost pv = pic@;
        acc.push(pic);
        p = q;
        i = i + 1;
        proof {
            lemma_pictures_prefix_assoc(
                acc_old,
                seq![pv],
                parse_pictures(buf@, p as int, (n - i) as nat),
            );
            assert(acc_old + seq![pv] =~= Seq::new(acc@.len(), |k: int| acc@[k]@));
            assert(with_pictures_prefix(seq![pv], parse_pictures(buf@, p as int, (n - i) as nat))
                == parse_pictures(buf@, p_old, m));
        }
    }
    assert(parse_pictures(buf@, p as int, 0) == Ok::<_, FormatError>(
        (Seq::<PictureV>::empty(), p as int),
    ));
    assert(Seq::new(acc@.len(), |k: int| acc@[k]@) + Seq::<PictureV>::empty() =~= Seq::new(
        acc@.len(),
        |k: int| acc@[k]@,
    ));
    Ok((acc, p))
}

/// Read the entries of one deciphered leaderboard sub-block; `base` is 0
/// for the single-player block or 344 for the multi-player one, and
/// `file_base` the file offset a count error reports.
fn parse_list_exec(plain: &Vec<u8>, base: usize, multi: bool, file_base: usize) -> (r: Result<
    Vec<ListEntry>,
    FormatError,
>)
    requires
        plain.len() == TOP10_BYTES,
        base == 0 || base == LIST_BYTES,
    ensures
        ({
            let block = plain@.subrange(base as int, base + LIST_BYTES);
            match r {
                Ok(v) => parse_list_count(block, file_base as int) == Ok::<nat, FormatError>(
                    v@.len() as nat,
                ) && Seq::new(v@.len(), |i: int| v@[i]@) == entries_of(
                    block,
                    multi,
                    v@.len() as nat,
                ),
                Err(e) => parse_list_count(block, file_base as int) == Err::<nat, FormatError>(e),
            }
        }),
{
    let ghost block = plain@.subrange(base as int, base + LIST_BYTES);
    proof {
        plain@.lemma_slice_of_slice(base as int, base + LIST_BYTES, 0, 4);
    }
    let c = crate::bytes::u32_to_i32(crate::bytes::read_u32(plain, base));
    if c < 0 || c > TOP10_CAP as i32 {
        return Err(FormatError::CountOutOfRange { offset: file_base });
    }
    let n = c as usize;
    let mut acc: Vec<ListEntry> = Vec::new();
    let mut i: usize = 0;
    while i < n
        invariant
            i <= n <= TOP10_CAP,
            plain.len() == TOP10_BYTES,
            base == 0 || base == LIST_BYTES,
            block == plain@.subrange(base as int, base + LIST_BYTES),
            acc@.len() == i,
            forall|j: int| 0 <= j < i ==> acc@[j]@ == entry_at(block, multi, j),
        decreases n - i,
    {
        proof {
            plain@.lemma_slice_of_slice(base as int, base + LIST_BYTES, 4 + 4 * i, 8 + 4 * i);
            plain@.lemma_slice_of_slice(base as int, base + LIST_BYTES, 44 + 15 * i, 59 + 15 * i);
            plain@.lemma_slice_of_slice(base as int, base + LIST_BYTES, 194 + 15 * i, 209 + 15 * i);
        }
        let time = crate::bytes::u32_to_i32(crate::bytes::read_u32(plain, base + 4 + 4 * i));
        let name_1 = crate::fixed::decode_field(plain, base + 44 + 15 * i, ENTRY_NAME_BYTES);
        let name_2 = if multi {
            crate::fixed::decode_field(plain, base + 194 + 15 * i, ENTRY_NAME_BYTES)
        } else {
            Vec::new()
        };
        let e = ListEntry { name_1, name_2, time };
        assert(e@ == entry_at(block, multi, i as int));
        acc.push(e);
        i = i + 1;
    }
    assert(Seq::new(acc@.len(), |k: int| acc@[k]@) =~= entries_of(block, multi, acc@.len() as nat));
    Ok(acc)
}

/// Whether the first five bytes are exactly the given signature.
fn sig_matches(bytes: &Vec<u8>, b0: u8, b1: u8, b2: u8, b3: u8, b4: u8) -> (r: bool)
    requires
        bytes.len() >= 5,
    ensures
        r == (bytes@.subrange(0, 5) == seq![b0, b1, b2, b3, b4]),
{
    let m = bytes[0] == b0 && bytes[1] == b1 && bytes[2] == b2 && bytes[3] == b3 && bytes[4] == b4;
    proof {
        let sub = bytes@.subrange(0, 5);
        if m {
            assert(sub =~= seq![b0, b1, b2, b3, b4]);
        } else {
            if sub == seq![b0, b1, b2, b3, b4] {
                assert(sub[0] == b0 && sub[1] == b1 && sub[2] == b2 && sub[3] == b3 && sub[4]
                    == b4);
                assert(false);
            }
        }
    }
    m
}

/// Decode a whole level record from its wire bytes; no partial record is
/// returned on a structural violation.  Bytes after the end-of-file
/// sentinel are ignored.
#[verifier::rlimit(50)]
pub fn decode_level(bytes: &Vec<u8>) -> (r: Result<Level, FormatError>)
    ensures
        match r {
            Ok(level) => spec_decode_level(bytes@) == Ok::<LevelV, FormatError>(level@),
            Err(e) => spec_decode_level(bytes@) == Err::<LevelV, FormatError>(e),
        },
{
    proof {
        lemma_biases_ok();
    }
    if bytes.len() < 5 {
        return Err(FormatError::UnknownSignature);
    }
    let elma = sig_matches(bytes, 80, 79, 84, 49, 52);
    let across = sig_matches(bytes, 80, 79, 84, 48, 54);
    if !elma && !across {
        return Err(FormatError::UnknownSignature);
    }
    let version = if elma {
        Version::Elma
    } else {
        Version::Across
    };
    if bytes.len() < POLY_OFFSET {
        return Err(FormatError::UnexpectedEnd { offset: 5 });
    }
    let link = crate::bytes::u32_to_i32(crate::bytes::read_u32(bytes, LINK_OFFSET));
    let integrity: [u64; 4] = [
        crate::bytes::read_u64(bytes, INTEGRITY_OFFSET),
        crate::bytes::read_u64(bytes, INTEGRITY_OFFSET + 8),
        crate::bytes::read_u64(bytes, INTEGRITY_OFFSET + 16),
        crate::bytes::read_u64(bytes, INTEGRITY_OFFSET + 24),
    ];
    let name = crate::fixed::decode_field(bytes, NAME_OFFSET, NAME_BYTES);
    let lgr = crate::fixed::decode_field(bytes, LGR_OFFSET, LGR_BYTES);
    let ground = crate::fixed::decode_field(bytes, GROUND_OFFSET, TEXTURE_BYTES);
    let sky = crate::fixed::decode_field(bytes, SKY_OFFSET, TEXTURE_BYTES);
    let pc = match crate::count::decode_count(
        crate::bytes::read_u64(bytes, POLY_COUNT_OFFSET),
        COUNT_BIAS_MANTISSA,
        COUNT_BIAS_SCALE,
    ) {
        Some(c) => c,
        None => {
            return Err(FormatError::CountOutOfRange { offset: POLY_COUNT_OFFSET });
        },
    };
    let (polygons, p1) = match parse_polygons_exec(bytes, POLY_OFFSET, pc as usize) {
        Ok(pp) => pp,
        Err(e) => {
            return Err(e);
        },
    };
    if bytes.len() - p1 < 8 {
        return Err(FormatError::UnexpectedEnd { offset: p1 });
    }
    let oc = match crate::count::decode_count(
        crate::bytes::read_u64(bytes, p1),
        COUNT_BIAS_MANTISSA,
        COUNT_BIAS_SCALE,
    ) {
        Some(c) => c,
        None => {
            return Err(FormatError::CountOutOfRange { offset: p1 });
        },
    };
    let (objects, p2) = match parse_objects_exec(bytes, p1 + 8, oc as usize) {
        Ok(op) => op,
        Err(e) => {
            return Err(e);
        },
    };
    if bytes.len() - p2 < 8 {
        return Err(FormatError::UnexpectedEnd { offset: p2 });
    }
    let cc = match crate::count::decode_count(
        crate::bytes::read_u64(bytes, p2),
        PICTURE_BIAS_MANTISSA,
        PICTURE_BIAS_SCALE,
    ) {
        Some(c) => c,
        None => {
            return Err(FormatError::CountOutOfRange { offset: p2 });
        },
    };
    let (pictures, p3) = match parse_pictures_exec(bytes, p2 + 8, cc as usize) {
        Ok(pp) => pp,
        Err(e) => {
            return Err(e);
        },
    };
    if bytes.len() - p3 < 4 {
        return Err(FormatError::UnexpectedEnd { offset: p3 });
    }
    let found = crate::bytes::read_u32(bytes, p3);
    if found != EOD {
        return Err(FormatError::SentinelMismatch { expected: EOD, found, offset: p3 });
    }
    if bytes.len() - (p3 + 4) < TOP10_BYTES {
        return Err(FormatError::UnexpectedEnd { offset: p3 + 4 });
    }
    let plain = crypt_top10(crate::read_n(bytes, p3 + 4, TOP10_BYTES));
    let top10_single = match parse_list_exec(&plain, 0, false, p3 + 4) {
        Ok(v) => v,
        Err(e) => {
            return Err(e);
        },
    };
    let top10_multi = match parse_list_exec(&plain, LIST_BYTES, true, p3 + 4 + LIST_BYTES) {
        Ok(v) => v,
        Err(e) => {
            return Err(e);
        },
    };
    let p4 = p3 + 4 + TOP10_BYTES;
    if bytes.len() - p4 < 4 {
        return Err(FormatError::UnexpectedEnd { offset: p4 });
    }
    let found2 = crate::bytes::read_u32(bytes, p4);
    if found2 != EOF {
        return Err(FormatError::SentinelMismatch { expected: EOF, found: found2, offset: p4 });
    }
    let level = Level {
        version,
        link,
        integrity,
        name,
        lgr,
        ground,
        sky,
        polygons,
        objects,
        pictures,
        top10_single,
        top10_multi,
    };
    proof {
        assert(level@.integrity =~= Seq::new(
            4,
            |i: int|
                u64_of(
                    bytes@.subrange(INTEGRITY_OFFSET + 8 * i, INTEGRITY_OFFSET + 8 * i + 8),
                ),
        ));
    }
    Ok(level)
}

/// One vertex occupies 16 bytes on the wire.
proof fn lemma_enc_vertices_len(s: Seq<Position<u64>>)
    ensures
        enc_vertices(s).len() == 16 * s.len(),
    decreases s.len(),
{
    if s.len() > 0 {
        lemma_enc_vertices_len(s.drop_first());
    }
}

/// One object occupies 28 bytes on the wire.
proof fn lemma_enc_objects_len(s: Seq<Object>)
    ensures
        enc_objects(s).len() == OBJECT_BYTES * s.len(),
    decreases s.len(),
{
    if s.len() > 0 {
        lemma_enc_objects_len(s.drop_first());
    }
}

/// One picture whose names fit their slots occupies 54 bytes on the wire.
proof fn lemma_enc_pictures_len(s: Seq<PictureV>)
    requires
        forall|i: int| 0 <= i < s.len() ==> (#[trigger] s[i]).name.len() <= PIC_NAME_BYTES
            && s[i].texture.len() <= PIC_NAME_BYTES && s[i].mask.len() <= PIC_NAME_BYTES,
    ensures
        enc_pictures(s).len() == PICTURE_BYTES * s.len(),
    decreases s.len(),
{
    if s.len() > 0 {
        let t = s.drop_first();
        assert forall|i: int| 0 <= i < t.len() implies (#[trigger] t[i]).name.len()
            <= PIC_NAME_BYTES && t[i].texture.len() <= PIC_NAME_BYTES && t[i].mask.len()
            <= PIC_NAME_BYTES by {
            assert(t[i] == s[i + 1]);
        }
        lemma_enc_pictures_len(t);
    }
}

/// One time occupies 4 bytes.
proof fn lemma_enc_times_len(s: Seq<EntryV>)
    ensures
        enc_times(s).len() == 4 * s.len(),
    decreases s.len(),
{
    if s.len() > 0 {
        lemma_enc_times_len(s.drop_first());
    }
}

/// One fitting first name occupies a 15-byte slot.
proof fn lemma_enc_names_1_len(s: Seq<EntryV>)
    requires
        forall|i: int| 0 <= i < s.len() ==> (#[trigger] s[i]).name_1.len() <= ENTRY_NAME_BYTES,
    ensures
        enc_names_1(s).len() == 15 * s.len(),
    decreases s.len(),
{
    if s.len() > 0 {
        let t = s.drop_first();
        assert forall|i: int| 0 <= i < t.len() implies (#[trigger] t[i]).name_1.len()
            <= ENTRY_NAME_BYTES by {
            assert(t[i] == s[i + 1]);
        }
        lemma_enc_names_1_len(t);
    }
}

/// One fitting second name occupies a 15-byte slot.
proof fn lemma_enc_names_2_len(s: Seq<EntryV>)
    requires
        forall|i: int| 0 <= i < s.len() ==> (#[trigger] s[i]).name_2.len() <= ENTRY_NAME_BYTES,
    ensures
        enc_names_2(s).len() == 15 * s.len(),
    decreases s.len(),
{
    if s.len() > 0 {
        let t = s.drop_first();
        assert forall|i: int| 0 <= i < t.len() implies (#[trigger] t[i]).name_2.len()
            <= ENTRY_NAME_BYTES by {
            assert(t[i] == s[i + 1]);
        }
        lemma_enc_names_2_len(t);
    }
}

/// A leaderboard sub-block whose names fit occupies exactly 344 bytes.
proof fn lemma_enc_list_len(s: Seq<EntryV>, multi: bool)
    requires
        s.len() <= TOP10_CAP,
        forall|i: int| 0 <= i < s.len() ==> (#[trigger] s[i]).name_1.len() <= ENTRY_NAME_BYTES,
        multi ==> forall|i: int| 0 <= i < s.len() ==> (#[trigger] s[i]).name_2.len()
            <= ENTRY_NAME_BYTES,
    ensures
        enc_list(s, multi).len() == LIST_BYTES,
{
    lemma_enc_times_len(s);
    lemma_enc_names_1_len(s);
    if multi {
        lemma_enc_names_2_len(s);
    }
}

/// Encoding one more vertex appends its bytes.
proof fn lemma_enc_vertices_snoc(s: Seq<Position<u64>>, i: int)
    requires
        0 <= i < s.len(),
    ensures
        enc_vertices(s.take(i + 1)) == enc_vertices(s.take(i)) + enc_vertex(s[i]),
    decreases i,
{
    if i == 0 {
        assert(s.take(1) =~= seq![s[0]]);
        assert(s.take(1).drop_first() =~= Seq::<Position<u64>>::empty());
        assert(s.take(0) =~= Seq::<Position<u64>>::empty());
        assert(enc_vertices(s.take(i + 1)) =~= enc_vertices(s.take(i)) + enc_vertex(s[i]));
    } else {
        let t = s.drop_first();
        lemma_enc_vertices_snoc(t, i - 1);
        assert(s.take(i + 1).drop_first() =~= t.take(i));
        assert(s.take(i).drop_first() =~= t.take(i - 1));
        assert(enc_vertices(s.take(i + 1)) == enc_vertex(s[0]) + (enc_vertices(t.take(i - 1))
            + enc_vertex(t[i - 1])));
        assert(enc_vertex(s[0]) + (enc_vertices(t.take(i - 1)) + enc_vertex(t[i - 1])) =~= (
        enc_vertex(s[0]) + enc_vertices(t.take(i - 1))) + enc_vertex(t[i - 1]));
    }
}

/// Encoding one more polygon appends its bytes.
proof fn lemma_enc_polygons_snoc(s: Seq<PolygonV>, i: int)
    requires
        0 <= i < s.len(),
    ensures
        enc_polygons(s.take(i + 1)) == enc_polygons(s.take(i)) + enc_polygon(s[i]),
    decreases i,
{
    if i == 0 {
        assert(s.take(1) =~= seq![s[0]]);
        assert(s.take(1).drop_first() =~= Seq::<PolygonV>::empty());
        assert(s.take(0) =~= Seq::<PolygonV>::empty());
        assert(enc_polygons(s.take(i + 1)) =~= enc_polygons(s.take(i)) + enc_polygon(s[i]));
    } else {
        let t = s.drop_first();
        lemma_enc_polygons_snoc(t, i - 1);
        assert(s.take(i + 1).drop_first() =~= t.take(i));
        assert(s.take(i).drop_first() =~= t.take(i - 1));
        assert(enc_polygons(s.take(i + 1)) == enc_polygon(s[0]) + (enc_polygons(t.take(i - 1))
            + enc_polygon(t[i - 1])));
        assert(enc_polygon(s[0]) + (enc_polygons(t.take(i - 1)) + enc_polygon(t[i - 1])) =~= (
        enc_polygon(s[0]) + enc_polygons(t.take(i - 1))) + enc_polygon(t[i - 1]));
    }
}

/// Encoding one more object appends its bytes.
proof fn lemma_enc_objects_snoc(s: Seq<Object>, i: int)
    requires
        0 <= i < s.len(),
    ensures
        enc_objects(s.take(i + 1)) == enc_objects(s.take(i)) + enc_object(s[i]),
    decreases i,
{
    if i == 0 {
        assert(s.take(1) =~= seq![s[0]]);
        assert(s.take(1).drop_first() =~= Seq::<Object>::empty());
        assert(s.take(0) =~= Seq::<Object>::empty());
        assert(enc_objects(s.take(i + 1)) =~= enc_objects(s.take(i)) + enc_object(s[i]));
    } else {
        let t = s.drop_first();
        lemma_enc_objects_snoc(t, i - 1);
        assert(s.take(i + 1).drop_first() =~= t.take(i));
        assert(s.take(i).drop_first() =~= t.take(i - 1));
        assert(enc_objects(s.take(i + 1)) == enc_object(s[0]) + (enc_objects(t.take(i - 1))
            + enc_object(t[i - 1])));
        assert(enc_object(s[0]) + (enc_objects(t.take(i - 1)) + enc_object(t[i - 1])) =~= (
        enc_object(s[0]) + enc_objects(t.take(i - 1))) + enc_object(t[i - 1]));
    }
}

/// Encoding one more picture appends its bytes.
proof fn lemma_enc_pictures_snoc(s: Seq<PictureV>, i: int)
    requires
        0 <= i < s.len(),
    ensures
        enc_pictures(s.take(i + 1)) == enc_pictures(s.take(i)) + enc_picture(s[i]),
    decreases i,
{
    if i == 0 {
        assert(s.take(1) =~= seq![s[0]]);
        assert(s.take(1).drop_first() =~= Seq::<PictureV>::empty());
        assert(s.take(0) =~= Seq::<PictureV>::empty());
        assert(enc_pictures(s.take(i + 1)) =~= enc_pictures(s.take(i)) + enc_picture(s[i]));
    } else {
        let t = s.drop_first();
        lemma_enc_pictures_snoc(t, i - 1);
        assert(s.take(i + 1).drop_first() =~= t.take(i));
        assert(s.take(i).drop_first() =~= t.take(i - 1));
        assert(enc_pictures(s.take(i + 1)) == enc_picture(s[0]) + (enc_pictures(t.take(i - 1))
            + enc_picture(t[i - 1])));
        assert(enc_picture(s[0]) + (enc_pictures(t.take(i - 1)) + enc_picture(t[i - 1])) =~= (
        enc_picture(s[0]) + enc_pictures(t.take(i - 1))) + enc_picture(t[i - 1]));
    }
}

/// Encoding one more time appends its bytes.
proof fn lemma_enc_times_snoc(s: Seq<EntryV>, i: int)
    requires
        0 <= i < s.len(),
    ensures
        enc_times(s.take(i + 1)) == enc_times(s.take(i)) + le32(as_u32(s[i].time)),
    decreases i,
{
    if i == 0 {
        assert(s.take(1) =~= seq![s[0]]);
        assert(s.take(1).drop_first() =~= Seq::<EntryV>::empty());
        assert(s.take(0) =~= Seq::<EntryV>::empty());
        assert(enc_times(s.take(i + 1)) =~= enc_times(s.take(i)) + le32(as_u32(s[i].time)));
    } else {
        let t = s.drop_first();
        lemma_enc_times_snoc(t, i - 1);
        assert(s.take(i + 1).drop_first() =~= t.take(i));
        assert(s.take(i).drop_first() =~= t.take(i - 1));
        assert(enc_times(s.take(i + 1)) == le32(as_u32(s[0].time)) + (enc_times(t.take(i - 1))
            + le32(as_u32(t[i - 1].time))));
        assert(le32(as_u32(s[0].time)) + (enc_times(t.take(i - 1)) + le32(as_u32(t[i - 1].time)))
            =~= (le32(as_u32(s[0].time)) + enc_times(t.take(i - 1))) + le32(as_u32(t[i - 1].time)));
    }
}

/// Encoding one more first name appends its slot.
proof fn lemma_enc_names_1_snoc(s: Seq<EntryV>, i: int)
    requires
        0 <= i < s.len(),
    ensures
        enc_names_1(s.take(i + 1)) == enc_names_1(s.take(i)) + slot_of(
            s[i].name_1,
            ENTRY_NAME_BYTES as nat,
        ),
    decreases i,
{
    if i == 0 {
        assert(s.take(1) =~= seq![s[0]]);
        assert(s.take(1).drop_first() =~= Seq::<EntryV>::empty());
        assert(s.take(0) =~= Seq::<EntryV>::empty());
        assert(enc_names_1(s.take(i + 1)) =~= enc_names_1(s.take(i)) + slot_of(
            s[i].name_1,
            ENTRY_NAME_BYTES as nat,
        ));
    } else {
        let t = s.drop_first();
        lemma_enc_names_1_snoc(t, i - 1);
        assert(s.take(i + 1).drop_first() =~= t.take(i));
        assert(s.take(i).drop_first() =~= t.take(i - 1));
        assert(enc_names_1(s.take(i + 1)) == slot_of(s[0].name_1, ENTRY_NAME_BYTES as nat) + (
        enc_names_1(t.take(i - 1)) + slot_of(t[i - 1].name_1, ENTRY_NAME_BYTES as nat)));
        assert(slot_of(s[0].name_1, ENTRY_NAME_BYTES as nat) + (enc_names_1(t.take(i - 1))
            + slot_of(t[i - 1].name_1, ENTRY_NAME_BYTES as nat)) =~= (slot_of(
            s[0].name_1,
            ENTRY_NAME_BYTES as nat,
        ) + enc_names_1(t.take(i - 1))) + slot_of(t[i - 1].name_1, ENTRY_NAME_BYTES as nat));
    }
}

/// Encoding one more second name appends its slot.
proof fn lemma_enc_names_2_snoc(s: Seq<EntryV>, i: int)
    requires
        0 <= i < s.len(),
    ensures
        enc_names_2(s.take(i + 1)) == enc_names_2(s.take(i)) + slot_of(
            s[i].name_2,
            ENTRY_NAME_BYTES as nat,
        ),
    decreases i,
{
    if i == 0 {
        assert(s.take(1) =~= seq![s[0]]);
        assert(s.take(1).drop_first() =~= Seq::<EntryV>::empty());
        assert(s.take(0) =~= Seq::<EntryV>::empty());
        assert(enc_names_2(s.take(i + 1)) =~= enc_names_2(s.take(i)) + slot_of(
            s[i].name_2,
            ENTRY_NAME_BYTES as nat,
        ));
    } else {
        let t = s.drop_first();
        lemma_enc_names_2_snoc(t, i - 1);
        assert(s.take(i + 1).drop_first() =~= t.take(i));
        assert(s.take(i).drop_first() =~= t.take(i - 1));
        assert(enc_names_2(s.take(i + 1)) == slot_of(s[0].name_2, ENTRY_NAME_BYTES as nat) + (
        enc_names_2(t.take(i - 1)) + slot_of(t[i - 1].name_2, ENTRY_NAME_BYTES as nat)));
        assert(slot_of(s[0].name_2, ENTRY_NAME_BYTES as nat) + (enc_names_2(t.take(i - 1))
            + slot_of(t[i - 1].name_2, ENTRY_NAME_BYTES as nat)) =~= (slot_of(
            s[0].name_2,
            ENTRY_NAME_BYTES as nat,
        ) + enc_names_2(t.take(i - 1))) + slot_of(t[i - 1].name_2, ENTRY_NAME_BYTES as nat));
    }
}

/// Append `n` zero bytes.
fn write_zeros(out: &mut Vec<u8>, n: usize)
    ensures
        final(out)@ == old(out)@ + zeros(n as nat),
{
    let mut i: usize = 0;
    while i < n
        invariant
            i <= n,
            out@ == old(out)@ + zeros(i as nat),
        decreases n - i,
    {
        out.push(0u8);
        i = i + 1;
        assert(out@ =~= old(out)@ + zeros(i as nat));
    }
}

/// Append the 5-byte signature of a version.
fn write_sig(out: &mut Vec<u8>, v: Version)
    ensures
        final(out)@ == old(out)@ + enc_version(v),
{
    match v {
        Version::Elma => {
            out.push(80);
            out.push(79);
            out.push(84);
            out.push(49);
            out.push(52);
        },
        Version::Across => {
            out.push(80);
            out.push(79);
            out.push(84);
            out.push(48);
            out.push(54);
        },
    }
    assert(out@ =~= old(out)@ + enc_version(v));
}

/// Append the wire bytes of one polygon.
fn write_polygon(out: &mut Vec<u8>, p: &Polygon)
    requires
        p.vertices@.len() <= VERTEX_COUNT_MAX,
    ensures
        final(out)@ == old(out)@ + enc_polygon(p@),
{
    crate::bytes::write_u32(
        out,
        if p.grass {
            1
        } else {
            0
        },
    );
    crate::bytes::write_u32(out, p.vertices.len() as u32);
    let ghost head = old(out)@ + le32(grass32(p.grass)) + le32(p.vertices@.len() as u32);
    assert(out@ == head);
    let mut i: usize = 0;
    while i < p.vertices.len()
        invariant
            i <= p.vertices@.len(),
            out@ == head + enc_vertices(p.vertices@.take(i as int)),
        decreases p.vertices.len() - i,
    {
        let v = p.vertices[i];
        crate::bytes::write_u64(out, v.x);
        crate::bytes::write_u64(out, v.y);
        i = i + 1;
        proof {
            lemma_enc_vertices_snoc(p.vertices@, i - 1);
            assert(out@ =~= head + enc_vertices(p.vertices@.take(i as int)));
        }
    }
    assert(p.vertices@.take(p.vertices@.len() as int) =~= p.vertices@);
    assert(out@ =~= old(out)@ + enc_polygon(p@));
}

/// Append the 28 wire bytes of one object.
fn write_object(out: &mut Vec<u8>, o: &Object)
    ensures
        final(out)@ == old(out)@ + enc_object(*o),
{
    crate::bytes::write_u64(out, o.position.x);
    crate::bytes::write_u64(out, o.position.y);
    let tag: u32 = match o.object_type {
        ObjectType::Exit => 1,
        ObjectType::Apple => 2,
        ObjectType::Killer => 3,
        ObjectType::Player => 4,
    };
    crate::bytes::write_u32(out, tag);
    crate::bytes::write_u32(out, crate::bytes::i32_to_u32(o.gravity));
    let stored: i32 = if o.animation == i32::MIN {
        i32::MAX
    } else {
        o.animation - 1
    };
    crate::bytes::write_u32(out, crate::bytes::i32_to_u32(stored));
    assert(out@ =~= old(out)@ + enc_object(*o));
}

/// Append the 54 wire bytes of one picture.
fn write_picture(out: &mut Vec<u8>, p: &Picture)
    requires
        p.name@.len() < PIC_NAME_BYTES,
        p.texture@.len() < PIC_NAME_BYTES,
        p.mask@.len() < PIC_NAME_BYTES,
    ensures
        final(out)@ == old(out)@ + enc_picture(p@),
{
    crate::fixed::write_field(out, &p.name, PIC_NAME_BYTES);
    crate::fixed::write_field(out, &p.texture, PIC_NAME_BYTES);
    crate::fixed::write_field(out, &p.mask, PIC_NAME_BYTES);
    crate::bytes::write_u64(out, p.position.x);
    crate::bytes::write_u64(out, p.position.y);
    crate::bytes::write_u32(out, crate::bytes::i32_to_u32(p.distance));
    let tag: u32 = match p.clip {
        ClipMode::Unclipped => 0,
        ClipMode::Ground => 1,
        ClipMode::Sky => 2,
    };
    crate::bytes::write_u32(out, tag);
    assert(out@ =~= old(out)@ + enc_picture(p@));
}

/// Append one 344-byte leaderboard sub-block in the clear.
fn write_list(out: &mut Vec<u8>, entries: &Vec<ListEntry>, multi: bool)
    requires
        entries@.len() <= TOP10_CAP,
        forall|i: int| 0 <= i < entries@.len() ==> #[trigger] entries@[i].name_1@.len()
            < ENTRY_NAME_BYTES,
        multi ==> forall|i: int| 0 <= i < entries@.len() ==> #[trigger] entries@[i].name_2@.len()
            < ENTRY_NAME_BYTES,
    ensures
        final(out)@ == old(out)@ + enc_list(
            Seq::new(entries@.len(), |i: int| entries@[i]@),
            multi,
        ),
{
    let ghost sv = Seq::new(entries@.len(), |i: int| entries@[i]@);
    let n = entries.len();
    crate::bytes::write_u32(out, n as u32);
    let ghost c1 = old(out)@ + le32(sv.len() as u32);
    assert(out@ == c1);
    let mut i: usize = 0;
    while i < n
        invariant
            i <= n == entries@.len() <= TOP10_CAP,
            sv == Seq::new(entries@.len(), |k: int| entries@[k]@),
            out@ == c1 + enc_times(sv.take(i as int)),
        decreases n - i,
    {
        crate::bytes::write_u32(out, crate::bytes::i32_to_u32(entries[i].time));
        i = i + 1;
        proof {
            lemma_enc_times_snoc(sv, i - 1);
            assert(out@ =~= c1 + enc_times(sv.take(i as int)));
        }
    }
    assert(sv.take(sv.len() as int) =~= sv);
    write_zeros(out, 40 - 4 * n);
    let ghost c2 = c1 + enc_times(sv) + zeros((40 - 4 * sv.len()) as nat);
    assert(out@ == c2);
    let mut i: usize = 0;
    while i < n
        invariant
            i <= n == entries@.len() <= TOP10_CAP,
            sv == Seq::new(entries@.len(), |k: int| entries@[k]@),
            forall|k: int| 0 <= k < entries@.len() ==> #[trigger] entries@[k].name_1@.len()
                < ENTRY_NAME_BYTES,
            out@ == c2 + enc_names_1(sv.take(i as int)),
        decreases n - i,
    {
        crate::fixed::write_field(out, &entries[i].name_1, ENTRY_NAME_BYTES);
        i = i + 1;
        proof {
            lemma_enc_names_1_snoc(sv, i - 1);
            assert(out@ =~= c2 + enc_names_1(sv.take(i as int)));
        }
    }
    assert(sv.take(sv.len() as int) =~= sv);
    write_zeros(out, 150 - 15 * n);
    let ghost c3 = c2 + enc_names_1(sv) + zeros((150 - 15 * sv.len()) as nat);
    assert(out@ == c3);
    if multi {
        let mut i: usize = 0;
        while i < n
            invariant
                multi,
                i <= n == entries@.len() <= TOP10_CAP,
                sv == Seq::new(entries@.len(), |k: int| entries@[k]@),
                forall|k: int| 0 <= k < entries@.len() ==> #[trigger] entries@[k].name_2@.len()
                    < ENTRY_NAME_BYTES,
                out@ == c3 + enc_names_2(sv.take(i as int)),
            decreases n - i,
        {
            crate::fixed::write_field(out, &entries[i].name_2, ENTRY_NAME_BYTES);
            i = i + 1;
            proof {
                lemma_enc_names_2_snoc(sv, i - 1);
                assert(out@ =~= c3 + enc_names_2(sv.take(i as int)));
            }
        }
        assert(sv.take(sv.len() as int) =~= sv);
        write_zeros(out, 150 - 15 * n);
    } else {
        write_zeros(out, 150);
        assert(c3 + Seq::<u8>::empty() =~= c3);
    }
    assert(out@ =~= old(out)@ + enc_list(sv, multi));
}

/// Whether some polygon holds more vertices than the count field's domain.
fn any_vertices_over(v: &Vec<Polygon>) -> (r: bool)
    ensures
        r == exists|i: int| 0 <= i < v@.len() && (#[trigger] v@[i])@.vertices.len()
            > VERTEX_COUNT_MAX,
{
    let mut i: usize = 0;
    while i < v.len()
        invariant
            i <= v@.len(),
            forall|j: int| 0 <= j < i ==> (#[trigger] v@[j])@.vertices.len() <= VERTEX_COUNT_MAX,
        decreases v@.len() - i,
    {
        if v[i].vertices.len() > VERTEX_COUNT_MAX {
            return true;
        }
        i = i + 1;
    }
    false
}

/// Which of a picture's three name slots to examine.
#[derive(Clone, Copy)]
enum PicField {
    Name,
    Texture,
    Mask,
}

/// The chosen name field of a picture.
spec fn pic_field_of(p: PictureV, f: PicField) -> Seq<u8> {
    match f {
        PicField::Name => p.name,
        PicField::Texture => p.texture,
        PicField::Mask => p.mask,
    }
}

/// Whether some picture's chosen name field overflows its slot.
fn any_pic_field_long(v: &Vec<Picture>, f: PicField) -> (r: bool)
    ensures
        r == exists|i: int| 0 <= i < v@.len() && pic_field_of((#[trigger] v@[i])@, f).len()
            >= PIC_NAME_BYTES,
{
    let mut i: usize = 0;
    while i < v.len()
        invariant
            i <= v@.len(),
            forall|j: int| 0 <= j < i ==> pic_field_of((#[trigger] v@[j])@, f).len()
                < PIC_NAME_BYTES,
        decreases v@.len() - i,
    {
        let long = match f {
            PicField::Name => v[i].name.len() >= PIC_NAME_BYTES,
            PicField::Texture => v[i].texture.len() >= PIC_NAME_BYTES,
            PicField::Mask => v[i].mask.len() >= PIC_NAME_BYTES,
        };
        if long {
            return true;
        }
        i = i + 1;
    }
    false
}

/// Whether some entry's first (or, with `second`, second) player name
/// overflows its slot.
fn any_entry_name_long(v: &Vec<ListEntry>, second: bool) -> (r: bool)
    ensures
        !second ==> r == exists|i: int| 0 <= i < v@.len() && (#[trigger] v@[i])@.name_1.len()
            >= ENTRY_NAME_BYTES,
        second ==> r == exists|i: int| 0 <= i < v@.len() && (#[trigger] v@[i])@.name_2.len()
            >= ENTRY_NAME_BYTES,
{
    let mut i: usize = 0;
    while i < v.len()
        invariant
            i <= v@.len(),
            !second ==> forall|j: int| 0 <= j < i ==> (#[trigger] v@[j])@.name_1.len()
                < ENTRY_NAME_BYTES,
            second ==> forall|j: int| 0 <= j < i ==> (#[trigger] v@[j])@.name_2.len()
                < ENTRY_NAME_BYTES,
        decreases v@.len() - i,
    {
        let long = if second {
            v[i].name_2.len() >= ENTRY_NAME_BYTES
        } else {
            v[i].name_1.len() >= ENTRY_NAME_BYTES
        };
        if long {
            return true;
        }
        i = i + 1;
    }
    false
}

/// Encode a whole level record to its wire bytes; the exact mirror of
/// [`decode_level`], biases and cipher included.  Fails, without output,
/// exactly when a field cannot live in the fixed layout.
#[verifier::rlimit(100)]
pub fn encode_level(level: &Level) -> (r: Result<Vec<u8>, EncodeError>)
    ensures
        match r {
            Ok(v) => spec_encode_level(level@) == Ok::<Seq<u8>, EncodeError>(v@),
            Err(e) => spec_encode_level(level@) == Err::<Seq<u8>, EncodeError>(e),
        },
{
    proof {
        lemma_biases_ok();
    }
    let ghost l = level@;
    if level.name.len() >= NAME_BYTES {
        return Err(EncodeError::FieldTooLong { field: FieldId::Name, max: NAME_BYTES });
    }
    if level.lgr.len() >= LGR_BYTES {
        return Err(EncodeError::FieldTooLong { field: FieldId::Lgr, max: LGR_BYTES });
    }
    if level.ground.len() >= TEXTURE_BYTES {
        return Err(EncodeError::FieldTooLong { field: FieldId::Ground, max: TEXTURE_BYTES });
    }
    if level.sky.len() >= TEXTURE_BYTES {
        return Err(EncodeError::FieldTooLong { field: FieldId::Sky, max: TEXTURE_BYTES });
    }
    if level.polygons.len() > LEV_COUNT_MAX {
        return Err(
            EncodeError::CapacityExceeded { section: SectionId::Polygons, max: LEV_COUNT_MAX },
        );
    }
    let vertices_over = any_vertices_over(&level.polygons);
    proof {
        if vertices_over {
            let i = choose|i: int|
                0 <= i < level.polygons@.len() && (#[trigger] level.polygons@[i])@.vertices.len()
                    > VERTEX_COUNT_MAX;
            assert(l.polygons[i].vertices.len() > VERTEX_COUNT_MAX);
            assert(some_vertices_over(l.polygons));
        } else {
            if some_vertices_over(l.polygons) {
                let i = choose|i: int|
                    0 <= i < l.polygons.len() && #[trigger] l.polygons[i].vertices.len()
                        > VERTEX_COUNT_MAX;
                assert((level.polygons@[i])@.vertices.len() > VERTEX_COUNT_MAX);
                assert(false);
            }
        }
    }
    if vertices_over {
        return Err(
            EncodeError::CapacityExceeded { section: SectionId::Vertices, max: VERTEX_COUNT_MAX },
        );
    }
    if level.objects.len() > LEV_COUNT_MAX {
        return Err(
            EncodeError::CapacityExceeded { section: SectionId::Objects, max: LEV_COUNT_MAX },
        );
    }
    if level.pictures.len() > LEV_COUNT_MAX {
        return Err(
            EncodeError::CapacityExceeded { section: SectionId::Pictures, max: LEV_COUNT_MAX },
        );
    }
    let pic_name_long = any_pic_field_long(&level.pictures, PicField::Name);
    let pic_texture_long = any_pic_field_long(&level.pictures, PicField::Texture);
    let pic_mask_long = any_pic_field_long(&level.pictures, PicField::Mask);
    proof {
        if pic_name_long {
            let i = choose|i: int|
                0 <= i < level.pictures@.len() && pic_field_of(
                    (#[trigger] level.pictures@[i])@,
                    PicField::Name,
                ).len() >= PIC_NAME_BYTES;
            assert(l.pictures[i].name.len() >= PIC_NAME_BYTES);
            assert(some_pic_name_long(l.pictures));
        } else {
            if some_pic_name_long(l.pictures) {
                let i = choose|i: int|
                    0 <= i < l.pictures.len() && #[trigger] l.pictures[i].name.len()
                        >= PIC_NAME_BYTES;
                assert(pic_field_of((level.pictures@[i])@, PicField::Name).len() >= PIC_NAME_BYTES);
                assert(false);
            }
        }
        if pic_texture_long {
            let i = choose|i: int|
                0 <= i < level.pictures@.len() && pic_field_of(
                    (#[trigger] level.pictures@[i])@,
                    PicField::Texture,
                ).len() >= PIC_NAME_BYTES;
            assert(l.pictures[i].texture.len() >= PIC_NAME_BYTES);
            assert(some_pic_texture_long(l.pictures));
        } else {
            if some_pic_texture_long(l.pictures) {
                let i = choose|i: int|
                    0 <= i < l.pictures.len() && #[trigger] l.pictures[i].texture.len()
                        >= PIC_NAME_BYTES;
                assert(pic_field_of((level.pictures@[i])@, PicField::Texture).len()
                    >= PIC_NAME_BYTES);
                assert(false);
            }
        }
        if pic_mask_long {
            let i = choose|i: int|
                0 <= i < level.pictures@.len() && pic_field_of(
                    (#[trigger] level.pictures@[i])@,
                    PicField::Mask,
                ).len() >= PIC_NAME_BYTES;
            assert(l.pictures[i].mask.len() >= PIC_NAME_BYTES);
            assert(some_pic_mask_long(l.pictures));
        } else {
            if some_pic_mask_long(l.pictures) {
                let i = choose|i: int|
                    0 <= i < l.pictures.len() && #[trigger] l.pictures[i].mask.len()
                        >= PIC_NAME_BYTES;
                assert(pic_field_of((level.pictures@[i])@, PicField::Mask).len() >= PIC_NAME_BYTES);
                assert(false);
            }
        }
    }
    if pic_name_long {
        return Err(EncodeError::FieldTooLong { field: FieldId::PictureName, max: PIC_NAME_BYTES });
    }
    if pic_texture_long {
        return Err(
            EncodeError::FieldTooLong { field: FieldId::PictureTexture, max: PIC_NAME_BYTES },
        );
    }
    if pic_mask_long {
        return Err(EncodeError::FieldTooLong { field: FieldId::PictureMask, max: PIC_NAME_BYTES });
    }
    if level.top10_single.len() > TOP10_CAP {
        return Err(EncodeError::CapacityExceeded { section: SectionId::SingleList, max: TOP10_CAP });
    }
    if level.top10_multi.len() > TOP10_CAP {
        return Err(EncodeError::CapacityExceeded { section: SectionId::MultiList, max: TOP10_CAP });
    }
    let single_1_long = any_entry_name_long(&level.top10_single, false);
    let multi_1_long = any_entry_name_long(&level.top10_multi, false);
    let multi_2_long = any_entry_name_long(&level.top10_multi, true);
    proof {
        if single_1_long {
            let i = choose|i: int|
                0 <= i < level.top10_single@.len() && (
                #[trigger] level.top10_single@[i])@.name_1.len() >= ENTRY_NAME_BYTES;
            assert(l.top10_single[i].name_1.len() >= ENTRY_NAME_BYTES);
            assert(some_name_1_long(l.top10_single));
        } else {
            if some_name_1_long(l.top10_single) {
                let i = choose|i: int|
                    0 <= i < l.top10_single.len() && #[trigger] l.top10_single[i].name_1.len()
                        >= ENTRY_NAME_BYTES;
                assert((level.top10_single@[i])@.name_1.len() >= ENTRY_NAME_BYTES);
                assert(false);
            }
        }
        if multi_1_long {
            let i = choose|i: int|
                0 <= i < level.top10_multi@.len() && (
                #[trigger] level.top10_multi@[i])@.name_1.len() >= ENTRY_NAME_BYTES;
            assert(l.top10_multi[i].name_1.len() >= ENTRY_NAME_BYTES);
            assert(some_name_1_long(l.top10_multi));
        } else {
            if some_name_1_long(l.top10_multi) {
                let i = choose|i: int|
                    0 <= i < l.top10_multi.len() && #[trigger] l.top10_multi[i].name_1.len()
                        >= ENTRY_NAME_BYTES;
                assert((level.top10_multi@[i])@.name_1.len() >= ENTRY_NAME_BYTES);
                assert(false);
            }
        }
        if multi_2_long {
            let i = choose|i: int|
                0 <= i < level.top10_multi@.len() && (
                #[trigger] level.top10_multi@[i])@.name_2.len() >= ENTRY_NAME_BYTES;
            assert(l.top10_multi[i].name_2.len() >= ENTRY_NAME_BYTES);
            assert(some_name_2_long(l.top10_multi));
        } else {
            if some_name_2_long(l.top10_multi) {
                let i = choose|i: int|
                    0 <= i < l.top10_multi.len() && #[trigger] l.top10_multi[i].name_2.len()
                        >= ENTRY_NAME_BYTES;
                assert((level.top10_multi@[i])@.name_2.len() >= ENTRY_NAME_BYTES);
                assert(false);
            }
        }
    }
    if single_1_long {
        return Err(EncodeError::FieldTooLong { field: FieldId::EntryName1, max: ENTRY_NAME_BYTES });
    }
    if multi_1_long {
        return Err(EncodeError::FieldTooLong { field: FieldId::EntryName1, max: ENTRY_NAME_BYTES });
    }
    if multi_2_long {
        return Err(EncodeError::FieldTooLong { field: FieldId::EntryName2, max: ENTRY_NAME_BYTES });
    }
    assert(level_encode_err(l) is None);
    // every field fits; write the record
    let mut out: Vec<u8> = Vec::new();
    write_sig(&mut out, level.version);
    out.push(0);
    out.push(0);
    assert(out@ =~= enc_version(l.version) + seq![0u8, 0u8]);
    crate::bytes::write_u32(&mut out, crate::bytes::i32_to_u32(level.link));
    crate::bytes::write_u64(&mut out, level.integrity[0]);
    crate::bytes::write_u64(&mut out, level.integrity[1]);
    crate::bytes::write_u64(&mut out, level.integrity[2]);
    crate::bytes::write_u64(&mut out, level.integrity[3]);
    proof {
        assert(le64(level.integrity@[0]) + le64(level.integrity@[1]) + le64(level.integrity@[2])
            + le64(level.integrity@[3]) == enc_integrity(l.integrity));
        assert(out@ =~= enc_version(l.version) + seq![0u8, 0u8] + le32(as_u32(l.link))
            + enc_integrity(l.integrity));
    }
    crate::fixed::write_field(&mut out, &level.name, NAME_BYTES);
    crate::fixed::write_field(&mut out, &level.lgr, LGR_BYTES);
    crate::fixed::write_field(&mut out, &level.ground, TEXTURE_BYTES);
    crate::fixed::write_field(&mut out, &level.sky, TEXTURE_BYTES);
    crate::bytes::write_u64(
        &mut out,
        crate::count::encode_count(
            level.polygons.len() as u16,
            COUNT_BIAS_MANTISSA,
            COUNT_BIAS_SCALE,
        ),
    );
    let ghost pre_polys = out@;
    let mut i: usize = 0;
    while i < level.polygons.len()
        invariant
            i <= level.polygons@.len(),
            forall|k: int| 0 <= k < level.polygons@.len() ==> (
            #[trigger] level.polygons@[k])@.vertices.len() <= VERTEX_COUNT_MAX,
            out@ == pre_polys + enc_polygons(
                Seq::new(level.polygons@.len(), |k: int| level.polygons@[k]@).take(i as int),
            ),
        decreases level.polygons@.len() - i,
    {
        let ghost pv = Seq::new(level.polygons@.len(), |k: int| level.polygons@[k]@);
        write_polygon(&mut out, &level.polygons[i]);
        i = i + 1;
        proof {
            lemma_enc_polygons_snoc(pv, i - 1);
            assert(out@ =~= pre_polys + enc_polygons(pv.take(i as int)));
        }
    }
    proof {
        assert(Seq::new(level.polygons@.len(), |k: int| level.polygons@[k]@).take(
            level.polygons@.len() as int,
        ) =~= l.polygons);
    }
    assert(out@ == pre_polys + enc_polygons(l.polygons));
    crate::bytes::write_u64(
        &mut out,
        crate::count::encode_count(
            level.objects.len() as u16,
            COUNT_BIAS_MANTISSA,
            COUNT_BIAS_SCALE,
        ),
    );
    let ghost pre_objects = out@;
    let mut i: usize = 0;
    while i < level.objects.len()
        invariant
            i <= level.objects@.len(),
            out@ == pre_objects + enc_objects(level.objects@.take(i as int)),
        decreases level.objects@.len() - i,
    {
        write_object(&mut out, &level.objects[i]);
        i = i + 1;
        proof {
            lemma_enc_objects_snoc(level.objects@, i - 1);
            assert(out@ =~= pre_objects + enc_objects(level.objects@.take(i as int)));
        }
    }
    proof {
        assert(level.objects@.take(level.objects@.len() as int) =~= l.objects);
    }
    assert(out@ == pre_objects + enc_objects(l.objects));
    crate::bytes::write_u64(
        &mut out,
        crate::count::encode_count(
            level.pictures.len() as u16,
            PICTURE_BIAS_MANTISSA,
            PICTURE_BIAS_SCALE,
        ),
    );
    let ghost pre_pictures = out@;
    let mut i: usize = 0;
    while i < level.pictures.len()
        invariant
            i <= level.pictures@.len(),
            forall|k: int| 0 <= k < level.pictures@.len() ==> pic_field_of(
                (#[trigger] level.pictures@[k])@,
                PicField::Name,
            ).len() < PIC_NAME_BYTES,
            forall|k: int| 0 <= k < level.pictures@.len() ==> pic_field_of(
                (#[trigger] level.pictures@[k])@,
                PicField::Texture,
            ).len() < PIC_NAME_BYTES,
            forall|k: int| 0 <= k < level.pictures@.len() ==> pic_field_of(
                (#[trigger] level.pictures@[k])@,
                PicField::Mask,
            ).len() < PIC_NAME_BYTES,
            out@ == pre_pictures + enc_pictures(
                Seq::new(level.pictures@.len(), |k: int| level.pictures@[k]@).take(i as int),
            ),
        decreases level.pictures@.len() - i,
    {
        let ghost pv = Seq::new(level.pictures@.len(), |k: int| level.pictures@[k]@);
        assert(pic_field_of(level.pictures@[i as int]@, PicField::Name).len() < PIC_NAME_BYTES);
        assert(pic_field_of(level.pictures@[i as int]@, PicField::Texture).len() < PIC_NAME_BYTES);
        assert(pic_field_of(level.pictures@[i as int]@, PicField::Mask).len() < PIC_NAME_BYTES);
        write_picture(&mut out, &level.pictures[i]);
        i = i + 1;
        proof {
            lemma_enc_pictures_snoc(pv, i - 1);
            assert(out@ =~= pre_pictures + enc_pictures(pv.take(i as int)));
        }
    }
    proof {
        assert(Seq::new(level.pictures@.len(), |k: int| level.pictures@[k]@).take(
            level.pictures@.len() as int,
        ) =~= l.pictures);
    }
    assert(out@ == pre_pictures + enc_pictures(l.pictures));
    crate::bytes::write_u32(&mut out, EOD);
    // the leaderboard block is built in the clear, then enciphered whole
    let mut plain: Vec<u8> = Vec::new();
    proof {
        assert forall|k: int| 0 <= k < level.top10_single@.len() implies (
        #[trigger] level.top10_single@[k]).name_1@.len() < ENTRY_NAME_BYTES by {
            assert(level.top10_single@[k]@.name_1.len() < ENTRY_NAME_BYTES);
        }
        assert forall|k: int| 0 <= k < level.top10_multi@.len() implies (
        #[trigger] level.top10_multi@[k]).name_1@.len() < ENTRY_NAME_BYTES by {
            assert(level.top10_multi@[k]@.name_1.len() < ENTRY_NAME_BYTES);
        }
        assert forall|k: int| 0 <= k < level.top10_multi@.len() implies (
        #[trigger] level.top10_multi@[k]).name_2@.len() < ENTRY_NAME_BYTES by {
            assert(level.top10_multi@[k]@.name_2.len() < ENTRY_NAME_BYTES);
        }
    }
    write_list(&mut plain, &level.top10_single, false);
    write_list(&mut plain, &level.top10_multi, true);
    proof {
        assert forall|k: int| 0 <= k < l.top10_single.len() implies (
        #[trigger] l.top10_single[k]).name_1.len() <= ENTRY_NAME_BYTES by {
            if l.top10_single[k].name_1.len() >= ENTRY_NAME_BYTES {
                assert(some_name_1_long(l.top10_single));
                assert(false);
            }
        }
        assert forall|k: int| 0 <= k < l.top10_multi.len() implies (
        #[trigger] l.top10_multi[k]).name_1.len() <= ENTRY_NAME_BYTES by {
            if l.top10_multi[k].name_1.len() >= ENTRY_NAME_BYTES {
                assert(some_name_1_long(l.top10_multi));
                assert(false);
            }
        }
        assert forall|k: int| 0 <= k < l.top10_multi.len() implies (
        #[trigger] l.top10_multi[k]).name_2.len() <= ENTRY_NAME_BYTES by {
            if l.top10_multi[k].name_2.len() >= ENTRY_NAME_BYTES {
                assert(some_name_2_long(l.top10_multi));
                assert(false);
            }
        }
        lemma_enc_list_len(l.top10_single, false);
        lemma_enc_list_len(l.top10_multi, true);
        assert(plain@ =~= enc_top10_plain(l));
    }
    let mut cipher = crypt_top10(plain);
    out.append(&mut cipher);
    crate::bytes::write_u32(&mut out, EOF);
    proof {
        reveal(enc_level_bytes);
        assert(out@ =~= enc_level_bytes(l));
    }
    Ok(out)
}

impl Level {
    /// Convert the record into its raw binary form.
    pub fn get_raw(self) -> (r: Result<Vec<u8>, EncodeError>)
        ensures
            match r {
                Ok(v) => spec_encode_level(self@) == Ok::<Seq<u8>, EncodeError>(v@),
                Err(e) => spec_encode_level(self@) == Err::<Seq<u8>, EncodeError>(e),
            },
    {
        encode_level(&self)
    }
}

/// Reading back the 16 bytes written for a vertex gives the same vertex.
proof fn lemma_vertex_round_trip(s: Seq<u8>, pos: int, v: Position<u64>)
    requires
        0 <= pos,
        pos + 16 <= s.len(),
        s.subrange(pos, pos + 16) == enc_vertex(v),
    ensures
        vertex_at(s, pos) == v,
{
    s.lemma_slice_of_slice(pos, pos + 16, 0, 8);
    s.lemma_slice_of_slice(pos, pos + 16, 8, 16);
    assert(enc_vertex(v).subrange(0, 8) =~= crate::bytes::le64(v.x));
    assert(enc_vertex(v).subrange(8, 16) =~= crate::bytes::le64(v.y));
    crate::bytes::lemma_u64_round_trip(v.x);
    crate::bytes::lemma_u64_round_trip(v.y);
}

/// Parsing the bytes written for a run of vertices gives the run back.
proof fn lemma_vertices_round_trip(s: Seq<u8>, pos: int, vs: Seq<Position<u64>>)
    requires
        0 <= pos,
        pos + 16 * vs.len() <= s.len(),
        s.subrange(pos, pos + 16 * vs.len()) == enc_vertices(vs),
    ensures
        parse_vertices(s, pos, vs.len()) == Ok::<_, FormatError>((vs, pos + 16 * vs.len())),
    decreases vs.len(),
{
    lemma_enc_vertices_len(vs);
    if vs.len() == 0 {
        assert(vs =~= Seq::<Position<u64>>::empty());
    } else {
        let rest = vs.drop_first();
        lemma_enc_vertices_len(rest);
        let total: int = 16int * vs.len() as int;
        s.lemma_slice_of_slice(pos, pos + total, 0, 16);
        assert(enc_vertices(vs).subrange(0, 16) =~= enc_vertex(vs[0]));
        lemma_vertex_round_trip(s, pos, vs[0]);
        s.lemma_slice_of_slice(pos, pos + total, 16, total);
        assert(enc_vertices(vs).subrange(16, total) =~= enc_vertices(rest));
        lemma_vertices_round_trip(s, pos + 16, rest);
        assert(seq![vs[0]] + rest =~= vs);
    }
}

/// Reading back the bytes written for a polygon gives the same polygon.
#[verifier::rlimit(50)]
proof fn lemma_polygon_round_trip(s: Seq<u8>, pos: int, p: PolygonV)
    requires
        0 <= pos,
        p.vertices.len() <= VERTEX_COUNT_MAX,
        pos + enc_polygon(p).len() <= s.len(),
        s.subrange(pos, pos + enc_polygon(p).len()) == enc_polygon(p),
    ensures
        parse_polygon(s, pos) == Ok::<_, FormatError>((p, pos + enc_polygon(p).len())),
{
    lemma_enc_vertices_len(p.vertices);
    let w = enc_polygon(p);
    let n = w.len() as int;
    s.lemma_slice_of_slice(pos, pos + n, 0, 4);
    s.lemma_slice_of_slice(pos, pos + n, 4, 8);
    s.lemma_slice_of_slice(pos, pos + n, 8, n);
    assert(w.subrange(0, 4) =~= le32(grass32(p.grass)));
    assert(w.subrange(4, 8) =~= le32(p.vertices.len() as u32));
    assert(w.subrange(8, n) =~= enc_vertices(p.vertices));
    crate::bytes::lemma_u32_round_trip(grass32(p.grass));
    crate::bytes::lemma_u32_round_trip(p.vertices.len() as u32);
    assert((as_i32(u32_of(s.subrange(pos, pos + 4))) > 0) == p.grass);
    assert(as_i32(u32_of(s.subrange(pos + 4, pos + 8))) == p.vertices.len());
    lemma_vertices_round_trip(s, pos + 8, p.vertices);
}

/// Parsing the bytes written for a run of polygons gives the run back.
#[verifier::rlimit(50)]
proof fn lemma_polygons_round_trip(s: Seq<u8>, pos: int, fr: Seq<PolygonV>)
    requires
        0 <= pos,
        pos + enc_polygons(fr).len() <= s.len(),
        forall|i: int| 0 <= i < fr.len() ==> (#[trigger] fr[i]).vertices.len() <= VERTEX_COUNT_MAX,
        s.subrange(pos, pos + enc_polygons(fr).len()) == enc_polygons(fr),
    ensures
        parse_polygons(s, pos, fr.len()) == Ok::<_, FormatError>(
            (fr, pos + enc_polygons(fr).len()),
        ),
    decreases fr.len(),
{
    if fr.len() == 0 {
        assert(fr =~= Seq::<PolygonV>::empty());
    } else {
        let rest = fr.drop_first();
        let e0 = enc_polygon(fr[0]);
        let total = enc_polygons(fr).len() as int;
        s.lemma_slice_of_slice(pos, pos + total, 0, e0.len() as int);
        crate::bytes::lemma_split_at(e0, enc_polygons(rest));
        lemma_polygon_round_trip(s, pos, fr[0]);
        s.lemma_slice_of_slice(pos, pos + total, e0.len() as int, total);
        assert forall|i: int| 0 <= i < rest.len() implies (#[trigger] rest[i]).vertices.len()
            <= VERTEX_COUNT_MAX by {
            assert(rest[i] == fr[i + 1]);
        }
        lemma_polygons_round_trip(s, pos + e0.len(), rest);
        assert(seq![fr[0]] + rest =~= fr);
    }
}

/// Reading back the 28 bytes written for an object gives the same object.
proof fn lemma_object_round_trip(s: Seq<u8>, pos: int, o: Object)
    requires
        0 <= pos,
        pos + OBJECT_BYTES <= s.len(),
        s.subrange(pos, pos + OBJECT_BYTES) == enc_object(o),
    ensures
        parse_object(s, pos) == Ok::<_, FormatError>((o, pos + OBJECT_BYTES)),
{
    let w = enc_object(o);
    let n = OBJECT_BYTES as int;
    s.lemma_slice_of_slice(pos, pos + n, 0, 8);
    s.lemma_slice_of_slice(pos, pos + n, 8, 16);
    s.lemma_slice_of_slice(pos, pos + n, 16, 20);
    s.lemma_slice_of_slice(pos, pos + n, 20, 24);
    s.lemma_slice_of_slice(pos, pos + n, 24, 28);
    assert(w.subrange(0, 8) =~= crate::bytes::le64(o.position.x));
    assert(w.subrange(8, 16) =~= crate::bytes::le64(o.position.y));
    assert(w.subrange(16, 20) =~= le32(object_tag(o.object_type)));
    assert(w.subrange(20, 24) =~= le32(as_u32(o.gravity)));
    assert(w.subrange(24, 28) =~= le32(as_u32(wrap_dec(o.animation))));
    crate::bytes::lemma_u64_round_trip(o.position.x);
    crate::bytes::lemma_u64_round_trip(o.position.y);
    crate::bytes::lemma_u32_round_trip(object_tag(o.object_type));
    crate::bytes::lemma_u32_round_trip(as_u32(o.gravity));
    crate::bytes::lemma_u32_round_trip(as_u32(wrap_dec(o.animation)));
    crate::bytes::lemma_as_i32_of_u32(o.gravity);
    crate::bytes::lemma_as_i32_of_u32(wrap_dec(o.animation));
    assert(wrap_inc(wrap_dec(o.animation)) == o.animation);
}

/// Parsing the bytes written for a run of objects gives the run back.
#[verifier::rlimit(50)]
proof fn lemma_objects_round_trip(s: Seq<u8>, pos: int, fr: Seq<Object>)
    requires
        0 <= pos,
        pos + OBJECT_BYTES * fr.len() <= s.len(),
        s.subrange(pos, pos + OBJECT_BYTES * fr.len()) == enc_objects(fr),
    ensures
        parse_objects(s, pos, fr.len()) == Ok::<_, FormatError>(
            (fr, pos + OBJECT_BYTES * fr.len()),
        ),
    decreases fr.len(),
{
    lemma_enc_objects_len(fr);
    if fr.len() == 0 {
        assert(fr =~= Seq::<Object>::empty());
    } else {
        let rest = fr.drop_first();
        lemma_enc_objects_len(rest);
        let total: int = OBJECT_BYTES * fr.len();
        s.lemma_slice_of_slice(pos, pos + total, 0, OBJECT_BYTES as int);
        assert(enc_objects(fr).subrange(0, OBJECT_BYTES as int) =~= enc_object(fr[0]));
        lemma_object_round_trip(s, pos, fr[0]);
        s.lemma_slice_of_slice(pos, pos + total, OBJECT_BYTES as int, total);
        assert(enc_objects(fr).subrange(OBJECT_BYTES as int, total) =~= enc_objects(rest));
        lemma_objects_round_trip(s, pos + OBJECT_BYTES as int, rest);
        assert(seq![fr[0]] + rest =~= fr);
    }
}

/// Reading back the 54 bytes written for a picture gives the same picture,
/// provided its names fit their slots.
#[verifier::rlimit(50)]
proof fn lemma_picture_round_trip(s: Seq<u8>, pos: int, p: PictureV)
    requires
        0 <= pos,
        pos + PICTURE_BYTES <= s.len(),
        crate::fixed::fits(p.name, PIC_NAME_BYTES as nat),
        crate::fixed::fits(p.texture, PIC_NAME_BYTES as nat),
        crate::fixed::fits(p.mask, PIC_NAME_BYTES as nat),
        s.subrange(pos, pos + PICTURE_BYTES) == enc_picture(p),
    ensures
        parse_picture(s, pos) == Ok::<_, FormatError>((p, pos + PICTURE_BYTES)),
{
    let w = enc_picture(p);
    let n = PICTURE_BYTES as int;
    s.lemma_slice_of_slice(pos, pos + n, 0, 10);
    s.lemma_slice_of_slice(pos, pos + n, 10, 20);
    s.lemma_slice_of_slice(pos, pos + n, 20, 30);
    s.lemma_slice_of_slice(pos, pos + n, 30, 38);
    s.lemma_slice_of_slice(pos, pos + n, 38, 46);
    s.lemma_slice_of_slice(pos, pos + n, 46, 50);
    s.lemma_slice_of_slice(pos, pos + n, 50, 54);
    assert(w.subrange(0, 10) =~= slot_of(p.name, PIC_NAME_BYTES as nat));
    assert(w.subrange(10, 20) =~= slot_of(p.texture, PIC_NAME_BYTES as nat));
    assert(w.subrange(20, 30) =~= slot_of(p.mask, PIC_NAME_BYTES as nat));
    assert(w.subrange(30, 38) =~= crate::bytes::le64(p.position.x));
    assert(w.subrange(38, 46) =~= crate::bytes::le64(p.position.y));
    assert(w.subrange(46, 50) =~= le32(as_u32(p.distance)));
    assert(w.subrange(50, 54) =~= le32(clip_tag(p.clip)));
    crate::fixed::lemma_field_round_trip(p.name, PIC_NAME_BYTES as nat);
    crate::fixed::lemma_field_round_trip(p.texture, PIC_NAME_BYTES as nat);
    crate::fixed::lemma_field_round_trip(p.mask, PIC_NAME_BYTES as nat);
    crate::bytes::lemma_u64_round_trip(p.position.x);
    crate::bytes::lemma_u64_round_trip(p.position.y);
    crate::bytes::lemma_u32_round_trip(as_u32(p.distance));
    crate::bytes::lemma_u32_round_trip(clip_tag(p.clip));
    crate::bytes::lemma_as_i32_of_u32(p.distance);
}

/// Parsing the bytes written for a run of pictures gives the run back.
#[verifier::rlimit(50)]
proof fn lemma_pictures_round_trip(s: Seq<u8>, pos: int, fr: Seq<PictureV>)
    requires
        0 <= pos,
        pos + PICTURE_BYTES * fr.len() <= s.len(),
        forall|i: int| 0 <= i < fr.len() ==> crate::fixed::fits(
            (#[trigger] fr[i]).name,
            PIC_NAME_BYTES as nat,
        ) && crate::fixed::fits(fr[i].texture, PIC_NAME_BYTES as nat) && crate::fixed::fits(
            fr[i].mask,
            PIC_NAME_BYTES as nat,
        ),
        s.subrange(pos, pos + PICTURE_BYTES * fr.len()) == enc_pictures(fr),
    ensures
        parse_pictures(s, pos, fr.len()) == Ok::<_, FormatError>(
            (fr, pos + PICTURE_BYTES * fr.len()),
        ),
    decreases fr.len(),
{
    assert forall|i: int| 0 <= i < fr.len() implies (#[trigger] fr[i]).name.len() <= PIC_NAME_BYTES
        && fr[i].texture.len() <= PIC_NAME_BYTES && fr[i].mask.len() <= PIC_NAME_BYTES by {}
    lemma_enc_pictures_len(fr);
    if fr.len() == 0 {
        assert(fr =~= Seq::<PictureV>::empty());
    } else {
        let rest = fr.drop_first();
        assert forall|i: int| 0 <= i < rest.len() implies crate::fixed::fits(
            (#[trigger] rest[i]).name,
            PIC_NAME_BYTES as nat,
        ) && crate::fixed::fits(rest[i].texture, PIC_NAME_BYTES as nat) && crate::fixed::fits(
            rest[i].mask,
            PIC_NAME_BYTES as nat,
        ) by {
            assert(rest[i] == fr[i + 1]);
        }
        assert forall|i: int| 0 <= i < rest.len() implies (#[trigger] rest[i]).name.len()
            <= PIC_NAME_BYTES && rest[i].texture.len() <= PIC_NAME_BYTES && rest[i].mask.len()
            <= PIC_NAME_BYTES by {}
        lemma_enc_pictures_len(rest);
        let total: int = PICTURE_BYTES * fr.len();
        s.lemma_slice_of_slice(pos, pos + total, 0, PICTURE_BYTES as int);
        assert(enc_pictures(fr).subrange(0, PICTURE_BYTES as int) =~= enc_picture(fr[0]));
        lemma_picture_round_trip(s, pos, fr[0]);
        s.lemma_slice_of_slice(pos, pos + total, PICTURE_BYTES as int, total);
        assert(enc_pictures(fr).subrange(PICTURE_BYTES as int, total) =~= enc_pictures(rest));
        lemma_pictures_round_trip(s, pos + PICTURE_BYTES as int, rest);
        assert(seq![fr[0]] + rest =~= fr);
    }
}

/// The 4 bytes at slot `i` of the encoded times are entry `i`'s time.
proof fn lemma_times_slice(s: Seq<EntryV>, i: int)
    requires
        0 <= i < s.len(),
    ensures
        enc_times(s).subrange(4 * i, 4 * i + 4) == le32(as_u32(s[i].time)),
    decreases i,
{
    lemma_enc_times_len(s);
    let t = s.drop_first();
    lemma_enc_times_len(t);
    if i == 0 {
        assert(enc_times(s).subrange(0, 4) =~= le32(as_u32(s[0].time)));
    } else {
        lemma_times_slice(t, i - 1);
        crate::bytes::lemma_sub_right(le32(as_u32(s[0].time)), enc_times(t), 4 * i, 4 * i + 4);
        assert(t[i - 1] == s[i]);
    }
}

/// The 15 bytes at slot `i` of the encoded first names are entry `i`'s
/// first name slot.
proof fn lemma_names_1_slice(s: Seq<EntryV>, i: int)
    requires
        0 <= i < s.len(),
        forall|k: int| 0 <= k < s.len() ==> (#[trigger] s[k]).name_1.len() <= ENTRY_NAME_BYTES,
    ensures
        enc_names_1(s).subrange(15 * i, 15 * i + 15) == slot_of(s[i].name_1, ENTRY_NAME_BYTES as nat),
    decreases i,
{
    lemma_enc_names_1_len(s);
    let t = s.drop_first();
    assert forall|k: int| 0 <= k < t.len() implies (#[trigger] t[k]).name_1.len()
        <= ENTRY_NAME_BYTES by {
        assert(t[k] == s[k + 1]);
    }
    lemma_enc_names_1_len(t);
    if i == 0 {
        assert(enc_names_1(s).subrange(0, 15) =~= slot_of(s[0].name_1, ENTRY_NAME_BYTES as nat));
    } else {
        lemma_names_1_slice(t, i - 1);
        crate::bytes::lemma_sub_right(
            slot_of(s[0].name_1, ENTRY_NAME_BYTES as nat),
            enc_names_1(t),
            15 * i,
            15 * i + 15,
        );
        assert(t[i - 1] == s[i]);
    }
}

/// The 15 bytes at slot `i` of the encoded second names are entry `i`'s
/// second name slot.
proof fn lemma_names_2_slice(s: Seq<EntryV>, i: int)
    requires
        0 <= i < s.len(),
        forall|k: int| 0 <= k < s.len() ==> (#[trigger] s[k]).name_2.len() <= ENTRY_NAME_BYTES,
    ensures
        enc_names_2(s).subrange(15 * i, 15 * i + 15) == slot_of(s[i].name_2, ENTRY_NAME_BYTES as nat),
    decreases i,
{
    lemma_enc_names_2_len(s);
    let t = s.drop_first();
    assert forall|k: int| 0 <= k < t.len() implies (#[trigger] t[k]).name_2.len()
        <= ENTRY_NAME_BYTES by {
        assert(t[k] == s[k + 1]);
    }
    lemma_enc_names_2_len(t);
    if i == 0 {
        assert(enc_names_2(s).subrange(0, 15) =~= slot_of(s[0].name_2, ENTRY_NAME_BYTES as nat));
    } else {
        lemma_names_2_slice(t, i - 1);
        crate::bytes::lemma_sub_right(
            slot_of(s[0].name_2, ENTRY_NAME_BYTES as nat),
            enc_names_2(t),
            15 * i,
            15 * i + 15,
        );
        assert(t[i - 1] == s[i]);
    }
}

/// Reading back slot `i` of an encoded leaderboard sub-block gives entry
/// `i`; on the single-player side an entry's second name must already be
/// empty, since that side stores none.
#[verifier::rlimit(50)]
proof fn lemma_list_entry(s: Seq<EntryV>, multi: bool, i: int)
    requires
        s.len() <= TOP10_CAP,
        0 <= i < s.len(),
        forall|k: int| 0 <= k < s.len() ==> crate::fixed::fits(
            (#[trigger] s[k]).name_1,
            ENTRY_NAME_BYTES as nat,
        ),
        multi ==> forall|k: int| 0 <= k < s.len() ==> crate::fixed::fits(
            (#[trigger] s[k]).name_2,
            ENTRY_NAME_BYTES as nat,
        ),
        !multi ==> s[i].name_2 == Seq::<u8>::empty(),
    ensures
        entry_at(enc_list(s, multi), multi, i) == s[i],
{
    let n = s.len() as int;
    assert forall|k: int| 0 <= k < s.len() implies (#[trigger] s[k]).name_1.len()
        <= ENTRY_NAME_BYTES by {}
    lemma_enc_times_len(s);
    lemma_enc_names_1_len(s);
    let a1 = le32(n as u32);
    let a2 = a1 + enc_times(s);
    let a3 = a2 + zeros((40 - 4 * s.len()) as nat);
    let a4 = a3 + enc_names_1(s);
    let a5 = a4 + zeros((150 - 15 * s.len()) as nat);
    let n2seg = if multi {
        enc_names_2(s)
    } else {
        Seq::<u8>::empty()
    };
    let a6 = a5 + n2seg;
    let z3 = zeros((if multi {
        150 - 15 * s.len()
    } else {
        150int
    }) as nat);
    let block = enc_list(s, multi);
    assert(block == a6 + z3);
    if multi {
        assert forall|k: int| 0 <= k < s.len() implies (#[trigger] s[k]).name_2.len()
            <= ENTRY_NAME_BYTES by {}
        lemma_enc_names_2_len(s);
    }
    // the time
    crate::bytes::lemma_sub_left(a6, z3, 4 + 4 * i, 8 + 4 * i);
    crate::bytes::lemma_sub_left(a5, n2seg, 4 + 4 * i, 8 + 4 * i);
    crate::bytes::lemma_sub_left(a4, zeros((150 - 15 * s.len()) as nat), 4 + 4 * i, 8 + 4 * i);
    crate::bytes::lemma_sub_left(a3, enc_names_1(s), 4 + 4 * i, 8 + 4 * i);
    crate::bytes::lemma_sub_left(a2, zeros((40 - 4 * s.len()) as nat), 4 + 4 * i, 8 + 4 * i);
    crate::bytes::lemma_sub_right(a1, enc_times(s), 4 + 4 * i, 8 + 4 * i);
    lemma_times_slice(s, i);
    assert(block.subrange(4 + 4 * i, 8 + 4 * i) == le32(as_u32(s[i].time)));
    crate::bytes::lemma_u32_round_trip(as_u32(s[i].time));
    crate::bytes::lemma_as_i32_of_u32(s[i].time);
    // the first name
    crate::bytes::lemma_sub_left(a6, z3, 44 + 15 * i, 59 + 15 * i);
    crate::bytes::lemma_sub_left(a5, n2seg, 44 + 15 * i, 59 + 15 * i);
    crate::bytes::lemma_sub_left(a4, zeros((150 - 15 * s.len()) as nat), 44 + 15 * i, 59 + 15 * i);
    crate::bytes::lemma_sub_right(a3, enc_names_1(s), 44 + 15 * i, 59 + 15 * i);
    lemma_names_1_slice(s, i);
    assert(block.subrange(44 + 15 * i, 59 + 15 * i) == slot_of(s[i].name_1, ENTRY_NAME_BYTES as nat));
    crate::fixed::lemma_field_round_trip(s[i].name_1, ENTRY_NAME_BYTES as nat);
    // the second name
    if multi {
        crate::bytes::lemma_sub_left(a6, z3, 194 + 15 * i, 209 + 15 * i);
        crate::bytes::lemma_sub_right(a5, n2seg, 194 + 15 * i, 209 + 15 * i);
        lemma_names_2_slice(s, i);
        assert(block.subrange(194 + 15 * i, 209 + 15 * i) == slot_of(
            s[i].name_2,
            ENTRY_NAME_BYTES as nat,
        ));
        crate::fixed::lemma_field_round_trip(s[i].name_2, ENTRY_NAME_BYTES as nat);
    }
    assert(entry_at(block, multi, i) == s[i]);
}

/// A level that both directions carry faithfully: every capacity bound of
/// the wire layout holds, every stored string is free of interior zero
/// bytes, and single-player entries carry no second name (the single-player
/// sub-block stores none).
pub open spec fn level_valid(l: LevelV) -> bool {
    &&& l.integrity.len() == 4
    &&& crate::fixed::fits(l.name, NAME_BYTES as nat)
    &&& crate::fixed::fits(l.lgr, LGR_BYTES as nat)
    &&& crate::fixed::fits(l.ground, TEXTURE_BYTES as nat)
    &&& crate::fixed::fits(l.sky, TEXTURE_BYTES as nat)
    &&& l.polygons.len() <= LEV_COUNT_MAX
    &&& forall|i: int| 0 <= i < l.polygons.len() ==> (#[trigger] l.polygons[i]).vertices.len()
        <= VERTEX_COUNT_MAX
    &&& l.objects.len() <= LEV_COUNT_MAX
    &&& l.pictures.len() <= LEV_COUNT_MAX
    &&& forall|i: int| 0 <= i < l.pictures.len() ==> crate::fixed::fits(
        (#[trigger] l.pictures[i]).name,
        PIC_NAME_BYTES as nat,
    ) && crate::fixed::fits(l.pictures[i].texture, PIC_NAME_BYTES as nat) && crate::fixed::fits(
        l.pictures[i].mask,
        PIC_NAME_BYTES as nat,
    )
    &&& l.top10_single.len() <= TOP10_CAP
    &&& l.top10_multi.len() <= TOP10_CAP
    &&& forall|i: int| 0 <= i < l.top10_single.len() ==> crate::fixed::fits(
        (#[trigger] l.top10_single[i]).name_1,
        ENTRY_NAME_BYTES as nat,
    ) && l.top10_single[i].name_2 == Seq::<u8>::empty()
    &&& forall|i: int| 0 <= i < l.top10_multi.len() ==> crate::fixed::fits(
        (#[trigger] l.top10_multi[i]).name_1,
        ENTRY_NAME_BYTES as nat,
    ) && crate::fixed::fits(l.top10_multi[i].name_2, ENTRY_NAME_BYTES as nat)
}

/// A valid level has no encode error.
proof fn lemma_valid_encodes(l: LevelV)
    requires
        level_valid(l),
    ensures
        level_encode_err(l) is None,
{
    if some_vertices_over(l.polygons) {
        let i = choose|i: int|
            0 <= i < l.polygons.len() && #[trigger] l.polygons[i].vertices.len() > VERTEX_COUNT_MAX;
        assert(l.polygons[i].vertices.len() <= VERTEX_COUNT_MAX);
    }
    if some_pic_name_long(l.pictures) {
        let i = choose|i: int|
            0 <= i < l.pictures.len() && #[trigger] l.pictures[i].name.len() >= PIC_NAME_BYTES;
        assert(crate::fixed::fits(l.pictures[i].name, PIC_NAME_BYTES as nat));
    }
    if some_pic_texture_long(l.pictures) {
        let i = choose|i: int|
            0 <= i < l.pictures.len() && #[trigger] l.pictures[i].texture.len() >= PIC_NAME_BYTES;
        assert(crate::fixed::fits(l.pictures[i].texture, PIC_NAME_BYTES as nat));
    }
    if some_pic_mask_long(l.pictures) {
        let i = choose|i: int|
            0 <= i < l.pictures.len() && #[trigger] l.pictures[i].mask.len() >= PIC_NAME_BYTES;
        assert(crate::fixed::fits(l.pictures[i].mask, PIC_NAME_BYTES as nat));
    }
    if some_name_1_long(l.top10_single) {
        let i = choose|i: int|
            0 <= i < l.top10_single.len() && #[trigger] l.top10_single[i].name_1.len()
                >= ENTRY_NAME_BYTES;
        assert(crate::fixed::fits(l.top10_single[i].name_1, ENTRY_NAME_BYTES as nat));
    }
    if some_name_1_long(l.top10_multi) {
        let i = choose|i: int|
            0 <= i < l.top10_multi.len() && #[trigger] l.top10_multi[i].name_1.len()
                >= ENTRY_NAME_BYTES;
        assert(crate::fixed::fits(l.top10_multi[i].name_1, ENTRY_NAME_BYTES as nat));
    }
    if some_name_2_long(l.top10_multi) {
        let i = choose|i: int|
            0 <= i < l.top10_multi.len() && #[trigger] l.top10_multi[i].name_2.len()
                >= ENTRY_NAME_BYTES;
        assert(crate::fixed::fits(l.top10_multi[i].name_2, ENTRY_NAME_BYTES as nat));
    }
}

/// Carve the bytes of an encoded valid level back into its segments.
#[verifier::rlimit(100)]
proof fn lemma_level_layout(l: LevelV)
    requires
        level_valid(l),
    ensures
        ({
            let s = enc_level_bytes(l);
            let pb = enc_polygons(l.polygons).len() as int;
            let p1 = POLY_OFFSET + pb;
            let p2 = p1 + 8 + OBJECT_BYTES * l.objects.len();
            let p3 = p2 + 8 + PICTURE_BYTES * l.pictures.len();
            &&& s.len() == p3 + 4 + TOP10_BYTES + 4
            &&& s.subrange(0, POLY_OFFSET as int) == header_bytes(l)
            &&& s.subrange(POLY_OFFSET as int, p1) == enc_polygons(l.polygons)
            &&& s.subrange(p1, p1 + 8) == le64(
                bits_of_count(
                    l.objects.len() as u16,
                    COUNT_BIAS_MANTISSA,
                    COUNT_BIAS_SCALE as nat,
                ),
            )
            &&& s.subrange(p1 + 8, p2) == enc_objects(l.objects)
            &&& s.subrange(p2, p2 + 8) == le64(
                bits_of_count(
                    l.pictures.len() as u16,
                    PICTURE_BIAS_MANTISSA,
                    PICTURE_BIAS_SCALE as nat,
                ),
            )
            &&& s.subrange(p2 + 8, p3) == enc_pictures(l.pictures)
            &&& s.subrange(p3, p3 + 4) == le32(EOD)
            &&& s.subrange(p3 + 4, p3 + 4 + TOP10_BYTES) == crypt_seq(enc_top10_plain(l))
            &&& s.subrange(p3 + 4 + TOP10_BYTES, p3 + 8 + TOP10_BYTES) == le32(EOF)
        }),
{
    reveal(enc_level_bytes);
    let s = enc_level_bytes(l);
    assert forall|i: int| 0 <= i < l.pictures.len() implies (#[trigger] l.pictures[i]).name.len()
        <= PIC_NAME_BYTES && l.pictures[i].texture.len() <= PIC_NAME_BYTES
        && l.pictures[i].mask.len() <= PIC_NAME_BYTES by {}
    assert forall|i: int| 0 <= i < l.top10_single.len() implies (
    #[trigger] l.top10_single[i]).name_1.len() <= ENTRY_NAME_BYTES by {}
    assert forall|i: int| 0 <= i < l.top10_multi.len() implies (
    #[trigger] l.top10_multi[i]).name_1.len() <= ENTRY_NAME_BYTES && l.top10_multi[i].name_2.len()
        <= ENTRY_NAME_BYTES by {}
    lemma_enc_objects_len(l.objects);
    lemma_enc_pictures_len(l.pictures);
    lemma_enc_list_len(l.top10_single, false);
    lemma_enc_list_len(l.top10_multi, true);
    let s1 = enc_version(l.version);
    let s2 = seq![0u8, 0u8];
    let s3 = le32(as_u32(l.link));
    let s4 = enc_integrity(l.integrity);
    let s5 = slot_of(l.name, NAME_BYTES as nat);
    let s6 = slot_of(l.lgr, LGR_BYTES as nat);
    let s7 = slot_of(l.ground, TEXTURE_BYTES as nat);
    let s8 = slot_of(l.sky, TEXTURE_BYTES as nat);
    let s9 = le64(
        bits_of_count(l.polygons.len() as u16, COUNT_BIAS_MANTISSA, COUNT_BIAS_SCALE as nat),
    );
    let s10 = enc_polygons(l.polygons);
    let s11 = le64(
        bits_of_count(l.objects.len() as u16, COUNT_BIAS_MANTISSA, COUNT_BIAS_SCALE as nat),
    );
    let s12 = enc_objects(l.objects);
    let s13 = le64(
        bits_of_count(l.pictures.len() as u16, PICTURE_BIAS_MANTISSA, PICTURE_BIAS_SCALE as nat),
    );
    let s14 = enc_pictures(l.pictures);
    let s15 = le32(EOD);
    let s16 = crypt_seq(enc_top10_plain(l));
    let s17 = le32(EOF);
    let c1 = s1;
    let c2 = c1 + s2;
    let c3 = c2 + s3;
    let c4 = c3 + s4;
    let c5 = c4 + s5;
    let c6 = c5 + s6;
    let c7 = c6 + s7;
    let c8 = c7 + s8;
    let c9 = c8 + s9;
    let c10 = c9 + s10;
    let c11 = c10 + s11;
    let c12 = c11 + s12;
    let c13 = c12 + s13;
    let c14 = c13 + s14;
    let c15 = c14 + s15;
    let c16 = c15 + s16;
    assert(s == c16 + s17);
    assert(s.subrange(0, s.len() as int) =~= s);
    // peel the tail segments off, from the outside in
    crate::bytes::lemma_peel(s, c16, s17);
    crate::bytes::lemma_peel(s, c15, s16);
    crate::bytes::lemma_peel(s, c14, s15);
    crate::bytes::lemma_peel(s, c13, s14);
    crate::bytes::lemma_peel(s, c12, s13);
    crate::bytes::lemma_peel(s, c11, s12);
    crate::bytes::lemma_peel(s, c10, s11);
    crate::bytes::lemma_peel(s, c9, s10);
}

/// The first 138 bytes of a level: everything before the polygon records.
pub open spec fn header_bytes(l: LevelV) -> Seq<u8> {
    enc_version(l.version) + seq![0u8, 0u8] + le32(as_u32(l.link)) + enc_integrity(l.integrity)
        + slot_of(l.name, NAME_BYTES as nat) + slot_of(l.lgr, LGR_BYTES as nat) + slot_of(
        l.ground,
        TEXTURE_BYTES as nat,
    ) + slot_of(l.sky, TEXTURE_BYTES as nat) + le64(
        bits_of_count(l.polygons.len() as u16, COUNT_BIAS_MANTISSA, COUNT_BIAS_SCALE as nat),
    )
}

/// Carve the header prefix of an encoded valid level into its fields.
proof fn lemma_header_layout(s: Seq<u8>, l: LevelV)
    requires
        level_valid(l),
        POLY_OFFSET <= s.len(),
        s.subrange(0, POLY_OFFSET as int) == header_bytes(l),
    ensures
        s.subrange(0, 5) == enc_version(l.version),
        s.subrange(LINK_OFFSET as int, LINK_OFFSET + 4) == le32(as_u32(l.link)),
        s.subrange(INTEGRITY_OFFSET as int, INTEGRITY_OFFSET + 32) == enc_integrity(l.integrity),
        s.subrange(NAME_OFFSET as int, NAME_OFFSET + NAME_BYTES) == slot_of(
            l.name,
            NAME_BYTES as nat,
        ),
        s.subrange(LGR_OFFSET as int, LGR_OFFSET + LGR_BYTES) == slot_of(l.lgr, LGR_BYTES as nat),
        s.subrange(GROUND_OFFSET as int, GROUND_OFFSET + TEXTURE_BYTES) == slot_of(
            l.ground,
            TEXTURE_BYTES as nat,
        ),
        s.subrange(SKY_OFFSET as int, SKY_OFFSET + TEXTURE_BYTES) == slot_of(
            l.sky,
            TEXTURE_BYTES as nat,
        ),
        s.subrange(POLY_COUNT_OFFSET as int, POLY_COUNT_OFFSET + 8) == le64(
            bits_of_count(l.polygons.len() as u16, COUNT_BIAS_MANTISSA, COUNT_BIAS_SCALE as nat),
        ),
{
    let s1 = enc_version(l.version);
    let s2 = seq![0u8, 0u8];
    let s3 = le32(as_u32(l.link));
    let s4 = enc_integrity(l.integrity);
    let s5 = slot_of(l.name, NAME_BYTES as nat);
    let s6 = slot_of(l.lgr, LGR_BYTES as nat);
    let s7 = slot_of(l.ground, TEXTURE_BYTES as nat);
    let s8 = slot_of(l.sky, TEXTURE_BYTES as nat);
    let s9 = le64(
        bits_of_count(l.polygons.len() as u16, COUNT_BIAS_MANTISSA, COUNT_BIAS_SCALE as nat),
    );
    let c1 = s1;
    let c2 = c1 + s2;
    let c3 = c2 + s3;
    let c4 = c3 + s4;
    let c5 = c4 + s5;
    let c6 = c5 + s6;
    let c7 = c6 + s7;
    let c8 = c7 + s8;
    assert(s.subrange(0, POLY_OFFSET as int) == c8 + s9);
    crate::bytes::lemma_peel(s, c8, s9);
    crate::bytes::lemma_peel(s, c7, s8);
    crate::bytes::lemma_peel(s, c6, s7);
    crate::bytes::lemma_peel(s, c5, s6);
    crate::bytes::lemma_peel(s, c4, s5);
    crate::bytes::lemma_peel(s, c3, s4);
    crate::bytes::lemma_peel(s, c2, s3);
    crate::bytes::lemma_peel(s, c1, s2);
}

/// Decoding an encoded level gives the level back, for every valid level.
///
/// Excluded inputs, forced by the wire layout itself: a string with an
/// interior zero byte cannot be stored (a read stops at the first zero),
/// and a single-player entry's second name is not stored at all, so only
/// an empty one survives the trip.
#[verifier::rlimit(100)]
pub proof fn lemma_level_round_trip(l: LevelV)
    requires
        level_valid(l),
    ensures
        spec_encode_level(l) is Ok,
        spec_decode_level(spec_encode_level(l)->Ok_0) == Ok::<LevelV, FormatError>(l),
{
    lemma_valid_encodes(l);
    lemma_level_layout(l);
    let s = enc_level_bytes(l);
    let pb = enc_polygons(l.polygons).len() as int;
    let p1 = POLY_OFFSET + pb;
    let p2 = p1 + 8 + OBJECT_BYTES * l.objects.len();
    let p3 = p2 + 8 + PICTURE_BYTES * l.pictures.len();
    lemma_front_semantics(s, l, p1, p2, p3);
    lemma_tail_round_trip(l, s, p3);
    lemma_decode_front(s, l, p1, p2, p3);
}

/// The front segments of a level's wire bytes read back to its fields: the
/// header values, the three biased counts, and the three record runs.
#[verifier::rlimit(100)]
proof fn lemma_front_semantics(s: Seq<u8>, l: LevelV, p1: int, p2: int, p3: int)
    requires
        level_valid(l),
        p1 == POLY_OFFSET + enc_polygons(l.polygons).len(),
        p2 == p1 + 8 + OBJECT_BYTES * l.objects.len(),
        p3 == p2 + 8 + PICTURE_BYTES * l.pictures.len(),
        p3 + 4 <= s.len(),
        s.subrange(0, POLY_OFFSET as int) == header_bytes(l),
        s.subrange(POLY_OFFSET as int, p1) == enc_polygons(l.polygons),
        s.subrange(p1, p1 + 8) == le64(
            bits_of_count(l.objects.len() as u16, COUNT_BIAS_MANTISSA, COUNT_BIAS_SCALE as nat),
        ),
        s.subrange(p1 + 8, p2) == enc_objects(l.objects),
        s.subrange(p2, p2 + 8) == le64(
            bits_of_count(
                l.pictures.len() as u16,
                PICTURE_BIAS_MANTISSA,
                PICTURE_BIAS_SCALE as nat,
            ),
        ),
        s.subrange(p2 + 8, p3) == enc_pictures(l.pictures),
    ensures
        s.subrange(0, 5) == enc_version(l.version),
        as_i32(u32_of(s.subrange(LINK_OFFSET as int, LINK_OFFSET + 4))) == l.link,
        Seq::new(
            4,
            |i: int| u64_of(s.subrange(INTEGRITY_OFFSET + 8 * i, INTEGRITY_OFFSET + 8 * i + 8)),
        ) == l.integrity,
        text_of(s.subrange(NAME_OFFSET as int, NAME_OFFSET + NAME_BYTES)) == l.name,
        text_of(s.subrange(LGR_OFFSET as int, LGR_OFFSET + LGR_BYTES)) == l.lgr,
        text_of(s.subrange(GROUND_OFFSET as int, GROUND_OFFSET + TEXTURE_BYTES)) == l.ground,
        text_of(s.subrange(SKY_OFFSET as int, SKY_OFFSET + TEXTURE_BYTES)) == l.sky,
        count_of_bits(
            u64_of(s.subrange(POLY_COUNT_OFFSET as int, POLY_COUNT_OFFSET + 8)),
            COUNT_BIAS_MANTISSA,
            COUNT_BIAS_SCALE as nat,
        ) == Some(l.polygons.len() as u16),
        parse_polygons(s, POLY_OFFSET as int, l.polygons.len()) == Ok::<_, FormatError>(
            (l.polygons, p1),
        ),
        count_of_bits(
            u64_of(s.subrange(p1, p1 + 8)),
            COUNT_BIAS_MANTISSA,
            COUNT_BIAS_SCALE as nat,
        ) == Some(l.objects.len() as u16),
        parse_objects(s, p1 + 8, l.objects.len()) == Ok::<_, FormatError>((l.objects, p2)),
        count_of_bits(
            u64_of(s.subrange(p2, p2 + 8)),
            PICTURE_BIAS_MANTISSA,
            PICTURE_BIAS_SCALE as nat,
        ) == Some(l.pictures.len() as u16),
        parse_pictures(s, p2 + 8, l.pictures.len()) == Ok::<_, FormatError>((l.pictures, p3)),
{
    lemma_biases_ok();
    lemma_header_layout(s, l);
    // the header fields
    crate::bytes::lemma_u32_round_trip(as_u32(l.link));
    crate::bytes::lemma_as_i32_of_u32(l.link);
    assert(Seq::new(
        4,
        |i: int| u64_of(s.subrange(INTEGRITY_OFFSET + 8 * i, INTEGRITY_OFFSET + 8 * i + 8)),
    ) =~= l.integrity) by {
        let w = s.subrange(INTEGRITY_OFFSET as int, INTEGRITY_OFFSET + 32);
        s.lemma_slice_of_slice(INTEGRITY_OFFSET as int, INTEGRITY_OFFSET + 32, 0, 8);
        s.lemma_slice_of_slice(INTEGRITY_OFFSET as int, INTEGRITY_OFFSET + 32, 8, 16);
        s.lemma_slice_of_slice(INTEGRITY_OFFSET as int, INTEGRITY_OFFSET + 32, 16, 24);
        s.lemma_slice_of_slice(INTEGRITY_OFFSET as int, INTEGRITY_OFFSET + 32, 24, 32);
        assert(w.subrange(0, 8) =~= le64(l.integrity[0]));
        assert(w.subrange(8, 16) =~= le64(l.integrity[1]));
        assert(w.subrange(16, 24) =~= le64(l.integrity[2]));
        assert(w.subrange(24, 32) =~= le64(l.integrity[3]));
        crate::bytes::lemma_u64_round_trip(l.integrity[0]);
        crate::bytes::lemma_u64_round_trip(l.integrity[1]);
        crate::bytes::lemma_u64_round_trip(l.integrity[2]);
        crate::bytes::lemma_u64_round_trip(l.integrity[3]);
    }
    crate::fixed::lemma_field_round_trip(l.name, NAME_BYTES as nat);
    crate::fixed::lemma_field_round_trip(l.lgr, LGR_BYTES as nat);
    crate::fixed::lemma_field_round_trip(l.ground, TEXTURE_BYTES as nat);
    crate::fixed::lemma_field_round_trip(l.sky, TEXTURE_BYTES as nat);
    // the three biased counts round-trip
    crate::count::lemma_count_round_trip(
        l.polygons.len() as u16,
        COUNT_BIAS_MANTISSA,
        COUNT_BIAS_SCALE as nat,
    );
    crate::count::lemma_count_round_trip(
        l.objects.len() as u16,
        COUNT_BIAS_MANTISSA,
        COUNT_BIAS_SCALE as nat,
    );
    crate::count::lemma_count_round_trip(
        l.pictures.len() as u16,
        PICTURE_BIAS_MANTISSA,
        PICTURE_BIAS_SCALE as nat,
    );
    crate::bytes::lemma_u64_round_trip(
        bits_of_count(l.polygons.len() as u16, COUNT_BIAS_MANTISSA, COUNT_BIAS_SCALE as nat),
    );
    crate::bytes::lemma_u64_round_trip(
        bits_of_count(l.objects.len() as u16, COUNT_BIAS_MANTISSA, COUNT_BIAS_SCALE as nat),
    );
    crate::bytes::lemma_u64_round_trip(
        bits_of_count(l.pictures.len() as u16, PICTURE_BIAS_MANTISSA, PICTURE_BIAS_SCALE as nat),
    );
    // the three sections round-trip
    lemma_polygons_round_trip(s, POLY_OFFSET as int, l.polygons);
    lemma_objects_round_trip(s, p1 + 8, l.objects);
    lemma_pictures_round_trip(s, p2 + 8, l.pictures);
}

/// With every section's bytes known to read back its part of the level,
/// the whole decode reads back the level.
#[verifier::rlimit(50)]
proof fn lemma_decode_front(s: Seq<u8>, l: LevelV, p1: int, p2: int, p3: int)
    requires
        s.len() >= POLY_OFFSET,
        s.subrange(0, 5) == enc_version(l.version),
        as_i32(u32_of(s.subrange(LINK_OFFSET as int, LINK_OFFSET + 4))) == l.link,
        Seq::new(
            4,
            |i: int| u64_of(s.subrange(INTEGRITY_OFFSET + 8 * i, INTEGRITY_OFFSET + 8 * i + 8)),
        ) == l.integrity,
        text_of(s.subrange(NAME_OFFSET as int, NAME_OFFSET + NAME_BYTES)) == l.name,
        text_of(s.subrange(LGR_OFFSET as int, LGR_OFFSET + LGR_BYTES)) == l.lgr,
        text_of(s.subrange(GROUND_OFFSET as int, GROUND_OFFSET + TEXTURE_BYTES)) == l.ground,
        text_of(s.subrange(SKY_OFFSET as int, SKY_OFFSET + TEXTURE_BYTES)) == l.sky,
        l.polygons.len() <= LEV_COUNT_MAX,
        l.objects.len() <= LEV_COUNT_MAX,
        l.pictures.len() <= LEV_COUNT_MAX,
        count_of_bits(
            u64_of(s.subrange(POLY_COUNT_OFFSET as int, POLY_COUNT_OFFSET + 8)),
            COUNT_BIAS_MANTISSA,
            COUNT_BIAS_SCALE as nat,
        ) == Some(l.polygons.len() as u16),
        parse_polygons(s, POLY_OFFSET as int, l.polygons.len()) == Ok::<_, FormatError>(
            (l.polygons, p1),
        ),
        p1 + 8 <= s.len(),
        count_of_bits(
            u64_of(s.subrange(p1, p1 + 8)),
            COUNT_BIAS_MANTISSA,
            COUNT_BIAS_SCALE as nat,
        ) == Some(l.objects.len() as u16),
        parse_objects(s, p1 + 8, l.objects.len()) == Ok::<_, FormatError>((l.objects, p2)),
        p2 + 8 <= s.len(),
        count_of_bits(
            u64_of(s.subrange(p2, p2 + 8)),
            PICTURE_BIAS_MANTISSA,
            PICTURE_BIAS_SCALE as nat,
        ) == Some(l.pictures.len() as u16),
        parse_pictures(s, p2 + 8, l.pictures.len()) == Ok::<_, FormatError>((l.pictures, p3)),
    ensures
        spec_decode_level(s) == spec_decode_tail(
            s,
            p3,
            LevelV { top10_single: Seq::empty(), top10_multi: Seq::empty(), ..l },
        ),
{
    assert(sig_elma() != sig_across()) by {
        assert(sig_elma()[3] == 49u8);
        assert(sig_across()[3] == 48u8);
    }
    assert((l.polygons.len() as u16) as nat == l.polygons.len());
    assert((l.objects.len() as u16) as nat == l.objects.len());
    assert((l.pictures.len() as u16) as nat == l.pictures.len());
    assert(spec_decode_level(s) == spec_decode_tail(
        s,
        p3,
        LevelV { top10_single: Seq::empty(), top10_multi: Seq::empty(), ..l },
    ));
}

/// A buffer whose four bytes at the end-of-data offset hold anything but
/// the end-of-data sentinel decodes to no level: stated for any valid
/// level's encoding with exactly that word replaced, the decode is rejected
/// with `SentinelMismatch` naming the offset and both values.
#[verifier::rlimit(100)]
pub proof fn lemma_eod_corruption_rejected(l: LevelV, bad: u32)
    requires
        level_valid(l),
        bad != EOD,
    ensures
        ({
            let e = enc_level_bytes(l);
            let p3 = POLY_OFFSET + enc_polygons(l.polygons).len() + 8 + OBJECT_BYTES
                * l.objects.len() + 8 + PICTURE_BYTES * l.pictures.len();
            let s = e.subrange(0, p3 as int) + le32(bad) + e.subrange(p3 + 4, e.len() as int);
            spec_decode_level(s) == Err::<LevelV, FormatError>(
                FormatError::SentinelMismatch { expected: EOD, found: bad, offset: p3 as usize },
            )
        }),
{
    lemma_level_layout(l);
    let e = enc_level_bytes(l);
    let pb = enc_polygons(l.polygons).len() as int;
    let p1 = POLY_OFFSET + pb;
    let p2 = p1 + 8 + OBJECT_BYTES * l.objects.len();
    let p3 = p2 + 8 + PICTURE_BYTES * l.pictures.len();
    let a = e.subrange(0, p3);
    let b = e.subrange(p3 + 4, e.len() as int);
    let s = a + le32(bad) + b;
    assert(s.len() == e.len());
    // everything before the sentinel is unchanged
    crate::bytes::lemma_sub_left(a + le32(bad), b, 0, POLY_OFFSET as int);
    crate::bytes::lemma_sub_left(a, le32(bad), 0, POLY_OFFSET as int);
    e.lemma_slice_of_slice(0, p3, 0, POLY_OFFSET as int);
    crate::bytes::lemma_sub_left(a + le32(bad), b, POLY_OFFSET as int, p1);
    crate::bytes::lemma_sub_left(a, le32(bad), POLY_OFFSET as int, p1);
    e.lemma_slice_of_slice(0, p3, POLY_OFFSET as int, p1);
    crate::bytes::lemma_sub_left(a + le32(bad), b, p1, p1 + 8);
    crate::bytes::lemma_sub_left(a, le32(bad), p1, p1 + 8);
    e.lemma_slice_of_slice(0, p3, p1, p1 + 8);
    crate::bytes::lemma_sub_left(a + le32(bad), b, p1 + 8, p2);
    crate::bytes::lemma_sub_left(a, le32(bad), p1 + 8, p2);
    e.lemma_slice_of_slice(0, p3, p1 + 8, p2);
    crate::bytes::lemma_sub_left(a + le32(bad), b, p2, p2 + 8);
    crate::bytes::lemma_sub_left(a, le32(bad), p2, p2 + 8);
    e.lemma_slice_of_slice(0, p3, p2, p2 + 8);
    crate::bytes::lemma_sub_left(a + le32(bad), b, p2 + 8, p3);
    crate::bytes::lemma_sub_left(a, le32(bad), p2 + 8, p3);
    e.lemma_slice_of_slice(0, p3, p2 + 8, p3);
    lemma_front_semantics(s, l, p1, p2, p3);
    // the replaced word is read where the sentinel belongs
    crate::bytes::lemma_sub_left(a + le32(bad), b, p3, p3 + 4);
    crate::bytes::lemma_sub_right(a, le32(bad), p3, p3 + 4);
    assert(le32(bad).subrange(0, 4) =~= le32(bad));
    crate::bytes::lemma_u32_round_trip(bad);
    lemma_eod_sentinel_rejected(
        s,
        p3,
        LevelV { top10_single: Seq::empty(), top10_multi: Seq::empty(), ..l },
    );
    lemma_decode_front(s, l, p1, p2, p3);
}

/// The tail of the decode — end-of-data sentinel, leaderboard block,
/// end-of-file sentinel — reads back the level's two entry lists.
#[verifier::rlimit(50)]
proof fn lemma_tail_round_trip(l: LevelV, s: Seq<u8>, p3: int)
    requires
        level_valid(l),
        0 <= p3,
        s.len() == p3 + 4 + TOP10_BYTES + 4,
        s.subrange(p3, p3 + 4) == le32(EOD),
        s.subrange(p3 + 4, p3 + 4 + TOP10_BYTES) == crypt_seq(enc_top10_plain(l)),
        s.subrange(p3 + 4 + TOP10_BYTES, p3 + 8 + TOP10_BYTES) == le32(EOF),
    ensures
        spec_decode_tail(
            s,
            p3,
            LevelV { top10_single: Seq::empty(), top10_multi: Seq::empty(), ..l },
        ) == Ok::<LevelV, FormatError>(l),
{
    crate::bytes::lemma_u32_round_trip(EOD);
    crate::bytes::lemma_u32_round_trip(EOF);
    let plain = enc_top10_plain(l);
    crate::crypt::lemma_crypt_involutive(plain);
    assert(crypt_seq(s.subrange(p3 + 4, p3 + 4 + TOP10_BYTES)) == plain);
    lemma_top10_round_trip(l);
    let partial = LevelV { top10_single: Seq::empty(), top10_multi: Seq::empty(), ..l };
    let d = spec_decode_tail(s, p3, partial);
    assert(d is Ok);
    assert(d->Ok_0 == l);
}

/// The plain leaderboard block reads back to its two entry lists: the two
/// sub-blocks split off whole, their count words hold the entry counts, and
/// every entry slot reads back to its entry.
#[verifier::rlimit(50)]
proof fn lemma_top10_round_trip(l: LevelV)
    requires
        level_valid(l),
    ensures
        ({
            let plain = enc_top10_plain(l);
            let single_block = plain.subrange(0, LIST_BYTES as int);
            let multi_block = plain.subrange(LIST_BYTES as int, TOP10_BYTES as int);
            &&& plain.len() == TOP10_BYTES
            &&& as_i32(u32_of(single_block.subrange(0, 4))) == l.top10_single.len()
            &&& as_i32(u32_of(multi_block.subrange(0, 4))) == l.top10_multi.len()
            &&& entries_of(single_block, false, l.top10_single.len()) == l.top10_single
            &&& entries_of(multi_block, true, l.top10_multi.len()) == l.top10_multi
        }),
{
    let plain = enc_top10_plain(l);
    lemma_enc_list_len(l.top10_single, false);
    lemma_enc_list_len(l.top10_multi, true);
    crate::bytes::lemma_split_at(enc_list(l.top10_single, false), enc_list(l.top10_multi, true));
    let single_block = plain.subrange(0, LIST_BYTES as int);
    let multi_block = plain.subrange(LIST_BYTES as int, TOP10_BYTES as int);
    assert(single_block == enc_list(l.top10_single, false));
    assert(multi_block == enc_list(l.top10_multi, true));
    // the entry counts
    lemma_list_count(l.top10_single, false);
    lemma_list_count(l.top10_multi, true);
    crate::bytes::lemma_u32_round_trip(l.top10_single.len() as u32);
    crate::bytes::lemma_u32_round_trip(l.top10_multi.len() as u32);
    // the entries themselves
    assert(entries_of(single_block, false, l.top10_single.len()) =~= l.top10_single) by {
        assert forall|i: int| 0 <= i < l.top10_single.len() implies entry_at(
            single_block,
            false,
            i,
        ) == l.top10_single[i] by {
            lemma_list_entry(l.top10_single, false, i);
        }
    }
    assert(entries_of(multi_block, true, l.top10_multi.len()) =~= l.top10_multi) by {
        assert forall|i: int| 0 <= i < l.top10_multi.len() implies entry_at(multi_block, true, i)
            == l.top10_multi[i] by {
            lemma_list_entry(l.top10_multi, true, i);
        }
    }
}

/// The first 4 bytes of an encoded sub-block are its entry count.
proof fn lemma_list_count(s: Seq<EntryV>, multi: bool)
    requires
        s.len() <= TOP10_CAP,
        forall|k: int| 0 <= k < s.len() ==> (#[trigger] s[k]).name_1.len() <= ENTRY_NAME_BYTES,
        multi ==> forall|k: int| 0 <= k < s.len() ==> (#[trigger] s[k]).name_2.len()
            <= ENTRY_NAME_BYTES,
    ensures
        enc_list(s, multi).subrange(0, 4) == le32(s.len() as u32),
{
    lemma_enc_times_len(s);
    lemma_enc_names_1_len(s);
    if multi {
        lemma_enc_names_2_len(s);
    }
    let a1 = le32(s.len() as u32);
    let a2 = a1 + enc_times(s);
    let a3 = a2 + zeros((40 - 4 * s.len()) as nat);
    let a4 = a3 + enc_names_1(s);
    let a5 = a4 + zeros((150 - 15 * s.len()) as nat);
    let n2seg = if multi {
        enc_names_2(s)
    } else {
        Seq::<u8>::empty()
    };
    let a6 = a5 + n2seg;
    let z3 = zeros((if multi {
        150 - 15 * s.len()
    } else {
        150int
    }) as nat);
    assert(enc_list(s, multi) == a6 + z3);
    crate::bytes::lemma_sub_left(a6, z3, 0, 4);
    crate::bytes::lemma_sub_left(a5, n2seg, 0, 4);
    crate::bytes::lemma_sub_left(a4, zeros((150 - 15 * s.len()) as nat), 0, 4);
    crate::bytes::lemma_sub_left(a3, enc_names_1(s), 0, 4);
    crate::bytes::lemma_sub_left(a2, zeros((40 - 4 * s.len()) as nat), 0, 4);
    crate::bytes::lemma_sub_left(a1, enc_times(s), 0, 4);
    assert(a1.subrange(0, 4) =~= a1);
}

/// A buffer that does not begin with either version signature decodes to
/// no level: the whole decode is rejected with `UnknownSignature`.
pub proof fn lemma_unknown_signature_rejected(s: Seq<u8>)
    requires
        s.len() < 5 || (s.subrange(0, 5) != sig_elma() && s.subrange(0, 5) != sig_across()),
    ensures
        spec_decode_level(s) == Err::<LevelV, FormatError>(FormatError::UnknownSignature),
{
}

/// Whatever was decoded before it, a buffer whose four bytes at the
/// end-of-data offset are not the end-of-data sentinel is rejected with
/// `SentinelMismatch` naming that offset and both values.
pub proof fn lemma_eod_sentinel_rejected(s: Seq<u8>, p3: int, partial: LevelV)
    requires
        0 <= p3,
        p3 + 4 <= s.len(),
        u32_of(s.subrange(p3, p3 + 4)) != EOD,
    ensures
        spec_decode_tail(s, p3, partial) == Err::<LevelV, FormatError>(
            FormatError::SentinelMismatch {
                expected: EOD,
                found: u32_of(s.subrange(p3, p3 + 4)),
                offset: p3 as usize,
            },
        ),
{
}

} // verus!
