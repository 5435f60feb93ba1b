//! The on-disk records of one segment: the two-byte header, the fixed
//! 24-byte footer (`Info`), and the variable-length property and chunk
//! table entries, each with its parsing specification.

use vstd::prelude::*;

verus! {

use crate::PakError;
use crate::codec::{
    PakStream, parse_string, parse_i32, string_block, i32_be, i32_of, encodable_str,
    write_u8, write_i32, write_string,
};
use crate::string_map::StringMap;

// ---------------------------------------------------------------------------
// Header.
// ---------------------------------------------------------------------------

/// What validating the two magic bytes at `pos` yields.
pub open spec fn parse_header(d: Seq<u8>, pos: int) -> Result<(), PakError> {
    if 0 <= pos && pos + 2 <= d.len() && d[pos] == 2 && d[pos + 1] == 1 {
        Ok(())
    } else {
        Err(PakError::CorruptHeader)
    }
}

/// Reads the two magic bytes at the current position and checks that they
/// are 2 then 1; any other sequence, including end of stream, is a corrupt
/// header.
pub fn read_header(reader: &mut PakStream) -> (res: Result<(), PakError>)
    ensures
        final(reader).data@ == old(reader).data@,
        res == parse_header(old(reader).data@, old(reader).pos as int),
        res is Ok ==> final(reader).pos == old(reader).pos + 2,
{
    let b0: u8 = match reader.read_u8() {
        Ok(b) => b,
        Err(_) => {
            return Err(PakError::CorruptHeader);
        },
    };
    let b1: u8 = match reader.read_u8() {
        Ok(b) => b,
        Err(_) => {
            return Err(PakError::CorruptHeader);
        },
    };
    if b0 == 2 && b1 == 1 {
        Ok(())
    } else {
        Err(PakError::CorruptHeader)
    }
}

/// Writes the two magic bytes.
pub fn write_header(w: &mut Vec<u8>) -> (r: Result<(), PakError>)
    ensures
        r is Ok,
        final(w)@ == old(w)@ + seq![2u8, 1u8],
{
    write_u8(w, 2);
    write_u8(w, 1);
    proof {
        assert(w@ =~= old(w)@ + seq![2u8, 1u8]);
    }
    Ok(())
}

// ---------------------------------------------------------------------------
// Property records.
// ---------------------------------------------------------------------------

/// A key/value pair of a segment's property table.  A property whose key
/// is `link` names the next segment of the archive.
#[derive(Clone, Debug)]
pub struct Property {
    /// Key
    pub key: String,
    /// Value
    pub value: String,
}

/// The mathematical value of a `Property`.
#[verifier::ext_equal]
pub struct PropertyV {
    pub key: Seq<char>,
    pub value: Seq<char>,
}

impl View for Property {
    type V = PropertyV;

    open spec fn view(&self) -> PropertyV {
        PropertyV { key: self.key@, value: self.value@ }
    }
}

/// The on-disk form of one property record.
pub open spec fn property_bytes(p: PropertyV) -> Seq<u8> {
    string_block(p.key) + string_block(p.value)
}

/// What reading one property record at `pos` yields.
pub open spec fn parse_property(d: Seq<u8>, pos: int) -> Result<(PropertyV, int), PakError> {
    match parse_string(d, pos) {
        Err(e) => Err(e),
        Ok((k, p1)) => match parse_string(d, p1) {
            Err(e) => Err(e),
            Ok((v, p2)) => Ok((PropertyV { key: k, value: v }, p2)),
        },
    }
}

/// What reading `count` property records at `pos` yields: the records in
/// order, later records overriding earlier ones with the same key.
pub open spec fn parse_properties(
    d: Seq<u8>,
    pos: int,
    count: int,
    acc: Map<Seq<char>, PropertyV>,
) -> Result<(Map<Seq<char>, PropertyV>, int), PakError>
    decreases count,
{
    if count <= 0 {
        Ok((acc, pos))
    } else {
        match parse_property(d, pos) {
            Err(e) => Err(e),
            Ok((p, p2)) => parse_properties(d, p2, count - 1, acc.insert(p.key, p)),
        }
    }
}

impl Property {
    /// Creates a new `Property`.
    pub fn new(key: String, value: String) -> (r: Property)
        ensures
            r@ == (PropertyV { key: key@, value: value@ }),
    {
        Property { key, value }
    }

    /// Reads one `Property` record at the current position.
    pub fn from(reader: &mut PakStream) -> (r: Result<Property, PakError>)
        ensures
            final(reader).data@ == old(reader).data@,
            match r {
                Ok(p) => parse_property(old(reader).data@, old(reader).pos as int)
                    == Ok::<(PropertyV, int), PakError>((p@, final(reader).pos as int)),
                Err(e) => parse_property(old(reader).data@, old(reader).pos as int)
                    == Err::<(PropertyV, int), PakError>(e),
            },
    {
        let key: String = match reader.read_string() {
            Ok(s) => s,
            Err(e) => {
                return Err(e);
            },
        };
        let value: String = match reader.read_string() {
            Ok(s) => s,
            Err(e) => {
                return Err(e);
            },
        };
        Ok(Property::new(key, value))
    }

    /// Writes the record: two length-prefixed strings.  Fails, leaving the
    /// buffer unchanged, when a string does not fit its length prefix.
    pub fn write(&self, w: &mut Vec<u8>) -> (r: Result<(), PakError>)
        ensures
            match r {
                Ok(()) => encodable_str(self.key@) && encodable_str(self.value@)
                    && final(w)@ == old(w)@ + property_bytes(self@),
                Err(e) => e == PakError::InvalidEncoding
                    && !(encodable_str(self.key@) && encodable_str(self.value@))
                    && final(w)@ == old(w)@,
            },
    {
        let mut tmp: Vec<u8> = Vec::new();
        match write_string(&mut tmp, self.key.as_str()) {
            Ok(()) => {},
            Err(e) => {
                return Err(e);
            },
        }
        match write_string(&mut tmp, self.value.as_str()) {
            Ok(()) => {},
            Err(e) => {
                return Err(e);
            },
        }
        w.append(&mut tmp);
        proof {
            assert(w@ =~= old(w)@ + property_bytes(self@));
        }
        Ok(())
    }

    /// Reads `info.properties_count` records starting at
    /// `info.properties_offset`, keyed by property key, keeping the last
    /// record on a key collision.
    pub fn read(reader: &mut PakStream, info: &Info) -> (r: Result<
        StringMap<Property>,
        PakError,
    >)
        ensures
            final(reader).data@ == old(reader).data@,
            match r {
                Ok(m) => parse_properties(
                    old(reader).data@,
                    info.properties_offset as int,
                    info.properties_count as int,
                    Map::empty(),
                ) matches Ok(pair) && pair.0 == m@,
                Err(e) => parse_properties(
                    old(reader).data@,
                    info.properties_offset as int,
                    info.properties_count as int,
                    Map::empty(),
                ) == Err::<(Map<Seq<char>, PropertyV>, int), PakError>(e),
            },
    {
        reader.set_pos(info.properties_offset);
        let ghost d = reader.data@;
        let ghost whole = parse_properties(
            d,
            info.properties_offset as int,
            info.properties_count as int,
            Map::empty(),
        );
        let mut out: StringMap<Property> = StringMap::new();
        let count: i32 = info.properties_count;
        let mut i: i32 = 0;
        while i < count
            invariant
                0 <= i,
                count > 0 ==> i <= count,
                count <= 0 ==> i == 0,
                count == info.properties_count,
                reader.data@ == d,
                d == old(reader).data@,
                whole == parse_properties(
                    d,
                    info.properties_offset as int,
                    info.properties_count as int,
                    Map::empty(),
                ),
                parse_properties(d, reader.pos as int, count - i, out@) == whole,
            decreases count - i,
        {
            match Property::from(reader) {
                Err(e) => {
                    return Err(e);
                },
                Ok(p) => {
                    let key: String = p.key.clone();
                    out.insert(key, p);
                    i = i + 1;
                },
            }
        }
        proof {
            assert(parse_properties(d, reader.pos as int, count - i, out@)
                == Ok::<(Map<Seq<char>, PropertyV>, int), PakError>((out@, reader.pos as int)));
        }
        Ok(out)
    }
}

// ---------------------------------------------------------------------------
// Chunk records.
// ---------------------------------------------------------------------------

/// A chunk table entry: a logical file name and the position and length of
/// its bytes, relative to the segment's data region.
#[derive(Clone, Debug)]
pub struct Chunk {
    pub full_file_name: String,
    pub offset: i32,
    pub size: i32,
}

/// The mathematical value of a `Chunk`.
#[verifier::ext_equal]
pub struct ChunkV {
    pub full_file_name: Seq<char>,
    pub offset: i32,
    pub size: i32,
}

impl View for Chunk {
    type V = ChunkV;

    open spec fn view(&self) -> ChunkV {
        ChunkV { full_file_name: self.full_file_name@, offset: self.offset, size: self.size }
    }
}

/// The on-disk form of one chunk record.
pub open spec fn chunk_bytes(c: ChunkV) -> Seq<u8> {
    string_block(c.full_file_name) + i32_be(c.offset) + i32_be(c.size)
}

/// What reading one chunk record at `pos` yields.
pub open spec fn parse_chunk(d: Seq<u8>, pos: int) -> Result<(ChunkV, int), PakError> {
    match parse_string(d, pos) {
        Err(e) => Err(e),
        Ok((name, p1)) => match parse_i32(d, p1) {
            Err(e) => Err(e),
            Ok((off, p2)) => match parse_i32(d, p2) {
                Err(e) => Err(e),
                Ok((size, p3)) => Ok((
                    ChunkV { full_file_name: name, offset: off, size: size },
                    p3,
                )),
            },
        },
    }
}

/// What reading `count` chunk records at `pos` yields: the records in
/// order, keyed by name, later records overriding earlier ones.
pub open spec fn parse_chunks(
    d: Seq<u8>,
    pos: int,
    count: int,
    acc: Map<Seq<char>, ChunkV>,
) -> Result<(Map<Seq<char>, ChunkV>, int), PakError>
    decreases count,
{
    if count <= 0 {
        Ok((acc, pos))
    } else {
        match parse_chunk(d, pos) {
            Err(e) => Err(e),
            Ok((c, p2)) => parse_chunks(d, p2, count - 1, acc.insert(c.full_file_name, c)),
        }
    }
}

impl Chunk {
    /// Creates a new `Chunk`.
    pub fn new(full_file_name: String, offset: i32, size: i32) -> (r: Chunk)
        ensures
            r@ == (ChunkV { full_file_name: full_file_name@, offset: offset, size: size }),
    {
        Chunk { full_file_name, offset, size }
    }

    /// Reads one `Chunk` record at the current position.
    pub fn from(reader: &mut PakStream) -> (r: Result<Chunk, PakError>)
        ensures
            final(reader).data@ == old(reader).data@,
            match r {
                Ok(c) => parse_chunk(old(reader).data@, old(reader).pos as int)
                    == Ok::<(ChunkV, int), PakError>((c@, final(reader).pos as int)),
                Err(e) => parse_chunk(old(reader).data@, old(reader).pos as int)
                    == Err::<(ChunkV, int), PakError>(e),
            },
    {
        let full_file_name: String = match reader.read_string() {
            Ok(s) => s,
            Err(e) => {
                return Err(e);
            },
        };
        let offset: i32 = match reader.read_i32() {
            Ok(x) => x,
            Err(e) => {
                return Err(e);
            },
        };
        let size: i32 = match reader.read_i32() {
            Ok(x) => x,
            Err(e) => {
                return Err(e);
            },
        };
        Ok(Chunk::new(full_file_name, offset, size))
    }

    /// Writes the record: a length-prefixed name then two integers.  Fails,
    /// leaving the buffer unchanged, when the name does not fit its length
    /// prefix.
    pub fn write(&self, w: &mut Vec<u8>) -> (r: Result<(), PakError>)
        ensures
            match r {
                Ok(()) => encodable_str(self.full_file_name@)
                    && final(w)@ == old(w)@ + chunk_bytes(self@),
                Err(e) => e == PakError::InvalidEncoding
                    && !encodable_str(self.full_file_name@) && final(w)@ == old(w)@,
            },
    {
        let mut tmp: Vec<u8> = Vec::new();
        match write_string(&mut tmp, self.full_file_name.as_str()) {
            Ok(()) => {},
            Err(e) => {
                return Err(e);
            },
        }
        write_i32(&mut tmp, self.offset);
        write_i32(&mut tmp, self.size);
        w.append(&mut tmp);
        proof {
            assert(w@ =~= old(w)@ + chunk_bytes(self@));
        }
        Ok(())
    }

    /// Reads `info.chunks_count` records starting at `info.chunks_offset`,
    /// keyed by name, keeping the last record on a name collision.
    pub fn read(reader: &mut PakStream, info: &Info) -> (r: Result<StringMap<Chunk>, PakError>)
        ensures
            final(reader).data@ == old(reader).data@,
            match r {
                Ok(m) => parse_chunks(
                    old(reader).data@,
                    info.chunks_offset as int,
                    info.chunks_count as int,
                    Map::empty(),
                ) matches Ok(pair) && pair.0 == m@,
                Err(e) => parse_chunks(
                    old(reader).data@,
                    info.chunks_offset as int,
                    info.chunks_count as int,
                    Map::empty(),
                ) == Err::<(Map<Seq<char>, ChunkV>, int), PakError>(e),
            },
    {
        reader.set_pos(info.chunks_offset);
        let ghost d = reader.data@;
        let ghost whole = parse_chunks(
            d,
            info.chunks_offset as int,
            info.chunks_count as int,
            Map::empty(),
        );
        let mut out: StringMap<Chunk> = StringMap::new();
        let count: i32 = info.chunks_count;
        let mut i: i32 = 0;
        while i < count
            invariant
                0 <= i,
                count > 0 ==> i <= count,
                count <= 0 ==> i == 0,
                count == info.chunks_count,
                reader.data@ == d,
                d == old(reader).data@,
                whole == parse_chunks(
                    d,
                    info.chunks_offset as int,
                    info.chunks_count as int,
                    Map::empty(),
                ),
                parse_chunks(d, reader.pos as int, count - i, out@) == whole,
            decreases count - i,
        {
            match Chunk::from(reader) {
                Err(e) => {
                    return Err(e);
                },
                Ok(c) => {
                    let key: String = c.full_file_name.clone();
                    out.insert(key, c);
                    i = i + 1;
                },
            }
        }
        proof {
            assert(parse_chunks(d, reader.pos as int, count - i, out@)
                == Ok::<(Map<Seq<char>, ChunkV>, int), PakError>((out@, reader.pos as int)));
        }
        Ok(out)
    }
}

// ---------------------------------------------------------------------------
// The footer.
// ---------------------------------------------------------------------------

/// The fixed 24-byte trailer of a segment: the data region's base offset,
/// the declared segment size, and the position and count of each table.
#[derive(Clone, Copy, Debug, PartialEq, Eq, Structural)]
pub struct Info {
    /// Base offset of the segment's chunk data
    pub offset: u64,
    /// Declared segment size, informational
    pub size: i32,
    /// Position of the chunk table, from the start of the stream
    pub chunks_offset: u64,
    /// Number of chunk records
    pub chunks_count: i32,
    /// Position of the property table, from the start of the stream
    pub properties_offset: u64,
    /// Number of property records
    pub properties_count: i32,
}

/// The `i32` held in the four big-endian bytes at `pos`.
pub open spec fn i32_at(d: Seq<u8>, pos: int) -> i32 {
    i32_of(d[pos], d[pos + 1], d[pos + 2], d[pos + 3])
}

/// What reading the 24-byte trailer of `d` yields.  The three offsets are
/// unsigned 32-bit values promoted to 64 bits; `size` and the two counts
/// stay signed 32-bit.
pub open spec fn parse_info(d: Seq<u8>) -> Result<Info, PakError> {
    if d.len() < 24 {
        Err(PakError::TruncatedStream)
    } else {
        let base = d.len() - 24;
        Ok(Info {
            offset: (i32_at(d, base) as u32) as u64,
            size: i32_at(d, base + 4),
            chunks_offset: (i32_at(d, base + 8) as u32) as u64,
            chunks_count: i32_at(d, base + 12),
            properties_offset: (i32_at(d, base + 16) as u32) as u64,
            properties_count: i32_at(d, base + 20),
        })
    }
}

/// The on-disk form of the trailer: six big-endian `i32` fields.
pub open spec fn info_bytes(i: Info) -> Seq<u8> {
    i32_be(i.offset as i32) + i32_be(i.size) + i32_be(i.chunks_offset as i32)
        + i32_be(i.chunks_count) + i32_be(i.properties_offset as i32)
        + i32_be(i.properties_count)
}

/// Reads one `i32` that the stream provably holds.
fn next_i32(reader: &mut PakStream) -> (r: i32)
    requires
        old(reader).pos + 4 <= old(reader).data@.len(),
    ensures
        final(reader).data@ == old(reader).data@,
        final(reader).pos == old(reader).pos + 4,
        r == i32_at(old(reader).data@, old(reader).pos as int),
{
    match reader.read_i32() {
        Ok(x) => x,
        Err(_) => {
            proof {
                assert(false);
            }
            0
        },
    }
}

impl Info {
    /// Creates a new `Info`.
    pub fn new(
        offset: u64,
        size: i32,
        chunks_offset: u64,
        chunks_count: i32,
        properties_offset: u64,
        properties_count: i32,
    ) -> (r: Info)
        ensures
            r == (Info { offset, size, chunks_offset, chunks_count, properties_offset,
                properties_count }),
    {
        Info { offset, size, chunks_offset, chunks_count, properties_offset, properties_count }
    }

    /// Reads the trailer from the last 24 bytes of the stream, wherever the
    /// current position is.
    pub fn from(reader: &mut PakStream) -> (r: Result<Info, PakError>)
        ensures
            final(reader).data@ == old(reader).data@,
            match r {
                Ok(i) => parse_info(old(reader).data@) == Ok::<Info, PakError>(i),
                Err(e) => parse_info(old(reader).data@) == Err::<Info, PakError>(e),
            },
    {
        let n: usize = reader.data.len();
        if n < 24 {
            return Err(PakError::TruncatedStream);
        }
        reader.set_pos((n - 24) as u64);
        let offset: i32 = next_i32(reader);
        let size: i32 = next_i32(reader);
        let chunks_offset: i32 = next_i32(reader);
        let chunks_count: i32 = next_i32(reader);
        let properties_offset: i32 = next_i32(reader);
        let properties_count: i32 = next_i32(reader);
        let offset_u: u32 = #[verifier::truncate] (offset as u32);
        let chunks_offset_u: u32 = #[verifier::truncate] (chunks_offset as u32);
        let properties_offset_u: u32 = #[verifier::truncate] (properties_offset as u32);
        Ok(Info::new(
            offset_u as u64,
            size,
            chunks_offset_u as u64,
            chunks_count,
            properties_offset_u as u64,
            properties_count,
        ))
    }

    /// Writes the trailer: six big-endian `i32` fields, the offsets
    /// narrowed back as the format fixes.
    pub fn write(&self, w: &mut Vec<u8>) -> (r: Result<(), PakError>)
        ensures
            r is Ok,
            final(w)@ == old(w)@ + info_bytes(*self),
    {
        write_i32(w, #[verifier::truncate] (self.offset as i32));
        write_i32(w, self.size);
        write_i32(w, #[verifier::truncate] (self.chunks_offset as i32));
        write_i32(w, self.chunks_count);
        write_i32(w, #[verifier::truncate] (self.properties_offset as i32));
        write_i32(w, self.properties_count);
        proof {
            assert(w@ =~= old(w)@ + info_bytes(*self));
        }
        Ok(())
    }
}

// ---------------------------------------------------------------------------
// One whole segment.
// ---------------------------------------------------------------------------

/// The mathematical value of one parsed segment.
#[verifier::ext_equal]
pub struct SegV {
    pub info: Info,
    pub chunks: Map<Seq<char>, ChunkV>,
    pub props: Map<Seq<char>, PropertyV>,
}

/// What loading one whole segment yields: header validation, then the
/// footer, then the chunk table, then the property table.
pub open spec fn seg_model(d: Seq<u8>) -> Result<SegV, PakError> {
    match parse_header(d, 0) {
        Err(e) => Err(e),
        Ok(_) => match parse_info(d) {
            Err(e) => Err(e),
            Ok(info) => match parse_chunks(
                d,
                info.chunks_offset as int,
                info.chunks_count as int,
                Map::empty(),
            ) {
                Err(e) => Err(e),
                Ok((chunks, _)) => match parse_properties(
                    d,
                    info.properties_offset as int,
                    info.properties_count as int,
                    Map::empty(),
                ) {
                    Err(e) => Err(e),
                    Ok((props, _)) => Ok(SegV { info, chunks, props }),
                },
            },
        },
    }
}

/// Loads one segment from the start of the stream: header, footer, chunk
/// table, property table, in that order.
pub fn load_segment(reader: &mut PakStream) -> (r: Result<
    (Info, StringMap<Chunk>, StringMap<Property>),
    PakError,
>)
    ensures
        final(reader).data@ == old(reader).data@,
        match r {
            Ok(t) => seg_model(old(reader).data@)
                == Ok::<SegV, PakError>((SegV { info: t.0, chunks: t.1@, props: t.2@ })),
            Err(e) => seg_model(old(reader).data@) == Err::<SegV, PakError>(e),
        },
{
    reader.set_pos(0);
    match read_header(reader) {
        Ok(()) => {},
        Err(e) => {
            return Err(e);
        },
    }
    let info: Info = match Info::from(reader) {
        Ok(i) => i,
        Err(e) => {
            return Err(e);
        },
    };
    let chunks: StringMap<Chunk> = match Chunk::read(reader, &info) {
        Ok(c) => c,
        Err(e) => {
            return Err(e);
        },
    };
    let props: StringMap<Property> = match Property::read(reader, &info) {
        Ok(p) => p,
        Err(e) => {
            return Err(e);
        },
    };
    Ok((info, chunks, props))
}

} // verus!
