//! The laws the codec and the merge engine obey, each proved from the
//! contracts the other modules state: record round trips, and what a
//! one- or two-segment archive merges to.

use vstd::prelude::*;

verus! {

use crate::PakError;
use crate::codec::{
    u16_of, i32_be, lemma_u16_roundtrip, lemma_i32_roundtrip, parse_i32, parse_string,
    string_block, encodable_str,
};
use crate::raw::{
    PropertyV, ChunkV, Info, SegV, property_bytes, chunk_bytes, info_bytes, parse_property,
    parse_chunk, parse_info, seg_model,
};
use crate::read::{
    MergeStateV, MergeReaderV, init_state, skip_visited, feed_step, merge_fuel, merge_result,
    reader_of, rebase_chunk, rebase_chunks, prop_values, links_of, set_file_name_spec,
};
use vstd::utf8::{encode_utf8, encode_utf8_valid_utf8, encode_utf8_decode_utf8};

// ---------------------------------------------------------------------------
// Round trips of the codec.
// ---------------------------------------------------------------------------

/// A length-prefixed string written somewhere in a stream parses back to
/// the characters it was written from.
pub proof fn lemma_parse_string_block(d: Seq<u8>, pos: int, s: Seq<char>)
    requires
        encodable_str(s),
        0 <= pos,
        pos + string_block(s).len() <= d.len(),
        d.subrange(pos, pos + string_block(s).len()) == string_block(s),
    ensures
        parse_string(d, pos) == Ok::<(Seq<char>, int), PakError>((
            s,
            pos + string_block(s).len(),
        )),
{
    let bytes = encode_utf8(s);
    let blk = string_block(s);
    let n = bytes.len() as u16;
    assert(d[pos] == d.subrange(pos, pos + blk.len())[0]);
    assert(d[pos + 1] == d.subrange(pos, pos + blk.len())[1]);
    lemma_u16_roundtrip(n);
    assert(u16_of(d[pos], d[pos + 1]) == n);
    assert(d.subrange(pos + 2, pos + 2 + n) =~= bytes) by {
        assert forall|i: int| 0 <= i < bytes.len() implies
            d.subrange(pos + 2, pos + 2 + n as int)[i] == bytes[i]
        by {
            assert(d.subrange(pos, pos + blk.len())[2 + i] == d[pos + 2 + i]);
            assert(blk[2 + i] == bytes[i]);
        }
    }
    encode_utf8_valid_utf8(s);
    encode_utf8_decode_utf8(s);
}

/// A big-endian `i32` written somewhere in a stream parses back to the
/// value it was written from.
pub proof fn lemma_parse_i32_at(d: Seq<u8>, pos: int, x: i32)
    requires
        0 <= pos,
        pos + 4 <= d.len(),
        d.subrange(pos, pos + 4) == i32_be(x),
    ensures
        parse_i32(d, pos) == Ok::<(i32, int), PakError>((x, pos + 4)),
{
    assert(d[pos] == d.subrange(pos, pos + 4)[0]);
    assert(d[pos + 1] == d.subrange(pos, pos + 4)[1]);
    assert(d[pos + 2] == d.subrange(pos, pos + 4)[2]);
    assert(d[pos + 3] == d.subrange(pos, pos + 4)[3]);
    lemma_i32_roundtrip(x);
}

/// Round trip: decoding an encoded `Property` record yields the record,
/// field for field.
pub proof fn lemma_property_roundtrip(p: PropertyV)
    requires
        encodable_str(p.key),
        encodable_str(p.value),
    ensures
        parse_property(property_bytes(p), 0) == Ok::<(PropertyV, int), PakError>((
            p,
            property_bytes(p).len() as int,
        )),
{
    let d = property_bytes(p);
    let b1 = string_block(p.key);
    let b2 = string_block(p.value);
    assert(d.subrange(0, b1.len() as int) =~= b1);
    lemma_parse_string_block(d, 0, p.key);
    assert(d.subrange(b1.len() as int, (b1.len() + b2.len()) as int) =~= b2);
    lemma_parse_string_block(d, b1.len() as int, p.value);
    assert((PropertyV { key: p.key, value: p.value }) =~= p);
}

/// Round trip: decoding an encoded `Chunk` record yields the record,
/// field for field.
pub proof fn lemma_chunk_roundtrip(c: ChunkV)
    requires
        encodable_str(c.full_file_name),
    ensures
        parse_chunk(chunk_bytes(c), 0) == Ok::<(ChunkV, int), PakError>((
            c,
            chunk_bytes(c).len() as int,
        )),
{
    let d = chunk_bytes(c);
    let b1 = string_block(c.full_file_name);
    assert(d.subrange(0, b1.len() as int) =~= b1);
    lemma_parse_string_block(d, 0, c.full_file_name);
    assert(d.subrange(b1.len() as int, b1.len() as int + 4) =~= i32_be(c.offset));
    lemma_parse_i32_at(d, b1.len() as int, c.offset);
    assert(d.subrange(b1.len() as int + 4, b1.len() as int + 8) =~= i32_be(c.size));
    lemma_parse_i32_at(d, b1.len() as int + 4, c.size);
    assert((ChunkV { full_file_name: c.full_file_name, offset: c.offset, size: c.size }) =~= c);
}

/// Narrowing a value below 2^32 to four bytes and promoting it back
/// unsigned returns the value.
proof fn lemma_narrow_widen(v: u64)
    requires
        v <= u32::MAX as u64,
    ensures
        (((v as i32) as u32) as u64) == v,
{
    assert((((v as i32) as u32) as u64) == v) by (bit_vector)
        requires v <= 0xffffffffu64;
}

/// Round trip: decoding an encoded `Info` record yields the record, field
/// for field, for every offset the four-byte field can hold.
pub proof fn lemma_info_roundtrip(i: Info)
    requires
        i.offset <= u32::MAX as u64,
        i.chunks_offset <= u32::MAX as u64,
        i.properties_offset <= u32::MAX as u64,
    ensures
        parse_info(info_bytes(i)) == Ok::<Info, PakError>(i),
{
    lemma_narrow_widen(i.offset);
    lemma_narrow_widen(i.chunks_offset);
    lemma_narrow_widen(i.properties_offset);
    let d = info_bytes(i);
    assert(d.len() == 24);
    assert(d.subrange(0, 4) =~= i32_be(i.offset as i32));
    lemma_parse_i32_at(d, 0, i.offset as i32);
    assert(d.subrange(4, 8) =~= i32_be(i.size));
    lemma_parse_i32_at(d, 4, i.size);
    assert(d.subrange(8, 12) =~= i32_be(i.chunks_offset as i32));
    lemma_parse_i32_at(d, 8, i.chunks_offset as i32);
    assert(d.subrange(12, 16) =~= i32_be(i.chunks_count));
    lemma_parse_i32_at(d, 12, i.chunks_count);
    assert(d.subrange(16, 20) =~= i32_be(i.properties_offset as i32));
    lemma_parse_i32_at(d, 16, i.properties_offset as i32);
    assert(d.subrange(20, 24) =~= i32_be(i.properties_count));
    lemma_parse_i32_at(d, 20, i.properties_count);
}

/// The footer's three offsets, promoted unsigned from four bytes, never
/// exceed `u32::MAX`.
pub proof fn lemma_parse_info_offsets(d: Seq<u8>)
    ensures
        parse_info(d) matches Ok(i) ==> i.offset <= u32::MAX as u64
            && i.chunks_offset <= u32::MAX as u64
            && i.properties_offset <= u32::MAX as u64,
{
}

/// Rebasing with a base the footer can hold and a nonnegative record
/// offset is the plain sum `Info.offset + Chunk.offset`, the record's
/// size carried over when it too is nonnegative: no wrap-around occurs.
/// (A negative record offset stands for a position before the data
/// region's base; there the rebased position wraps instead.)
pub proof fn lemma_rebase_plain(c: ChunkV, base: u64, seg: usize)
    requires
        base <= u32::MAX as u64,
        c.offset >= 0,
    ensures
        rebase_chunk(c, base, seg).seg == seg,
        rebase_chunk(c, base, seg).offset == base + c.offset,
        c.size >= 0 ==> rebase_chunk(c, base, seg).size == c.size,
{
}

// ---------------------------------------------------------------------------
// What whole archives merge to.
// ---------------------------------------------------------------------------

/// Once the merge completes within some fuel, more fuel changes nothing.
pub proof fn lemma_merge_fuel_mono(
    store: Map<Seq<char>, Seq<u8>>,
    st: MergeStateV,
    n: nat,
    m: nat,
)
    requires
        merge_fuel(store, st, n) is Some,
        n <= m,
    ensures
        merge_fuel(store, st, m) == merge_fuel(store, st, n),
    decreases n,
{
    let st1 = MergeStateV { queue: skip_visited(st.queue, st.loaded), ..st };
    if st1.queue.len() == 0 {
    } else {
        assert(n > 0);
        if store.contains_key(st1.queue[0]) {
            match feed_step(st1, store[st1.queue[0]]) {
                Err(_) => {},
                Ok(st2) => {
                    lemma_merge_fuel_mono(store, st2, (n - 1) as nat, (m - 1) as nat);
                },
            }
        }
    }
}

/// In a loaded segment, every chunk record keeps its name and lands in
/// the owning segment `idx`; a record with a nonnegative offset lands at
/// the plain sum `Info.offset + Chunk.offset`, and a nonnegative size
/// carries over unchanged: the footer's base is an unsigned 32-bit value,
/// which leaves the sum no room to wrap.
pub proof fn lemma_rebased_table_plain(d: Seq<u8>, seg: SegV, idx: usize)
    requires
        seg_model(d) == Ok::<SegV, PakError>(seg),
    ensures
        forall|k: Seq<char>| #[trigger] seg.chunks.contains_key(k)
            ==> rebase_chunks(seg.chunks, seg.info.offset, idx).contains_key(k)
                && rebase_chunks(seg.chunks, seg.info.offset, idx)[k].seg == idx
                && (seg.chunks[k].offset >= 0
                    ==> rebase_chunks(seg.chunks, seg.info.offset, idx)[k].offset
                        == seg.info.offset + seg.chunks[k].offset)
                && (seg.chunks[k].size >= 0
                    ==> rebase_chunks(seg.chunks, seg.info.offset, idx)[k].size
                        == seg.chunks[k].size),
{
    match parse_info(d) {
        Ok(i) => {
            assert(i == seg.info);
        },
        Err(_) => {
            assert(false);
        },
    }
    lemma_parse_info_offsets(d);
    assert forall|k: Seq<char>| #[trigger] seg.chunks.contains_key(k)
        implies rebase_chunks(seg.chunks, seg.info.offset, idx).contains_key(k)
            && rebase_chunks(seg.chunks, seg.info.offset, idx)[k].seg == idx
            && (seg.chunks[k].offset >= 0
                ==> rebase_chunks(seg.chunks, seg.info.offset, idx)[k].offset
                    == seg.info.offset + seg.chunks[k].offset)
            && (seg.chunks[k].size >= 0
                ==> rebase_chunks(seg.chunks, seg.info.offset, idx)[k].size
                    == seg.chunks[k].size)
    by {
        assert(rebase_chunks(seg.chunks, seg.info.offset, idx)[k]
            == rebase_chunk(seg.chunks[k], seg.info.offset, idx));
        if seg.chunks[k].offset >= 0 {
            lemma_rebase_plain(seg.chunks[k], seg.info.offset, idx);
        }
    }
}

/// For every valid single-segment archive with no properties, the merge
/// succeeds, and its chunk namespace is exactly the segment's chunk table:
/// names preserved, each offset rebased by the footer's base offset, all
/// owned by the one loaded segment.  `lemma_rebased_table_plain` gives the
/// rebased offsets as plain sums.
pub proof fn lemma_single_segment(
    store: Map<Seq<char>, Seq<u8>>,
    initial: Seq<char>,
    seg: SegV,
)
    requires
        store.contains_key(initial),
        seg_model(store[initial]) == Ok::<SegV, PakError>(seg),
        seg.props == Map::<Seq<char>, PropertyV>::empty(),
    ensures
        forall|n: nat| n >= 1 ==> merge_result(store, initial, n)
            == Some(Ok::<MergeReaderV, PakError>(MergeReaderV {
                segments: seq![store[initial]],
                chunks: rebase_chunks(seg.chunks, seg.info.offset, 0),
                props: Map::empty(),
            })),
{
    let st0 = init_state(initial);
    assert(skip_visited(st0.queue, st0.loaded) == st0.queue);
    assert((MergeStateV { queue: skip_visited(st0.queue, st0.loaded), ..st0 }) =~= st0);
    assert(!seg.props.contains_key("link"@));
    let st2 = match feed_step(st0, store[initial]) {
        Ok(s) => s,
        Err(_) => st0,
    };
    assert(feed_step(st0, store[initial]) == Ok::<MergeStateV, PakError>(st2));
    assert(st2.queue =~= Seq::<Seq<char>>::empty());
    assert(skip_visited(st2.queue, st2.loaded) == st2.queue);
    assert((MergeStateV { queue: skip_visited(st2.queue, st2.loaded), ..st2 }) =~= st2);
    assert(merge_fuel(store, st2, 0nat) == Some(Ok::<MergeStateV, PakError>(st2)));
    assert(merge_fuel(store, st0, 1nat) == Some(Ok::<MergeStateV, PakError>(st2)));
    let target = MergeReaderV {
        segments: seq![store[initial]],
        chunks: rebase_chunks(seg.chunks, seg.info.offset, 0),
        props: Map::empty(),
    };
    assert(st2.segments =~= seq![store[initial]]);
    assert(st2.chunks =~= rebase_chunks(seg.chunks, seg.info.offset, 0));
    assert(st2.props =~= Map::<Seq<char>, Seq<char>>::empty());
    assert(reader_of(st2) =~= target);
    assert(merge_result(store, initial, 1nat) == Some(Ok::<MergeReaderV, PakError>(target)));
    assert forall|n: nat| n >= 1 implies merge_result(store, initial, n)
        == Some(Ok::<MergeReaderV, PakError>(target))
    by {
        lemma_merge_fuel_mono(store, init_state(initial), 1nat, n);
    }
}

/// For a two-segment archive where the first segment's `link` property
/// names the second and no other link exists, the merge succeeds, its
/// chunk namespace is the union of both segments' rebased chunk tables
/// with the second segment winning a name collision, and its property map
/// is the union of both property tables with the second winning likewise.
/// `lemma_rebased_table_plain` gives either table's rebased offsets as
/// plain sums.
pub proof fn lemma_two_segments(
    store: Map<Seq<char>, Seq<u8>>,
    initial: Seq<char>,
    a: SegV,
    b: SegV,
)
    requires
        store.contains_key(initial),
        seg_model(store[initial]) == Ok::<SegV, PakError>(a),
        a.props.contains_key("link"@),
        store.contains_key(set_file_name_spec(initial, a.props["link"@].value)),
        seg_model(store[set_file_name_spec(initial, a.props["link"@].value)])
            == Ok::<SegV, PakError>(b),
        !b.props.contains_key("link"@),
    ensures
        forall|n: nat| n >= 2 ==> merge_result(store, initial, n)
            == Some(Ok::<MergeReaderV, PakError>(MergeReaderV {
                segments: seq![
                    store[initial],
                    store[set_file_name_spec(initial, a.props["link"@].value)],
                ],
                chunks: rebase_chunks(a.chunks, a.info.offset, 0).union_prefer_right(
                    rebase_chunks(b.chunks, b.info.offset, 1),
                ),
                props: prop_values(a.props).union_prefer_right(prop_values(b.props)),
            })),
{
    let pb = set_file_name_spec(initial, a.props["link"@].value);
    assert(pb != initial) by {
        if pb == initial {
            assert(a == b);
        }
    }
    let st0 = init_state(initial);
    assert(skip_visited(st0.queue, st0.loaded) == st0.queue);
    assert((MergeStateV { queue: skip_visited(st0.queue, st0.loaded), ..st0 }) =~= st0);
    let st2 = match feed_step(st0, store[initial]) {
        Ok(s) => s,
        Err(_) => st0,
    };
    assert(feed_step(st0, store[initial]) == Ok::<MergeStateV, PakError>(st2));
    assert(links_of(a, initial) == seq![pb]);
    assert(st2.queue =~= seq![pb]);
    assert(st2.loaded =~= Set::<Seq<char>>::empty().insert(initial));
    assert(!st2.loaded.contains(pb));
    assert(skip_visited(st2.queue, st2.loaded) == st2.queue);
    assert((MergeStateV { queue: skip_visited(st2.queue, st2.loaded), ..st2 }) =~= st2);
    let st3 = match feed_step(st2, store[pb]) {
        Ok(s) => s,
        Err(_) => st2,
    };
    assert(feed_step(st2, store[pb]) == Ok::<MergeStateV, PakError>(st3));
    assert(st3.queue =~= Seq::<Seq<char>>::empty());
    assert(skip_visited(st3.queue, st3.loaded) == st3.queue);
    assert((MergeStateV { queue: skip_visited(st3.queue, st3.loaded), ..st3 }) =~= st3);
    assert(merge_fuel(store, st3, 0nat) == Some(Ok::<MergeStateV, PakError>(st3)));
    assert(merge_fuel(store, st2, 1nat) == Some(Ok::<MergeStateV, PakError>(st3)));
    assert(merge_fuel(store, st0, 2nat) == Some(Ok::<MergeStateV, PakError>(st3)));
    let target = MergeReaderV {
        segments: seq![store[initial], store[pb]],
        chunks: rebase_chunks(a.chunks, a.info.offset, 0).union_prefer_right(
            rebase_chunks(b.chunks, b.info.offset, 1),
        ),
        props: prop_values(a.props).union_prefer_right(prop_values(b.props)),
    };
    assert(st3.segments =~= seq![store[initial], store[pb]]);
    assert(st3.chunks =~= target.chunks);
    assert(st3.props =~= target.props);
    assert(reader_of(st3) =~= target);
    assert(merge_result(store, initial, 2nat) == Some(Ok::<MergeReaderV, PakError>(target)));
    assert forall|n: nat| n >= 2 implies merge_result(store, initial, n)
        == Some(Ok::<MergeReaderV, PakError>(target))
    by {
        lemma_merge_fuel_mono(store, init_state(initial), 2nat, n);
    }
}

} // verus!
