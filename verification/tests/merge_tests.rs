use pak_rs::raw::{write_header, Chunk, Info, Property};
use pak_rs::read::{set_file_name, MergeReader, MergedChunk, Merger};
use pak_rs::string_map::StringMap;
use pak_rs::PakError;

/// Builds one well-formed segment: header, chunk data, chunk table,
/// property table, footer.
fn build_segment(chunks: &[(&str, &[u8])], props: &[(&str, &str)]) -> Vec<u8> {
    let mut buf: Vec<u8> = Vec::new();
    write_header(&mut buf).unwrap();
    let offset = buf.len() as u64;
    let mut placed: Vec<(String, i32, i32)> = Vec::new();
    for (name, data) in chunks {
        let rel = (buf.len() as u64 - offset) as i32;
        buf.extend_from_slice(data);
        placed.push((name.to_string(), rel, data.len() as i32));
    }
    let chunks_offset = buf.len() as u64;
    for (name, rel, size) in placed {
        Chunk::new(name, rel, size).write(&mut buf).unwrap();
    }
    let properties_offset = buf.len() as u64;
    for (k, v) in props {
        Property::new(k.to_string(), v.to_string()).write(&mut buf).unwrap();
    }
    let info = Info::new(
        offset,
        0,
        chunks_offset,
        chunks.len() as i32,
        properties_offset,
        props.len() as i32,
    );
    info.write(&mut buf).unwrap();
    buf
}

fn store_of(files: &[(&str, Vec<u8>)]) -> StringMap<Vec<u8>> {
    let mut store: StringMap<Vec<u8>> = StringMap::new();
    for (path, bytes) in files {
        store.insert(path.to_string(), bytes.clone());
    }
    store
}

#[test]
fn set_file_name_keeps_directory() {
    assert_eq!(set_file_name("data/pak/main.d2p", "next.d2p"), "data/pak/next.d2p".to_string());
}

#[test]
fn set_file_name_without_directory() {
    assert_eq!(set_file_name("main.d2p", "next.d2p"), "next.d2p".to_string());
}

#[test]
fn single_segment_iterates_chunk_table() {
    let seg = build_segment(&[("a.txt", b"alpha"), ("b/b.txt", b"bee")], &[]);
    let store = store_of(&[("main.d2p", seg)]);
    let reader = MergeReader::merge("main.d2p", &store).unwrap();
    let mut names: Vec<String> = reader.iter().into_iter().map(|p| p.0).collect();
    names.sort();
    assert_eq!(names, vec!["a.txt".to_string(), "b/b.txt".to_string()]);
    assert_eq!(reader.read_file("a.txt").unwrap(), b"alpha".to_vec());
    assert_eq!(reader.read_file("b/b.txt").unwrap(), b"bee".to_vec());
}

#[test]
fn read_file_absent_is_not_found() {
    let seg = build_segment(&[("a.txt", b"alpha")], &[]);
    let store = store_of(&[("main.d2p", seg)]);
    let reader = MergeReader::merge("main.d2p", &store).unwrap();
    assert_eq!(reader.read_file("missing.txt"), Err(PakError::NotFound));
}

#[test]
fn two_segments_follow_link() {
    let a = build_segment(
        &[("a.txt", b"from-a"), ("shared.txt", b"old")],
        &[("link", "B.d2p"), ("era", "one")],
    );
    let b = build_segment(&[("b.txt", b"from-b-exactly"), ("shared.txt", b"new")], &[]);
    let store = store_of(&[("dir/main.d2p", a), ("dir/B.d2p", b)]);
    let reader = MergeReader::merge("dir/main.d2p", &store).unwrap();
    // union of both chunk tables
    let mut names: Vec<String> = reader.iter().into_iter().map(|p| p.0).collect();
    names.sort();
    assert_eq!(
        names,
        vec!["a.txt".to_string(), "b.txt".to_string(), "shared.txt".to_string()]
    );
    // a name only in the linked segment reads its exact bytes
    assert_eq!(reader.read_file("b.txt").unwrap(), b"from-b-exactly".to_vec());
    assert_eq!(reader.read_file("a.txt").unwrap(), b"from-a".to_vec());
    // on a collision the later-loaded segment wins
    assert_eq!(reader.read_file("shared.txt").unwrap(), b"new".to_vec());
    // properties aggregate too, the link among them
    assert_eq!(reader.property("era"), Some(&"one".to_string()));
    assert_eq!(reader.property("link"), Some(&"B.d2p".to_string()));
}

#[test]
fn missing_linked_segment_fails_io() {
    let a = build_segment(&[], &[("link", "gone.d2p")]);
    let store = store_of(&[("main.d2p", a)]);
    assert_eq!(
        MergeReader::merge("main.d2p", &store).err().unwrap(),
        PakError::IoFailure
    );
}

#[test]
fn missing_initial_segment_fails_io() {
    let store = store_of(&[]);
    assert_eq!(
        MergeReader::merge("main.d2p", &store).err().unwrap(),
        PakError::IoFailure
    );
}

#[test]
fn reversed_header_fails_before_tables() {
    let mut seg = build_segment(&[("a.txt", b"alpha")], &[]);
    seg[0] = 1;
    seg[1] = 2;
    let store = store_of(&[("main.d2p", seg)]);
    assert_eq!(
        MergeReader::merge("main.d2p", &store).err().unwrap(),
        PakError::CorruptHeader
    );
}

#[test]
fn overlong_property_count_is_truncated() {
    // one property record present, but the footer declares two: reading
    // the second runs into the footer, whose first field was chosen so the
    // fake length runs past end-of-stream
    let mut buf: Vec<u8> = Vec::new();
    write_header(&mut buf).unwrap();
    let chunks_offset = buf.len() as u64;
    let properties_offset = buf.len() as u64;
    Property::new("k".to_string(), "v".to_string()).write(&mut buf).unwrap();
    let info = Info::new(0x7fff0000, 0, chunks_offset, 0, properties_offset, 2);
    info.write(&mut buf).unwrap();
    let store = store_of(&[("main.d2p", buf)]);
    assert_eq!(
        MergeReader::merge("main.d2p", &store).err().unwrap(),
        PakError::TruncatedStream
    );
}

#[test]
fn duplicate_property_key_keeps_last() {
    let seg = build_segment(&[], &[("k", "first"), ("k", "second")]);
    let store = store_of(&[("main.d2p", seg)]);
    let reader = MergeReader::merge("main.d2p", &store).unwrap();
    assert_eq!(reader.property("k"), Some(&"second".to_string()));
}

#[test]
fn linked_cycle_terminates() {
    // main links back to itself; the merge loads it once and stops
    let a = build_segment(&[("a.txt", b"alpha")], &[("link", "main.d2p")]);
    let store = store_of(&[("main.d2p", a)]);
    let reader = MergeReader::merge("main.d2p", &store).unwrap();
    assert_eq!(reader.read_file("a.txt").unwrap(), b"alpha".to_vec());
}

#[test]
fn chunk_past_end_is_truncated() {
    // a chunk whose declared range runs past its segment's end
    let seg = build_segment(&[("a.txt", b"al")], &[]);
    // rebuild with a lying size: patch is simpler through a fresh table
    let mut buf: Vec<u8> = Vec::new();
    write_header(&mut buf).unwrap();
    let offset = buf.len() as u64;
    buf.extend_from_slice(b"al");
    let chunks_offset = buf.len() as u64;
    Chunk::new("a.txt".to_string(), 0, 5000).write(&mut buf).unwrap();
    let properties_offset = buf.len() as u64;
    Info::new(offset, 0, chunks_offset, 1, properties_offset, 0).write(&mut buf).unwrap();
    let store = store_of(&[("main.d2p", buf), ("ok.d2p", seg)]);
    let reader = MergeReader::merge("main.d2p", &store).unwrap();
    assert_eq!(reader.read_file("a.txt"), Err(PakError::TruncatedStream));
}

#[test]
fn merged_chunk_data_reads_exact_range() {
    let segment: Vec<u8> = b"0123456789".to_vec();
    let chunk = MergedChunk::new(3, 4, 0);
    assert_eq!(chunk.data(&segment).unwrap(), b"3456".to_vec());
    let past_end = MergedChunk::new(8, 4, 0);
    assert_eq!(past_end.data(&segment), Err(PakError::TruncatedStream));
}

#[test]
fn merger_drives_step_by_step() {
    let a = build_segment(&[("a.txt", b"alpha")], &[("link", "B.d2p")]);
    let b = build_segment(&[("b.txt", b"bravo")], &[]);
    let mut merger = Merger::new("main.d2p".to_string());
    let mut fed: usize = 0;
    while let Some(path) = merger.next_path() {
        let bytes = if path == "main.d2p" { a.clone() } else { b.clone() };
        merger.feed(bytes).unwrap();
        fed += 1;
    }
    assert_eq!(fed, 2);
    let reader = merger.finish();
    assert_eq!(reader.read_file("a.txt").unwrap(), b"alpha".to_vec());
    assert_eq!(reader.read_file("b.txt").unwrap(), b"bravo".to_vec());
}

#[test]
fn string_map_insert_overwrites() {
    let mut map: StringMap<Vec<u8>> = StringMap::new();
    map.insert("a".to_string(), vec![1u8]);
    map.insert("b".to_string(), vec![2u8]);
    map.insert("a".to_string(), vec![3u8]);
    assert_eq!(map.get("a"), Some(&vec![3u8]));
    assert_eq!(map.get("b"), Some(&vec![2u8]));
    assert_eq!(map.get("c"), None);
    assert_eq!(map.entry_count(), 2);
}

#[test]
fn negative_counts_read_as_empty() {
    // a footer may carry negative counts; the tables then hold nothing
    let mut buf: Vec<u8> = Vec::new();
    write_header(&mut buf).unwrap();
    Info::new(2, 0, 2, -5, 2, -1).write(&mut buf).unwrap();
    let store = store_of(&[("main.d2p", buf)]);
    let reader = MergeReader::merge("main.d2p", &store).unwrap();
    assert_eq!(reader.iter().len(), 0);
}

#[test]
fn huge_table_offset_is_truncated() {
    // a chunks_offset of 4294967295 points far past the end of the stream
    let mut buf: Vec<u8> = Vec::new();
    write_header(&mut buf).unwrap();
    Info::new(2, 0, 2, 1, 2, 0).write(&mut buf).unwrap();
    // patch chunks_offset to the largest four-byte value
    let at = buf.len() - 16;
    buf[at] = 0xff;
    buf[at + 1] = 0xff;
    buf[at + 2] = 0xff;
    buf[at + 3] = 0xff;
    let store = store_of(&[("main.d2p", buf)]);
    assert_eq!(
        MergeReader::merge("main.d2p", &store).err().unwrap(),
        PakError::TruncatedStream
    );
}
