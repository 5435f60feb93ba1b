//! Reading a whole archive: following the segment chain named by `link`
//! properties and aggregating every segment's chunks and properties into
//! one namespace, with lazy access to a chunk's bytes.

use vstd::prelude::*;

verus! {

use crate::PakError;
use crate::codec::PakStream;
use crate::raw::{SegV, seg_model, load_segment, Chunk, Property};
use crate::string_map::{StringMap, assoc_map, distinct_keys, lemma_assoc_prefix,
    lemma_assoc_get, lemma_assoc_contains, str_eq};
use vstd::string::{StrSliceExecFns, StringExecFns};

// ---------------------------------------------------------------------------
// Link resolution: a pure path computation.
// ---------------------------------------------------------------------------

/// The position of the last `/` in `s`, or -1 when there is none.
pub open spec fn last_slash(s: Seq<char>) -> int
    decreases s.len(),
{
    if s.len() == 0 {
        -1
    } else if s.last() == '/' {
        s.len() - 1
    } else {
        last_slash(s.drop_last())
    }
}

/// What `last_slash` finds: a `/` with none after it, or no `/` at all.
pub proof fn lemma_last_slash(s: Seq<char>)
    ensures
        last_slash(s) >= 0 ==> last_slash(s) < s.len() && s[last_slash(s)] == '/'
            && (forall|j: int| last_slash(s) < j < s.len() ==> s[j] != '/'),
        last_slash(s) == -1 ==> forall|j: int| 0 <= j < s.len() ==> s[j] != '/',
        last_slash(s) >= -1,
    decreases s.len(),
{
    if s.len() == 0 {
    } else if s.last() == '/' {
    } else {
        lemma_last_slash(s.drop_last());
        let ls = last_slash(s);
        assert(ls == last_slash(s.drop_last()));
        if ls >= 0 {
            assert(s.drop_last()[ls] == s[ls]);
            assert forall|j: int| ls < j < s.len() implies s[j] != '/' by {
                if j < s.len() - 1 {
                    assert(s.drop_last()[j] == s[j]);
                }
            }
        } else {
            assert forall|j: int| 0 <= j < s.len() implies s[j] != '/' by {
                if j < s.len() - 1 {
                    assert(s.drop_last()[j] == s[j]);
                }
            }
        }
    }
}

/// `path` with its final component (everything after the last `/`)
/// replaced by `file_name`; `file_name` alone when `path` has no `/`.
pub open spec fn set_file_name_spec(path: Seq<char>, file_name: Seq<char>) -> Seq<char> {
    if last_slash(path) >= 0 {
        path.subrange(0, last_slash(path) + 1) + file_name
    } else {
        file_name
    }
}

/// Replaces the file-name component of `path` with `file_name`, keeping
/// the directory of `path`.
pub fn set_file_name(path: &str, file_name: &str) -> (r: String)
    ensures
        r@ == set_file_name_spec(path@, file_name@),
{
    proof {
        lemma_last_slash(path@);
    }
    let n: usize = path.unicode_len();
    let mut i: usize = n;
    while i > 0
        invariant
            i <= n,
            n == path@.len(),
            forall|j: int| i <= j < n ==> path@[j] != '/',
        decreases i,
    {
        if path.get_char(i - 1) == '/' {
            proof {
                lemma_last_slash(path@);
                let ls = last_slash(path@);
                if ls < i - 1 {
                    assert(path@[i - 1] != '/');
                }
                if ls > i - 1 {
                    assert(path@[ls] != '/');
                }
                assert(ls == i - 1);
            }
            let head: &str = path.substring_char(0, i);
            let mut out: String = head.to_owned();
            out.append(file_name);
            return out;
        }
        i = i - 1;
    }
    proof {
        lemma_last_slash(path@);
        if last_slash(path@) >= 0 {
            assert(path@[last_slash(path@)] != '/');
        }
    }
    file_name.to_owned()
}

// ---------------------------------------------------------------------------
// The aggregate state and what one merge step does to it.
// ---------------------------------------------------------------------------

/// A chunk of the merged archive: which segment holds it, and where its
/// bytes lie in that segment's stream.
#[derive(Clone, Copy, Debug)]
pub struct MergedChunk {
    /// Index of the owning segment, in load order
    pub seg: usize,
    /// Absolute byte offset within the owning segment's stream
    pub offset: u64,
    /// Byte length
    pub size: u64,
}

impl View for MergedChunk {
    type V = MergedChunk;

    open spec fn view(&self) -> MergedChunk {
        *self
    }
}

impl MergedChunk {
    /// Creates a new `MergedChunk`.
    pub fn new(offset: u64, size: u64, seg: usize) -> (r: MergedChunk)
        ensures
            r == (MergedChunk { seg, offset, size }),
    {
        MergedChunk { seg, offset, size }
    }

    /// Reads the chunk's bytes out of its owning segment's stream: exactly
    /// `size` bytes starting at `offset`, or a truncation error when the
    /// stream is too short.
    pub fn data(&self, segment: &Vec<u8>) -> (r: Result<Vec<u8>, PakError>)
        ensures
            match r {
                Ok(bytes) => self.offset + self.size <= segment@.len()
                    && bytes@ == segment@.subrange(
                        self.offset as int,
                        self.offset + self.size,
                    ),
                Err(e) => e == PakError::TruncatedStream
                    && self.offset + self.size > segment@.len(),
            },
    {
        let len: u64 = segment.len() as u64;
        if self.offset > len || self.size > len - self.offset {
            return Err(PakError::TruncatedStream);
        }
        let start: usize = self.offset as usize;
        let cnt: usize = self.size as usize;
        let mut out: Vec<u8> = Vec::new();
        let mut i: usize = 0;
        while i < cnt
            invariant
                i <= cnt,
                start + cnt <= segment@.len(),
                segment@.len() <= usize::MAX,
                out@ == segment@.subrange(start as int, start as int + i as int),
            decreases cnt - i,
        {
            out.push(segment[start + i]);
            proof {
                assert(out@ =~= segment@.subrange(start as int, start as int + i as int + 1));
            }
            i = i + 1;
        }
        Ok(out)
    }
}

/// The mathematical state of a merge in progress.
#[verifier::ext_equal]
pub struct MergeStateV {
    /// The initial archive path, which every link resolves against
    pub initial: Seq<char>,
    /// Paths of segments still to load, in order
    pub queue: Seq<Seq<char>>,
    /// The streams of the segments loaded so far, in load order
    pub segments: Seq<Seq<u8>>,
    /// The aggregate chunk namespace
    pub chunks: Map<Seq<char>, MergedChunk>,
    /// The aggregate property map
    pub props: Map<Seq<char>, Seq<char>>,
    /// Paths already loaded: a queued path among them is skipped, so a
    /// chain that links back to an earlier segment still terminates
    pub loaded: Set<Seq<char>>,
}

/// The starting state: only the initial path is queued.
pub open spec fn init_state(initial: Seq<char>) -> MergeStateV {
    MergeStateV {
        initial,
        queue: seq![initial],
        segments: seq![],
        chunks: Map::empty(),
        props: Map::empty(),
        loaded: Set::empty(),
    }
}

/// The queue with every already-loaded path dropped from its front.
pub open spec fn skip_visited(q: Seq<Seq<char>>, loaded: Set<Seq<char>>) -> Seq<Seq<char>>
    decreases q.len(),
{
    if q.len() == 0 {
        q
    } else if loaded.contains(q[0]) {
        skip_visited(q.drop_first(), loaded)
    } else {
        q
    }
}

/// A parsed chunk record placed at its absolute position: the segment's
/// data-region base plus the record's relative offset, with wrap-around
/// arithmetic.
pub open spec fn rebase_chunk(c: crate::raw::ChunkV, base: u64, seg: usize) -> MergedChunk {
    MergedChunk {
        seg,
        offset: vstd::wrapping::u64_specs::wrapping_add(base, c.offset as u64),
        size: c.size as u64,
    }
}

/// A whole chunk table rebased to absolute positions in segment `seg`.
pub open spec fn rebase_chunks(
    cm: Map<Seq<char>, crate::raw::ChunkV>,
    base: u64,
    seg: usize,
) -> Map<Seq<char>, MergedChunk> {
    cm.map_values(|c: crate::raw::ChunkV| rebase_chunk(c, base, seg))
}

/// A property table reduced to its values.
pub open spec fn prop_values(
    pm: Map<Seq<char>, crate::raw::PropertyV>,
) -> Map<Seq<char>, Seq<char>> {
    pm.map_values(|p: crate::raw::PropertyV| p.value)
}

/// The paths a segment's `link` property enqueues, resolved against the
/// initial archive path.
pub open spec fn links_of(seg: SegV, initial: Seq<char>) -> Seq<Seq<char>> {
    if seg.props.contains_key("link"@) {
        seq![set_file_name_spec(initial, seg.props["link"@].value)]
    } else {
        seq![]
    }
}

/// What loading the bytes of the front-most queued segment does to the
/// merge state: its chunks and properties override the aggregate's, and
/// its link, if any, is enqueued.
pub open spec fn feed_step(st: MergeStateV, bytes: Seq<u8>) -> Result<MergeStateV, PakError> {
    match seg_model(bytes) {
        Err(e) => Err(e),
        Ok(seg) => Ok(MergeStateV {
            initial: st.initial,
            queue: st.queue.drop_first() + links_of(seg, st.initial),
            segments: st.segments.push(bytes),
            chunks: st.chunks.union_prefer_right(
                rebase_chunks(seg.chunks, seg.info.offset, st.segments.len() as usize),
            ),
            props: st.props.union_prefer_right(prop_values(seg.props)),
            loaded: st.loaded.insert(st.queue[0]),
        }),
    }
}

/// What a whole merge yields within `fuel` segment loads: the final state,
/// the first error, or `None` when `fuel` loads are not enough.  Queued
/// paths that were loaded before are skipped.
pub open spec fn merge_fuel(
    store: Map<Seq<char>, Seq<u8>>,
    st: MergeStateV,
    fuel: nat,
) -> Option<Result<MergeStateV, PakError>>
    decreases fuel,
{
    let st1 = MergeStateV { queue: skip_visited(st.queue, st.loaded), ..st };
    if st1.queue.len() == 0 {
        Some(Ok(st1))
    } else if fuel == 0 {
        None
    } else if !store.contains_key(st1.queue[0]) {
        Some(Err(PakError::IoFailure))
    } else {
        match feed_step(st1, store[st1.queue[0]]) {
            Err(e) => Some(Err(e)),
            Ok(st2) => merge_fuel(store, st2, (fuel - 1) as nat),
        }
    }
}

// ---------------------------------------------------------------------------
// The merge engine.
// ---------------------------------------------------------------------------

/// The merge in progress: the queue of segment paths still to load and
/// the aggregate built so far.  The caller feeds it each queued segment's
/// bytes in turn.
pub struct Merger {
    initial: String,
    queue: Vec<String>,
    visited: Vec<String>,
    segments: Vec<Vec<u8>>,
    chunks: StringMap<MergedChunk>,
    properties: StringMap<String>,
}

/// The views of a vector of strings.
pub open spec fn names_of(v: Seq<String>) -> Seq<Seq<char>> {
    Seq::new(v.len(), |i: int| v[i]@)
}

impl View for Merger {
    type V = MergeStateV;

    closed spec fn view(&self) -> MergeStateV {
        MergeStateV {
            initial: self.initial@,
            queue: names_of(self.queue@),
            segments: Seq::new(self.segments@.len(), |i: int| self.segments@[i]@),
            chunks: self.chunks@,
            props: self.properties@,
            loaded: names_of(self.visited@).to_set(),
        }
    }
}

/// Appending a name adds it to the set of names.
proof fn lemma_to_set_push(s: Seq<Seq<char>>, x: Seq<char>)
    ensures
        s.push(x).to_set() == s.to_set().insert(x),
{
    assert forall|y: Seq<char>| s.push(x).to_set().contains(y)
        implies s.to_set().insert(x).contains(y)
    by {
        let i = choose|i: int| 0 <= i < s.push(x).len() && s.push(x)[i] == y;
        if i < s.len() {
            assert(s[i] == y);
            assert(s.contains(y));
        }
    }
    assert forall|y: Seq<char>| s.to_set().insert(x).contains(y)
        implies s.push(x).to_set().contains(y)
    by {
        if s.contains(y) {
            let i = choose|i: int| 0 <= i < s.len() && s[i] == y;
            assert(s.push(x)[i] == y);
            assert(s.push(x).contains(y));
        } else {
            assert(s.push(x)[s.len() as int] == x);
            assert(s.push(x).contains(x));
        }
    }
    assert(s.push(x).to_set() =~= s.to_set().insert(x));
}

/// Whether `s` occurs among the names of `v`.
fn contains_name(v: &Vec<String>, s: &str) -> (r: bool)
    ensures
        r == names_of(v@).to_set().contains(s@),
{
    let mut i: usize = 0;
    while i < v.len()
        invariant
            i <= v@.len(),
            forall|j: int| 0 <= j < i ==> names_of(v@)[j] != s@,
        decreases v@.len() - i,
    {
        if str_eq(v[i].as_str(), s) {
            assert(names_of(v@)[i as int] == s@);
            assert(names_of(v@).contains(s@));
            return true;
        }
        i = i + 1;
    }
    proof {
        assert(forall|j: int| 0 <= j < names_of(v@).len() ==> names_of(v@)[j] != s@);
        assert(!names_of(v@).contains(s@));
    }
    false
}

impl Merger {
    #[verifier::type_invariant]
    spec fn inv(&self) -> bool {
        forall|k: Seq<char>| self.chunks@.contains_key(k)
            ==> (#[trigger] self.chunks@[k]).seg < self.segments@.len()
    }

    /// Starts a merge at `initial`: the queue holds exactly that path.
    pub fn new(initial: String) -> (r: Merger)
        ensures
            r@ == init_state(initial@),
    {
        let mut queue: Vec<String> = Vec::new();
        queue.push(initial.clone());
        let r = Merger {
            initial,
            queue,
            visited: Vec::new(),
            segments: Vec::new(),
            chunks: StringMap::new(),
            properties: StringMap::new(),
        };
        proof {
            assert(r@.queue =~= seq![r.initial@]);
            assert(r@.segments =~= Seq::<Seq<u8>>::empty());
            assert(r@.loaded =~= Set::<Seq<char>>::empty());
            assert(r@ =~= init_state(r.initial@));
        }
        r
    }

    /// The path of the next segment still to load, if any: already-loaded
    /// paths are dropped from the front of the queue.
    pub fn next_path(&mut self) -> (r: Option<String>)
        ensures
            final(self)@ == (MergeStateV {
                queue: skip_visited(old(self)@.queue, old(self)@.loaded),
                ..old(self)@
            }),
            match r {
                Some(p) => final(self)@.queue.len() > 0 && p@ == final(self)@.queue[0]
                    && !final(self)@.loaded.contains(p@),
                None => final(self)@.queue.len() == 0,
            },
    {
        proof {
            use_type_invariant(&*self);
        }
        let ghost q0 = names_of(old(self).queue@);
        let ghost loaded = names_of(self.visited@).to_set();
        let mut queue: Vec<String> = Vec::new();
        std::mem::swap(&mut queue, &mut self.queue);
        loop
            invariant
                skip_visited(q0, loaded) == skip_visited(names_of(queue@), loaded),
                loaded == names_of(self.visited@).to_set(),
            ensures
                names_of(queue@) == skip_visited(q0, loaded),
                queue@.len() > 0 ==> !loaded.contains(names_of(queue@)[0]),
            decreases queue@.len(),
        {
            if queue.len() == 0 {
                proof {
                    assert(names_of(queue@).len() == 0);
                    assert(skip_visited(names_of(queue@), loaded) == names_of(queue@));
                }
                break;
            }
            if !contains_name(&self.visited, queue[0].as_str()) {
                proof {
                    assert(names_of(queue@)[0] == queue@[0]@);
                    assert(skip_visited(names_of(queue@), loaded) == names_of(queue@));
                }
                break;
            }
            let ghost qv = names_of(queue@);
            let _skipped: String = queue.remove(0);
            proof {
                assert(loaded.contains(qv[0]));
                assert(names_of(queue@) =~= qv.drop_first());
            }
        }
        let r: Option<String> = if queue.len() > 0 {
            Some(queue[0].clone())
        } else {
            None
        };
        self.queue = queue;
        proof {
            assert(final(self)@ =~= (MergeStateV {
                queue: skip_visited(old(self)@.queue, old(self)@.loaded),
                ..old(self)@
            }));
        }
        r
    }

    /// Loads `bytes` as the front-most queued segment and merges it: its
    /// chunks are rebased to absolute offsets and placed under this
    /// segment's stream; its properties override the aggregate's; a `link`
    /// property enqueues the next path.  A parse failure changes nothing.
    pub fn feed(&mut self, bytes: Vec<u8>) -> (r: Result<(), PakError>)
        requires
            old(self)@.queue.len() > 0,
        ensures
            match r {
                Ok(()) => feed_step(old(self)@, bytes@) == Ok::<MergeStateV, PakError>(
                    final(self)@,
                ),
                Err(e) => feed_step(old(self)@, bytes@) == Err::<MergeStateV, PakError>(e)
                    && final(self)@ == old(self)@,
            },
    {
        let ghost st0 = old(self)@;
        let mut stream = PakStream::new(bytes);
        let parsed: (crate::raw::Info, StringMap<Chunk>, StringMap<Property>) =
            match load_segment(&mut stream) {
            Ok(t) => t,
            Err(e) => {
                return Err(e);
            },
        };
        let info = parsed.0;
        let cm = parsed.1;
        let pm = parsed.2;
        let seg_bytes: Vec<u8> = stream.into_bytes();
        let ghost seg = (SegV { info: info, chunks: cm@, props: pm@ });
        proof {
            use_type_invariant(&*self);
        }
        let mut chunks: StringMap<MergedChunk> = StringMap::new();
        std::mem::swap(&mut chunks, &mut self.chunks);
        let mut segments: Vec<Vec<u8>> = Vec::new();
        std::mem::swap(&mut segments, &mut self.segments);
        let mut queue: Vec<String> = Vec::new();
        std::mem::swap(&mut queue, &mut self.queue);
        let mut visited: Vec<String> = Vec::new();
        std::mem::swap(&mut visited, &mut self.visited);
        let mut properties: StringMap<String> = StringMap::new();
        std::mem::swap(&mut properties, &mut self.properties);

        let ghost visited0 = names_of(visited@);
        let loaded_path: String = queue.remove(0);
        visited.push(loaded_path);
        proof {
            assert(names_of(visited@) =~= visited0.push(st0.queue[0]));
            lemma_to_set_push(visited0, st0.queue[0]);
        }
        let idx: usize = segments.len();
        let base: u64 = info.offset;
        segments.push(seg_bytes);

        let ghost chunks0 = chunks@;
        let n: usize = cm.entry_count();
        let mut k: usize = 0;
        while k < n
            invariant
                k <= n,
                n == cm.entry_seq().len(),
                distinct_keys(cm.entry_seq()),
                cm@ == assoc_map(cm.entry_seq()),
                chunks@ == chunks0.union_prefer_right(
                    rebase_chunks(assoc_map(cm.entry_seq().subrange(0, k as int)), base, idx),
                ),
            decreases n - k,
        {
            let name: String = cm.key_at(k).clone();
            let c: &Chunk = cm.value_at(k);
            let mc = MergedChunk {
                seg: idx,
                offset: base.wrapping_add(#[verifier::truncate] (c.offset as u64)),
                size: #[verifier::truncate] (c.size as u64),
            };
            chunks.insert(name, mc);
            proof {
                lemma_assoc_prefix(cm.entry_seq(), k as int);
                let prev = assoc_map(cm.entry_seq().subrange(0, k as int));
                let entry = cm.entry_seq()[k as int];
                assert(mc == rebase_chunk(entry.1, base, idx));
                assert(rebase_chunks(prev.insert(entry.0, entry.1), base, idx)
                    =~= rebase_chunks(prev, base, idx).insert(
                        entry.0,
                        rebase_chunk(entry.1, base, idx),
                    ));
                assert(chunks@ =~= chunks0.union_prefer_right(
                    rebase_chunks(
                        assoc_map(cm.entry_seq().subrange(0, k as int + 1)),
                        base,
                        idx,
                    ),
                ));
            }
            k = k + 1;
        }
        proof {
            assert(cm.entry_seq().subrange(0, n as int) =~= cm.entry_seq());
            assert(chunks@ == chunks0.union_prefer_right(
                rebase_chunks(seg.chunks, base, idx),
            ));
        }

        let ghost props0 = properties@;
        let ghost queue0 = names_of(queue@);
        proof {
            assert(queue0 =~= st0.queue.drop_first());
        }
        let m: usize = pm.entry_count();
        let mut j: usize = 0;
        while j < m
            invariant
                j <= m,
                m == pm.entry_seq().len(),
                distinct_keys(pm.entry_seq()),
                pm@ == assoc_map(pm.entry_seq()),
                self.initial@ == st0.initial,
                properties@ == props0.union_prefer_right(
                    prop_values(assoc_map(pm.entry_seq().subrange(0, j as int))),
                ),
                ({
                    let part = assoc_map(pm.entry_seq().subrange(0, j as int));
                    Seq::new(queue@.len(), |i: int| queue@[i]@) == queue0 + (
                    if part.contains_key("link"@) {
                        seq![set_file_name_spec(st0.initial, part["link"@].value)]
                    } else {
                        Seq::<Seq<char>>::empty()
                    })
                }),
            decreases m - j,
        {
            let ghost part = assoc_map(pm.entry_seq().subrange(0, j as int));
            let key: String = pm.key_at(j).clone();
            let p: &Property = pm.value_at(j);
            let value: String = p.value.clone();
            proof {
                lemma_assoc_prefix(pm.entry_seq(), j as int);
            }
            if str_eq(key.as_str(), "link") {
                let next: String = set_file_name(self.initial.as_str(), value.as_str());
                queue.push(next);
                proof {
                    lemma_assoc_contains(pm.entry_seq().subrange(0, j as int), "link"@);
                    assert(!part.contains_key("link"@));
                    assert(Seq::new(queue@.len(), |i: int| queue@[i]@) =~= queue0 + seq![
                        set_file_name_spec(st0.initial, pm.entry_seq()[j as int].1.value),
                    ]);
                }
            } else {
                proof {
                    let part2 = assoc_map(pm.entry_seq().subrange(0, j as int + 1));
                    assert(part2.contains_key("link"@) == part.contains_key("link"@));
                    if part.contains_key("link"@) {
                        assert(part2["link"@] == part["link"@]);
                    }
                }
            }
            properties.insert(key, value);
            proof {
                let entry = pm.entry_seq()[j as int];
                let part = assoc_map(pm.entry_seq().subrange(0, j as int));
                assert(prop_values(part.insert(entry.0, entry.1))
                    =~= prop_values(part).insert(entry.0, entry.1.value));
                assert(properties@ =~= props0.union_prefer_right(
                    prop_values(assoc_map(pm.entry_seq().subrange(0, j as int + 1))),
                ));
            }
            j = j + 1;
        }
        proof {
            assert(pm.entry_seq().subrange(0, m as int) =~= pm.entry_seq());
        }

        self.segments = segments;
        self.queue = queue;
        self.visited = visited;
        self.properties = properties;
        proof {
            assert(forall|k2: Seq<char>| chunks@.contains_key(k2)
                ==> (#[trigger] chunks@[k2]).seg < self.segments@.len());
        }
        self.chunks = chunks;
        proof {
            let st2 = MergeStateV {
                initial: st0.initial,
                queue: st0.queue.drop_first() + links_of(seg, st0.initial),
                segments: st0.segments.push(seg_bytes@),
                chunks: st0.chunks.union_prefer_right(
                    rebase_chunks(seg.chunks, seg.info.offset, st0.segments.len() as usize),
                ),
                props: st0.props.union_prefer_right(prop_values(seg.props)),
                loaded: st0.loaded.insert(st0.queue[0]),
            };
            assert(self@.queue =~= st2.queue);
            assert(self@.segments =~= st2.segments);
            assert(self@ =~= st2);
        }
        Ok(())
    }

    /// Hands the finished aggregate over once the queue is empty.
    pub fn finish(self) -> (r: MergeReader)
        requires
            self@.queue.len() == 0,
        ensures
            r@ == reader_of(self@),
    {
        proof {
            use_type_invariant(&self);
        }
        let Merger { initial: _, queue: _, visited: _, segments, chunks, properties } = self;
        MergeReader { segments, chunks, properties }
    }
}

// ---------------------------------------------------------------------------
// The merged archive.
// ---------------------------------------------------------------------------

/// The mathematical value of a merged archive.
#[verifier::ext_equal]
pub struct MergeReaderV {
    /// The streams of the loaded segments, in load order
    pub segments: Seq<Seq<u8>>,
    /// The aggregate chunk namespace
    pub chunks: Map<Seq<char>, MergedChunk>,
    /// The aggregate property map
    pub props: Map<Seq<char>, Seq<char>>,
}

/// The archive a finished merge state describes.
pub open spec fn reader_of(st: MergeStateV) -> MergeReaderV {
    MergeReaderV { segments: st.segments, chunks: st.chunks, props: st.props }
}

/// What a whole merge from `initial` yields within `fuel` segment loads.
pub open spec fn merge_result(
    store: Map<Seq<char>, Seq<u8>>,
    initial: Seq<char>,
    fuel: nat,
) -> Option<Result<MergeReaderV, PakError>> {
    match merge_fuel(store, init_state(initial), fuel) {
        None => None,
        Some(Ok(st)) => Some(Ok(reader_of(st))),
        Some(Err(e)) => Some(Err(e)),
    }
}

/// A merged archive: every chunk of every segment of the chain, under one
/// namespace, with the segments' streams kept for lazy reads.
pub struct MergeReader {
    segments: Vec<Vec<u8>>,
    chunks: StringMap<MergedChunk>,
    properties: StringMap<String>,
}

impl View for MergeReader {
    type V = MergeReaderV;

    closed spec fn view(&self) -> MergeReaderV {
        MergeReaderV {
            segments: Seq::new(self.segments@.len(), |i: int| self.segments@[i]@),
            chunks: self.chunks@,
            props: self.properties@,
        }
    }
}

/// Whether a chunk's byte range lies within its owning segment.
pub open spec fn chunk_in_bounds(c: MergedChunk, segs: Seq<Seq<u8>>) -> bool {
    c.seg < segs.len() && c.offset + c.size <= segs[c.seg as int].len()
}

/// A chunk's bytes within its owning segment.
pub open spec fn chunk_data(c: MergedChunk, segs: Seq<Seq<u8>>) -> Seq<u8> {
    segs[c.seg as int].subrange(c.offset as int, c.offset + c.size)
}

/// A copy of a byte buffer.
fn clone_bytes(v: &Vec<u8>) -> (r: Vec<u8>)
    ensures
        r@ == v@,
{
    let mut out: Vec<u8> = Vec::new();
    let mut i: usize = 0;
    while i < v.len()
        invariant
            i <= v@.len(),
            out@ == v@.subrange(0, i as int),
        decreases v@.len() - i,
    {
        out.push(v[i]);
        proof {
            assert(out@ =~= v@.subrange(0, i as int + 1));
        }
        i = i + 1;
    }
    proof {
        assert(out@ =~= v@);
    }
    out
}

impl MergeReader {
    #[verifier::type_invariant]
    spec fn inv(&self) -> bool {
        forall|k: Seq<char>| self.chunks@.contains_key(k)
            ==> (#[trigger] self.chunks@[k]).seg < self.segments@.len()
    }

    /// Merges the chain that starts at `initial`, reading every segment's
    /// bytes from `store`.  A path absent from the store fails the whole
    /// merge, as does the first parse error.
    pub fn merge(initial: &str, store: &StringMap<Vec<u8>>) -> (r: Result<
        MergeReader,
        PakError,
    >)
        ensures
            match r {
                Ok(reader) => exists|n: nat|
                    merge_result(store@, initial@, n)
                        == Some(Ok::<MergeReaderV, PakError>(reader@)),
                Err(e) => exists|n: nat|
                    merge_result(store@, initial@, n)
                        == Some(Err::<MergeReaderV, PakError>(e)),
            },
    {
        let mut m: Merger = Merger::new(initial.to_owned());
        let ghost mut steps: nat = 0nat;
        let _count: usize = store.entry_count();
        loop
            invariant
                m@.initial == initial@,
                store@.dom().finite(),
                forall|f: nat| merge_fuel(store@, m@, f)
                    == merge_fuel(store@, init_state(initial@), (f + steps) as nat),
            ensures
                m@.queue.len() == 0,
                forall|f: nat| merge_fuel(store@, m@, f)
                    == merge_fuel(store@, init_state(initial@), (f + steps) as nat),
            decreases store@.dom().difference(m@.loaded).len(),
        {
            let ghost before = m@;
            let next: Option<String> = m.next_path();
            proof {
                assert(skip_visited(m@.queue, m@.loaded) == m@.queue);
                assert forall|f: nat| merge_fuel(store@, m@, f)
                    == merge_fuel(store@, init_state(initial@), (f + steps) as nat)
                by {
                    assert((MergeStateV {
                        queue: skip_visited(before.queue, before.loaded),
                        ..before
                    }) =~= (MergeStateV { queue: skip_visited(m@.queue, m@.loaded), ..m@ }));
                    assert(merge_fuel(store@, before, f) == merge_fuel(store@, m@, f));
                }
            }
            let p: String = match next {
                Some(p) => p,
                None => {
                    break;
                },
            };
            let bytes: Vec<u8> = match store.get(p.as_str()) {
                Some(b) => clone_bytes(b),
                None => {
                    proof {
                        assert(merge_fuel(store@, m@, 1nat)
                            == Some(Err::<MergeStateV, PakError>(PakError::IoFailure)));
                        assert(merge_fuel(store@, init_state(initial@), (1 + steps) as nat)
                            == Some(Err::<MergeStateV, PakError>(PakError::IoFailure)));
                        assert(merge_result(store@, initial@, (1 + steps) as nat)
                            == Some(Err::<MergeReaderV, PakError>(PakError::IoFailure)));
                    }
                    return Err(PakError::IoFailure);
                },
            };
            let ghost prev = m@;
            match m.feed(bytes) {
                Ok(()) => {
                    proof {
                        steps = steps + 1;
                        assert forall|f: nat| merge_fuel(store@, m@, f)
                            == merge_fuel(store@, init_state(initial@), (f + steps) as nat)
                        by {
                            assert(merge_fuel(store@, prev, (f + 1) as nat)
                                == merge_fuel(
                                    store@,
                                    init_state(initial@),
                                    ((f + 1) + (steps - 1)) as nat,
                                ));
                            assert((MergeStateV {
                                queue: skip_visited(prev.queue, prev.loaded),
                                ..prev
                            }) =~= prev);
                            assert(merge_fuel(store@, prev, (f + 1) as nat)
                                == merge_fuel(store@, m@, f));
                        }
                        assert(store@.dom().difference(m@.loaded)
                            =~= store@.dom().difference(prev.loaded).remove(p@));
                        assert(store@.dom().difference(prev.loaded).contains(p@));
                    }
                },
                Err(e) => {
                    proof {
                        assert((MergeStateV {
                            queue: skip_visited(m@.queue, m@.loaded),
                            ..m@
                        }) =~= m@);
                        assert(merge_fuel(store@, m@, 1nat)
                            == Some(Err::<MergeStateV, PakError>(e)));
                        assert(merge_result(store@, initial@, (1 + steps) as nat)
                            == Some(Err::<MergeReaderV, PakError>(e)));
                    }
                    return Err(e);
                },
            }
        }
        proof {
            assert((MergeStateV { queue: skip_visited(m@.queue, m@.loaded), ..m@ }) =~= m@);
            assert(merge_fuel(store@, m@, 0nat) == Some(Ok::<MergeStateV, PakError>(m@)));
            assert(merge_fuel(store@, init_state(initial@), steps)
                == Some(Ok::<MergeStateV, PakError>(m@)));
        }
        let reader: MergeReader = m.finish();
        proof {
            assert(merge_result(store@, initial@, steps)
                == Some(Ok::<MergeReaderV, PakError>(reader@)));
        }
        Ok(reader)
    }

    /// Looks a logical file name up and reads its bytes: `NotFound` for an
    /// absent name, the chunk's exact byte range otherwise.
    pub fn read_file(&self, full_file_name: &str) -> (r: Result<Vec<u8>, PakError>)
        ensures
            match r {
                Ok(bytes) => self@.chunks.contains_key(full_file_name@)
                    && chunk_in_bounds(self@.chunks[full_file_name@], self@.segments)
                    && bytes@ == chunk_data(self@.chunks[full_file_name@], self@.segments),
                Err(e) => if self@.chunks.contains_key(full_file_name@) {
                    e == PakError::TruncatedStream
                        && !chunk_in_bounds(self@.chunks[full_file_name@], self@.segments)
                } else {
                    e == PakError::NotFound
                },
            },
    {
        proof {
            use_type_invariant(&*self);
        }
        let c: MergedChunk = match self.chunks.get(full_file_name) {
            Some(c) => *c,
            None => {
                return Err(PakError::NotFound);
            },
        };
        c.data(&self.segments[c.seg])
    }

    /// The full aggregate chunk set, as name/chunk pairs with distinct
    /// names: one pair for each name of the merged namespace.
    pub fn iter(&self) -> (r: Vec<(String, MergedChunk)>)
        ensures
            forall|i: int| 0 <= i < r@.len()
                ==> self@.chunks.contains_key((#[trigger] r@[i]).0@)
                    && self@.chunks[r@[i].0@] == r@[i].1,
            forall|k: Seq<char>| #[trigger] self@.chunks.contains_key(k)
                ==> exists|i: int| 0 <= i < r@.len() && r@[i].0@ == k,
            forall|i: int, j: int| 0 <= i < j < r@.len() ==> r@[i].0@ != r@[j].0@,
    {
        let n: usize = self.chunks.entry_count();
        let mut out: Vec<(String, MergedChunk)> = Vec::new();
        let mut i: usize = 0;
        while i < n
            invariant
                i <= n,
                n == self.chunks.entry_seq().len(),
                distinct_keys(self.chunks.entry_seq()),
                self@.chunks == assoc_map(self.chunks.entry_seq()),
                out@.len() == i,
                forall|j: int| 0 <= j < i ==> (#[trigger] out@[j]).0@
                    == self.chunks.entry_seq()[j].0
                    && out@[j].1 == self.chunks.entry_seq()[j].1,
            decreases n - i,
        {
            let name: String = self.chunks.key_at(i).clone();
            let c: MergedChunk = *self.chunks.value_at(i);
            out.push((name, c));
            i = i + 1;
        }
        proof {
            assert forall|j: int| 0 <= j < out@.len() implies
                self@.chunks.contains_key((#[trigger] out@[j]).0@)
                && self@.chunks[out@[j].0@] == out@[j].1
            by {
                lemma_assoc_get(self.chunks.entry_seq(), j);
            }
            assert forall|k: Seq<char>| #[trigger] self@.chunks.contains_key(k) implies
                exists|j: int| 0 <= j < out@.len() && out@[j].0@ == k
            by {
                lemma_assoc_contains(self.chunks.entry_seq(), k);
                let j = choose|j: int| 0 <= j < self.chunks.entry_seq().len()
                    && self.chunks.entry_seq()[j].0 == k;
                assert(out@[j].0@ == k);
            }
        }
        out
    }

    /// The aggregate property value under `key`, if any.
    pub fn property(&self, key: &str) -> (r: Option<&String>)
        ensures
            match r {
                Some(v) => self@.props.contains_key(key@) && v@ == self@.props[key@],
                None => !self@.props.contains_key(key@),
            },
    {
        self.properties.get(key)
    }
}

} // verus!
