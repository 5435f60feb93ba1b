//! A string-keyed map kept as an association list with pairwise-distinct
//! keys.  Inserting an existing key keeps the newest value, as the
//! archive's aggregate namespaces require.

use vstd::prelude::*;

verus! {

use vstd::utf8::{encode_utf8, decode_utf8};
use vstd::string::StrSliceExecFns;

/// Compares two strings by comparing their UTF-8 bytes.
pub fn str_eq(a: &str, b: &str) -> (r: bool)
    ensures
        r == (a@ == b@),
{
    let ab: Vec<u8> = a.as_bytes_vec();
    let bb: Vec<u8> = b.as_bytes_vec();
    proof {
        vstd::utf8::encode_utf8_decode_utf8(a@);
        vstd::utf8::encode_utf8_decode_utf8(b@);
    }
    if ab.len() != bb.len() {
        return false;
    }
    let mut i: usize = 0;
    while i < ab.len()
        invariant
            i <= ab.len(),
            ab.len() == bb.len(),
            ab@ == encode_utf8(a@),
            bb@ == encode_utf8(b@),
            decode_utf8(ab@) == a@,
            decode_utf8(bb@) == b@,
            forall|j: int| 0 <= j < i ==> ab@[j] == bb@[j],
        decreases ab.len() - i,
    {
        if ab[i] != bb[i] {
            return false;
        }
        i = i + 1;
    }
    proof {
        assert(ab@ =~= bb@);
    }
    true
}

/// The mapping described by an association list, later entries overriding
/// earlier ones.
pub open spec fn assoc_map<T>(s: Seq<(Seq<char>, T)>) -> Map<Seq<char>, T>
    decreases s.len(),
{
    if s.len() == 0 {
        Map::empty()
    } else {
        assoc_map(s.drop_last()).insert(s.last().0, s.last().1)
    }
}

/// Pairwise-distinct keys.
pub open spec fn distinct_keys<T>(s: Seq<(Seq<char>, T)>) -> bool {
    forall|i: int, j: int| 0 <= i < j < s.len() ==> s[i].0 != s[j].0
}

/// A key occurs in the described mapping exactly when some entry carries it.
pub proof fn lemma_assoc_contains<T>(s: Seq<(Seq<char>, T)>, k: Seq<char>)
    ensures
        assoc_map(s).contains_key(k) <==> exists|i: int| 0 <= i < s.len() && s[i].0 == k,
    decreases s.len(),
{
    if s.len() > 0 {
        lemma_assoc_contains(s.drop_last(), k);
        if assoc_map(s).contains_key(k) && s.last().0 != k {
            assert(assoc_map(s.drop_last()).contains_key(k));
        }
        if exists|i: int| 0 <= i < s.len() && s[i].0 == k {
            let i = choose|i: int| 0 <= i < s.len() && s[i].0 == k;
            if i < s.len() - 1 {
                assert(s.drop_last()[i].0 == k);
            }
        }
    }
}

/// With distinct keys, the entry holding a key gives its mapped value.
pub proof fn lemma_assoc_get<T>(s: Seq<(Seq<char>, T)>, idx: int)
    requires
        distinct_keys(s),
        0 <= idx < s.len(),
    ensures
        assoc_map(s).contains_key(s[idx].0),
        assoc_map(s)[s[idx].0] == s[idx].1,
    decreases s.len(),
{
    if idx == s.len() - 1 {
    } else {
        assert(distinct_keys(s.drop_last())) by {
            assert(forall|i: int, j: int|
                0 <= i < j < s.drop_last().len() ==> s.drop_last()[i].0 != s.drop_last()[j].0);
        }
        lemma_assoc_get(s.drop_last(), idx);
        assert(s[idx].0 != s.last().0);
    }
}

/// Appending one entry inserts its pair into the described mapping.
pub proof fn lemma_assoc_prefix<T>(s: Seq<(Seq<char>, T)>, i: int)
    requires
        0 <= i < s.len(),
    ensures
        assoc_map(s.subrange(0, i + 1)) == assoc_map(s.subrange(0, i)).insert(s[i].0, s[i].1),
{
    assert(s.subrange(0, i + 1).drop_last() =~= s.subrange(0, i));
    assert(s.subrange(0, i + 1).last() == s[i]);
}

/// Overwriting the entry that holds a key updates that key's mapped value.
proof fn lemma_assoc_update<T>(s: Seq<(Seq<char>, T)>, idx: int, v: T)
    requires
        distinct_keys(s),
        0 <= idx < s.len(),
    ensures
        assoc_map(s.update(idx, (s[idx].0, v))) == assoc_map(s).insert(s[idx].0, v),
    decreases s.len(),
{
    let k = s[idx].0;
    let t = s.update(idx, (k, v));
    if idx == s.len() - 1 {
        assert(t.drop_last() =~= s.drop_last());
        assert(t.last() == (k, v));
        assert(assoc_map(s.drop_last()).insert(k, v)
            =~= assoc_map(s.drop_last()).insert(k, s[idx].1).insert(k, v));
    } else {
        assert(distinct_keys(s.drop_last())) by {
            assert(forall|i: int, j: int|
                0 <= i < j < s.drop_last().len() ==> s.drop_last()[i].0 != s.drop_last()[j].0);
        }
        lemma_assoc_update(s.drop_last(), idx, v);
        assert(t.drop_last() =~= s.drop_last().update(idx, (k, v)));
        assert(t.last() == s.last());
        assert(k != s.last().0);
        assert(assoc_map(s.drop_last()).insert(k, v).insert(s.last().0, s.last().1)
            =~= assoc_map(s.drop_last()).insert(s.last().0, s.last().1).insert(k, v));
    }
}

/// The described mapping has finitely many keys.
proof fn lemma_assoc_finite<T>(s: Seq<(Seq<char>, T)>)
    ensures
        assoc_map(s).dom().finite(),
    decreases s.len(),
{
    if s.len() == 0 {
    } else {
        lemma_assoc_finite(s.drop_last());
        assert(assoc_map(s).dom() =~= assoc_map(s.drop_last()).dom().insert(s.last().0));
    }
}

/// A map from `String` keys to values, backed by a vector of entries with
/// pairwise-distinct keys.
pub struct StringMap<V> {
    entries: Vec<(String, V)>,
}

impl<V> StringMap<V> {
    #[verifier::type_invariant]
    spec fn wf(&self) -> bool {
        forall|i: int, j: int|
            0 <= i < j < self.entries@.len() ==> self.entries@[i].0@ != self.entries@[j].0@
    }
}

impl<V: View> View for StringMap<V> {
    type V = Map<Seq<char>, V::V>;

    closed spec fn view(&self) -> Map<Seq<char>, V::V> {
        assoc_map(self.entry_seq())
    }
}

impl<V: View> StringMap<V> {
    /// The entries in insertion order, as views.
    pub closed spec fn entry_seq(&self) -> Seq<(Seq<char>, V::V)> {
        Seq::new(self.entries@.len(), |i: int| (self.entries@[i].0@, self.entries@[i].1@))
    }

    /// Creates an empty map.
    pub fn new() -> (r: StringMap<V>)
        ensures
            r@ == Map::<Seq<char>, V::V>::empty(),
            r.entry_seq() == Seq::<(Seq<char>, V::V)>::empty(),
    {
        let r = StringMap { entries: Vec::new() };
        proof {
            assert(r.entry_seq() =~= Seq::<(Seq<char>, V::V)>::empty());
        }
        r
    }

    /// The number of entries.  Also surfaces what iteration may rely on:
    /// the map is the association list's mapping, and the keys are distinct.
    pub fn entry_count(&self) -> (r: usize)
        ensures
            r == self.entry_seq().len(),
            self@ == assoc_map(self.entry_seq()),
            distinct_keys(self.entry_seq()),
            self@.dom().finite(),
    {
        proof {
            use_type_invariant(self);
            lemma_assoc_finite(self.entry_seq());
        }
        self.entries.len()
    }

    /// The key of the entry at `i`.
    pub fn key_at(&self, i: usize) -> (r: &String)
        requires
            i < self.entry_seq().len(),
        ensures
            r@ == self.entry_seq()[i as int].0,
    {
        &self.entries[i].0
    }

    /// The value of the entry at `i`.
    pub fn value_at(&self, i: usize) -> (r: &V)
        requires
            i < self.entry_seq().len(),
        ensures
            r@ == self.entry_seq()[i as int].1,
    {
        &self.entries[i].1
    }

    /// Looks a key up.
    pub fn get(&self, key: &str) -> (r: Option<&V>)
        ensures
            match r {
                Some(v) => self@.contains_key(key@) && v@ == self@[key@],
                None => !self@.contains_key(key@),
            },
    {
        proof {
            use_type_invariant(self);
            assert(distinct_keys(self.entry_seq()));
        }
        let mut i: usize = 0;
        while i < self.entries.len()
            invariant
                i <= self.entries@.len(),
                forall|j: int| 0 <= j < i ==> self.entry_seq()[j].0 != key@,
                distinct_keys(self.entry_seq()),
            decreases self.entries@.len() - i,
        {
            if str_eq(self.entries[i].0.as_str(), key) {
                proof {
                    lemma_assoc_get(self.entry_seq(), i as int);
                }
                return Some(&self.entries[i].1);
            }
            i = i + 1;
        }
        proof {
            lemma_assoc_contains(self.entry_seq(), key@);
        }
        None
    }

    /// Inserts a pair, replacing any entry already carrying the key.
    pub fn insert(&mut self, key: String, value: V)
        ensures
            final(self)@ == old(self)@.insert(key@, value@),
    {
        proof {
            use_type_invariant(&*self);
            assert(distinct_keys(old(self).entry_seq()));
        }
        let mut entries: Vec<(String, V)> = Vec::new();
        std::mem::swap(&mut entries, &mut self.entries);
        let ghost s0 = old(self).entry_seq();
        let n: usize = entries.len();
        let mut i: usize = 0;
        let mut found: bool = false;
        while i < n
            invariant_except_break
                !found,
            invariant
                i <= n,
                n == entries@.len(),
                entries@ == old(self).entries@,
                forall|j: int| 0 <= j < i ==> s0[j].0 != key@,
                s0 == old(self).entry_seq(),
            ensures
                n == entries@.len(),
                entries@ == old(self).entries@,
                found ==> i < n && s0[i as int].0 == key@,
                !found ==> forall|j: int| 0 <= j < n ==> s0[j].0 != key@,
            decreases n - i,
        {
            if str_eq(entries[i].0.as_str(), key.as_str()) {
                found = true;
                break;
            }
            i = i + 1;
        }
        if found {
            let ghost kept = s0[i as int].0;
            entries.set(i, (key, value));
            proof {
                assert(kept == key@);
                lemma_assoc_update(s0, i as int, value@);
                assert(forall|a: int, b: int|
                    0 <= a < b < entries@.len() ==> entries@[a].0@ != entries@[b].0@) by {
                    assert(forall|m: int| 0 <= m < entries@.len() && m != i
                        ==> (#[trigger] entries@[m].0@) == s0[m].0);
                }
            }
            self.entries = entries;
            proof {
                assert(self.entry_seq() =~= s0.update(i as int, (key@, value@)));
                assert(self@ == old(self)@.insert(key@, value@));
            }
        } else {
            entries.push((key, value));
            proof {
                assert(forall|a: int, b: int|
                    0 <= a < b < entries@.len() ==> entries@[a].0@ != entries@[b].0@) by {
                    assert(forall|m: int| 0 <= m < entries@.len() - 1
                        ==> (#[trigger] entries@[m].0@) == s0[m].0);
                }
            }
            self.entries = entries;
            proof {
                assert(self.entry_seq() =~= s0.push((key@, value@)));
                assert(self.entry_seq().drop_last() =~= s0);
                assert(self@ =~= old(self)@.insert(key@, value@));
            }
        }
    }
}

} // verus!
