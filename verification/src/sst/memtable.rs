//! In-memory buffer for recent writes, kept sorted by key so that a flush
//! to an SSTable walks it in key order and a prefix scan is a range scan.
use crate::bytes::{
    bytes_eq, bytes_lt, is_prefix, lemma_lex_asymmetric, lemma_lex_irreflexive, lemma_lex_total,
    lemma_lex_transitive, lemma_prefix_range, lex_lt, prefix_successor, successor,
};
use vstd::prelude::*;

verus! {

/// A key and its value, as plain bytes.
pub type EntryView = (Seq<u8>, Seq<u8>);

/// Keys strictly increase.
pub open spec fn sorted_keys(s: Seq<EntryView>) -> bool {
    forall|i: int, j: int| 0 <= i < j < s.len() ==> lex_lt(#[trigger] s[i].0, #[trigger] s[j].0)
}

/// Whether some entry has key `k`.
pub open spec fn has_key(s: Seq<EntryView>, k: Seq<u8>) -> bool {
    exists|i: int| 0 <= i < s.len() && s[i].0 == k
}

/// A position holding key `k`, when there is one.
pub open spec fn key_index(s: Seq<EntryView>, k: Seq<u8>) -> int {
    choose|i: int| 0 <= i < s.len() && s[i].0 == k
}

/// The entries as a map from key to value.
pub open spec fn entries_map(s: Seq<EntryView>) -> Map<Seq<u8>, Seq<u8>> {
    Map::new(|k: Seq<u8>| has_key(s, k), |k: Seq<u8>| s[key_index(s, k)].1)
}

/// Bytes of all keys and values.
pub open spec fn total_size(s: Seq<EntryView>) -> nat
    decreases s.len(),
{
    if s.len() == 0 {
        0
    } else {
        total_size(s.drop_last()) + s.last().0.len() + s.last().1.len()
    }
}

/// The plain values of entries held as vectors.
pub open spec fn entry_views(v: Seq<(Vec<u8>, Vec<u8>)>) -> Seq<EntryView> {
    v.map_values(|e: (Vec<u8>, Vec<u8>)| (e.0@, e.1@))
}

/// The plain values of entries held as slices.
pub open spec fn slice_entry_views<'a>(v: Seq<(&'a [u8], &'a [u8])>) -> Seq<EntryView> {
    v.map_values(|e: (&'a [u8], &'a [u8])| (e.0@, e.1@))
}

/// The entries of `s` whose key starts with `prefix`: a contiguous run, since
/// keys are sorted.
pub open spec fn prefix_run(s: Seq<EntryView>, prefix: Seq<u8>, r: Seq<EntryView>) -> bool {
    exists|start: int, end: int|
        0 <= start <= end <= s.len() && r == s.subrange(start, end) && forall|i: int|
            0 <= i < s.len() ==> ((start <= i < end) == is_prefix(prefix, #[trigger] s[i].0))
}

pub proof fn lemma_total_size_concat(a: Seq<EntryView>, b: Seq<EntryView>)
    ensures
        total_size(a + b) == total_size(a) + total_size(b),
    decreases b.len(),
{
    if b.len() == 0 {
        assert(a + b =~= a);
    } else {
        assert((a + b).drop_last() =~= a + b.drop_last());
        lemma_total_size_concat(a, b.drop_last());
    }
}

pub proof fn lemma_total_size_single(e: EntryView)
    ensures
        total_size(seq![e]) == e.0.len() + e.1.len(),
{
    assert(seq![e].drop_last() =~= Seq::<EntryView>::empty());
    assert(seq![e].last() == e);
    assert(total_size(Seq::<EntryView>::empty()) == 0);
}

pub proof fn lemma_slice_views_push<'a>(v: Seq<(&'a [u8], &'a [u8])>, x: (&'a [u8], &'a [u8]))
    ensures
        slice_entry_views(v.push(x)) == slice_entry_views(v).push((x.0@, x.1@)),
{
    assert(slice_entry_views(v.push(x)) =~= slice_entry_views(v).push((x.0@, x.1@)));
}

pub proof fn lemma_entry_views_push(v: Seq<(Vec<u8>, Vec<u8>)>, x: (Vec<u8>, Vec<u8>))
    ensures
        entry_views(v.push(x)) == entry_views(v).push((x.0@, x.1@)),
{
    assert(entry_views(v.push(x)) =~= entry_views(v).push((x.0@, x.1@)));
}

/// Sorted keys are distinct, so the map gives each entry's own value.
pub proof fn lemma_map_of_sorted(s: Seq<EntryView>, i: int)
    requires
        sorted_keys(s),
        0 <= i < s.len(),
    ensures
        entries_map(s).contains_key(s[i].0),
        entries_map(s)[s[i].0] == s[i].1,
{
    let k = s[i].0;
    assert(has_key(s, k));
    let j = key_index(s, k);
    if j != i {
        if j < i {
            assert(lex_lt(s[j].0, s[i].0));
        } else {
            assert(lex_lt(s[i].0, s[j].0));
        }
        lemma_lex_irreflexive(k);
    }
}

/// Replacing the value at the position of an existing key.
proof fn lemma_replace_entry(s: Seq<EntryView>, i: int, key: Seq<u8>, value: Seq<u8>)
    requires
        sorted_keys(s),
        0 <= i < s.len(),
        s[i].0 == key,
    ensures
        sorted_keys(s.update(i, (key, value))),
        entries_map(s.update(i, (key, value))) == entries_map(s).insert(key, value),
        total_size(s.update(i, (key, value))) == total_size(s) - s[i].1.len() + value.len(),
        total_size(s) >= s[i].0.len() + s[i].1.len(),
{
    let t = s.update(i, (key, value));
    let e_old = s[i];
    let pre = s.subrange(0, i);
    let post = s.subrange(i + 1, s.len() as int);
    assert(s =~= pre + seq![e_old] + post);
    assert(t =~= pre + seq![(key, value)] + post);
    lemma_total_size_concat(pre + seq![e_old], post);
    lemma_total_size_concat(pre, seq![e_old]);
    lemma_total_size_concat(pre + seq![(key, value)], post);
    lemma_total_size_concat(pre, seq![(key, value)]);
    lemma_total_size_single(e_old);
    lemma_total_size_single((key, value));
    assert(sorted_keys(t)) by {
        assert forall|a: int, b: int| 0 <= a < b < t.len() implies lex_lt(
            #[trigger] t[a].0,
            #[trigger] t[b].0,
        ) by {
            assert(s[a].0 == t[a].0 && s[b].0 == t[b].0);
        }
    }
    assert(entries_map(t) =~= entries_map(s).insert(key, value)) by {
        assert forall|k2: Seq<u8>| #[trigger] entries_map(t).contains_key(k2)
            == entries_map(s).insert(key, value).contains_key(k2) by {
            if has_key(s, k2) {
                let j = key_index(s, k2);
                assert(t[j].0 == k2);
            }
            if has_key(t, k2) {
                let j = key_index(t, k2);
                assert(s[j].0 == k2);
            }
        }
        assert forall|k2: Seq<u8>| #[trigger] entries_map(t).contains_key(k2)
            implies entries_map(t)[k2] == entries_map(s).insert(key, value)[k2] by {
            let j = key_index(t, k2);
            lemma_map_of_sorted(t, j);
            lemma_map_of_sorted(s, j);
            if j != i {
                if j < i {
                    assert(lex_lt(s[j].0, s[i].0));
                } else {
                    assert(lex_lt(s[i].0, s[j].0));
                }
                lemma_lex_irreflexive(key);
            }
        }
    }
}

/// Inserting a new key at its sorted position.
proof fn lemma_insert_entry(s: Seq<EntryView>, i: int, key: Seq<u8>, value: Seq<u8>)
    requires
        sorted_keys(s),
        0 <= i <= s.len(),
        forall|j: int| 0 <= j < i ==> lex_lt(#[trigger] s[j].0, key),
        i < s.len() ==> !lex_lt(s[i].0, key) && s[i].0 != key,
    ensures
        ({
            let t = s.subrange(0, i) + seq![(key, value)] + s.subrange(i, s.len() as int);
            &&& sorted_keys(t)
            &&& entries_map(t) == entries_map(s).insert(key, value)
            &&& total_size(t) == total_size(s) + key.len() + value.len()
            &&& !entries_map(s).contains_key(key)
        }),
{
    let e = (key, value);
    let pre = s.subrange(0, i);
    let post = s.subrange(i, s.len() as int);
    let t = pre + seq![e] + post;
    if i < s.len() {
        lemma_lex_total(s[i].0, key);
    }
    assert forall|j: int| 0 <= j < s.len() implies s[j].0 != key by {
        if j < i {
            lemma_lex_irreflexive(key);
        } else if j > i {
            assert(lex_lt(s[i].0, s[j].0));
            if s[j].0 == key {
                lemma_lex_asymmetric(s[i].0, key);
            }
        }
    }
    assert(sorted_keys(t)) by {
        assert forall|a: int, b: int| 0 <= a < b < t.len() implies lex_lt(
            #[trigger] t[a].0,
            #[trigger] t[b].0,
        ) by {
            if a < i && b == i {
            } else if a < i && b > i {
                assert(t[b] == s[b - 1]);
                assert(t[a] == s[a]);
            } else if a == i {
                assert(t[b] == s[b - 1]);
                if b - 1 > i {
                    lemma_lex_transitive(key, s[i].0, s[b - 1].0);
                }
            } else if a > i {
                assert(t[a] == s[a - 1]);
                assert(t[b] == s[b - 1]);
            }
        }
    }
    lemma_total_size_concat(pre + seq![e], post);
    lemma_total_size_concat(pre, seq![e]);
    lemma_total_size_single(e);
    lemma_total_size_concat(pre, post);
    assert(s =~= pre + post);
    assert(entries_map(t) =~= entries_map(s).insert(key, value)) by {
        assert forall|k2: Seq<u8>| #[trigger] entries_map(t).contains_key(k2)
            == entries_map(s).insert(key, value).contains_key(k2) by {
            if has_key(s, k2) {
                let j = key_index(s, k2);
                if j < i {
                    assert(t[j].0 == k2);
                } else {
                    assert(t[j + 1].0 == k2);
                }
            }
            if k2 == key {
                assert(t[i].0 == k2);
            }
            if has_key(t, k2) {
                let j = key_index(t, k2);
                if j < i {
                    assert(s[j].0 == k2);
                } else if j > i {
                    assert(s[j - 1].0 == k2);
                }
            }
        }
        assert forall|k2: Seq<u8>| #[trigger] entries_map(t).contains_key(k2)
            implies entries_map(t)[k2] == entries_map(s).insert(key, value)[k2] by {
            let j = key_index(t, k2);
            lemma_map_of_sorted(t, j);
            if j < i {
                lemma_map_of_sorted(s, j);
            } else if j > i {
                lemma_map_of_sorted(s, j - 1);
            }
        }
    }
}

/// The first position of sorted `entries` whose key is not below `key`.
fn lower_bound_in(entries: &Vec<(Vec<u8>, Vec<u8>)>, key: &[u8]) -> (r: usize)
    requires
        sorted_keys(entry_views(entries@)),
    ensures
        r <= entries@.len(),
        forall|j: int| 0 <= j < r ==> lex_lt(#[trigger] entry_views(entries@)[j].0, key@),
        r < entries@.len() ==> !lex_lt(entry_views(entries@)[r as int].0, key@),
{
    let ghost s = entry_views(entries@);
    let mut i: usize = 0;
    while i < entries.len()
        invariant
            i <= entries.len(),
            s == entry_views(entries@),
            s.len() == entries@.len(),
            forall|j: int| 0 <= j < i ==> lex_lt(#[trigger] s[j].0, key@),
        decreases entries.len() - i,
    {
        proof {
            assert(s[i as int].0 == entries@[i as int].0@);
        }
        if !bytes_lt(entries[i].0.as_slice(), key) {
            return i;
        }
        i = i + 1;
    }
    i
}

/// Inserts into entries sorted by key, replacing the value of an existing
/// key; returns the value replaced.
pub(crate) fn upsert_sorted(entries: &mut Vec<(Vec<u8>, Vec<u8>)>, key: &[u8], value: Vec<u8>) -> (r: Option<Vec<u8>>)
    requires
        sorted_keys(entry_views(old(entries)@)),
    ensures
        sorted_keys(entry_views(final(entries)@)),
        entries_map(entry_views(final(entries)@)) == entries_map(entry_views(old(entries)@)).insert(key@, value@),
        total_size(entry_views(final(entries)@)) == total_size(entry_views(old(entries)@)) - (match r {
            Some(v) => v@.len() as int,
            None => -key@.len(),
        }) + value@.len(),
        match r {
            Some(v) => entries_map(entry_views(old(entries)@)).contains_key(key@) && v@ == entries_map(
                entry_views(old(entries)@),
            )[key@],
            None => !entries_map(entry_views(old(entries)@)).contains_key(key@),
        },
{
    let ghost s = entry_views(entries@);
    let i = lower_bound_in(entries, key);
    proof {
        assert(s.len() == entries@.len());
    }
    if i < entries.len() && bytes_eq(entries[i].0.as_slice(), key) {
        let (k, old_value) = entries.remove(i);
        let ghost e_old = s[i as int];
        proof {
            assert(e_old == (k@, old_value@));
            lemma_map_of_sorted(s, i as int);
            lemma_replace_entry(s, i as int, key@, value@);
        }
        let ghost vv = value@;
        entries.insert(i, (k, value));
        proof {
            assert(entry_views(entries@) =~= s.update(i as int, (key@, vv)));
        }
        Some(old_value)
    } else {
        let kv = vstd::slice::slice_to_vec(key);
        let ghost vv = value@;
        entries.insert(i, (kv, value));
        proof {
            assert(entry_views(entries@) =~= s.subrange(0, i as int) + seq![(key@, vv)] + s.subrange(i as int, s.len() as int));
            lemma_insert_entry(s, i as int, key@, vv);
        }
        None
    }
}

/// Recent writes, sorted by key, with their byte count.
pub struct MemTable {
    entries: Vec<(Vec<u8>, Vec<u8>)>,
    size: usize,
}

impl MemTable {
    /// The entries in key order.
    pub closed spec fn entries(&self) -> Seq<EntryView> {
        entry_views(self.entries@)
    }

    /// The entries as a map from key to value.
    pub open spec fn map(&self) -> Map<Seq<u8>, Seq<u8>> {
        entries_map(self.entries())
    }

    /// Keys are sorted and the byte count is exact.
    #[verifier::type_invariant]
    spec fn inv(&self) -> bool {
        &&& sorted_keys(self.entries())
        &&& self.size == total_size(self.entries())
    }

    pub closed spec fn size_spec(&self) -> nat {
        self.size as nat
    }

    pub fn new() -> (r: MemTable)
        ensures
            r.entries() == Seq::<EntryView>::empty(),
            r.size_spec() == 0,
    {
        let r = MemTable { entries: Vec::new(), size: 0 };
        proof {
            assert(r.entries() =~= Seq::<EntryView>::empty());
        }
        r
    }

    /// The first position whose key is not below `key`.
    fn lower_bound(&self, key: &[u8]) -> (r: usize)
        ensures
            r <= self.entries().len(),
            forall|j: int| 0 <= j < r ==> lex_lt(#[trigger] self.entries()[j].0, key@),
            r < self.entries().len() ==> !lex_lt(self.entries()[r as int].0, key@),
    {
        proof {
            use_type_invariant(self);
        }
        lower_bound_in(&self.entries, key)
    }

    /// Inserts a key-value pair. Returns the previous value if the key already existed.
    pub fn insert(&mut self, key: &[u8], value: Vec<u8>) -> (r: Option<Vec<u8>>)
        requires
            old(self).size_spec() + key@.len() + value@.len() <= usize::MAX,
        ensures
            final(self).map() == old(self).map().insert(key@, value@),
            match r {
                Some(v) => old(self).map().contains_key(key@) && v@ == old(self).map()[key@]
                    && final(self).size_spec() == old(self).size_spec() - v@.len() + value@.len(),
                None => !old(self).map().contains_key(key@) && final(self).size_spec() == old(
                    self,
                ).size_spec() + key@.len() + value@.len(),
            },
    {
        proof {
            use_type_invariant(&*self);
        }
        let ghost s = self.entries();
        let klen = key.len();
        let vlen = value.len();
        let mut taken = MemTable::new();
        std::mem::swap(&mut taken, self);
        let MemTable { mut entries, size } = taken;
        let r = upsert_sorted(&mut entries, key, value);
        let new_size = match &r {
            Some(old_value) => {
                proof {
                    let i = choose|i: int| 0 <= i < s.len() && s[i].0 == key@;
                    lemma_map_of_sorted(s, i);
                    lemma_replace_entry(s, i, key@, old_value@);
                }
                size - old_value.len() + vlen
            },
            None => size + klen + vlen,
        };
        *self = MemTable { entries, size: new_size };
        r
    }

    /// Looks up a single key.
    pub fn get(&self, key: &[u8]) -> (r: Option<&[u8]>)
        ensures
            match r {
                Some(v) => self.map().contains_key(key@) && v@ == self.map()[key@],
                None => !self.map().contains_key(key@),
            },
    {
        proof {
            use_type_invariant(self);
        }
        let i = self.lower_bound(key);
        proof {
            assert(self.entries().len() == self.entries@.len());
        }
        if i < self.entries.len() && bytes_eq(self.entries[i].0.as_slice(), key) {
            proof {
                assert(self.entries()[i as int] == (self.entries@[i as int].0@, self.entries@[i as int].1@));
                lemma_map_of_sorted(self.entries(), i as int);
            }
            Some(self.entries[i].1.as_slice())
        } else {
            proof {
                if self.map().contains_key(key@) {
                    let s = self.entries();
                    let j = choose|j: int| 0 <= j < s.len() && s[j].0 == key@;
                    if j < i {
                        lemma_lex_irreflexive(key@);
                    } else if j > i {
                        assert(lex_lt(s[i as int].0, s[j].0));
                        lemma_lex_asymmetric(s[i as int].0, key@);
                    }
                }
            }
            None
        }
    }

    /// All entries whose key starts with `prefix`, in key order.
    pub fn scan<'a>(&'a self, prefix: &[u8]) -> (r: Vec<(&'a [u8], &'a [u8])>)
        ensures
            prefix_run(self.entries(), prefix@, slice_entry_views(r@)),
            sorted_keys(slice_entry_views(r@)),
    {
        proof {
            use_type_invariant(self);
        }
        let s = Ghost(self.entries());
        let start = self.lower_bound(prefix);
        let succ = prefix_successor(prefix);
        let mut out: Vec<(&'a [u8], &'a [u8])> = Vec::new();
        let mut i: usize = start;
        proof {
            assert(s@.len() == self.entries@.len());
            assert(slice_entry_views(out@) =~= s@.subrange(start as int, start as int));
        }
        while i < self.entries.len()
            invariant
                start <= i <= self.entries.len(),
                s@ == self.entries(),
                s@.len() == self.entries@.len(),
                sorted_keys(s@),
                start < s@.len() ==> !lex_lt(s@[start as int].0, prefix@),
                forall|j: int| 0 <= j < start ==> lex_lt(#[trigger] s@[j].0, prefix@),
                forall|j: int| start <= j < i ==> is_prefix(prefix@, #[trigger] s@[j].0),
                slice_entry_views(out@) == s@.subrange(start as int, i as int),
                match succ {
                    Some(v) => successor(prefix@) == Some(v@),
                    None => successor(prefix@) is None,
                },
            ensures
                start <= i <= s@.len(),
                forall|j: int| start <= j < i ==> is_prefix(prefix@, #[trigger] s@[j].0),
                forall|j: int| i <= j < s@.len() ==> !is_prefix(prefix@, #[trigger] s@[j].0),
                slice_entry_views(out@) == s@.subrange(start as int, i as int),
            decreases self.entries.len() - i,
        {
            let k = self.entries[i].0.as_slice();
            proof {
                assert(s@[i as int].0 == k@);
                if i > start {
                    assert(lex_lt(s@[start as int].0, k@));
                    lemma_lex_total(s@[start as int].0, prefix@);
                    if lex_lt(k@, prefix@) {
                        if s@[start as int].0 == prefix@ {
                            lemma_lex_asymmetric(prefix@, k@);
                        } else {
                            lemma_lex_transitive(prefix@, s@[start as int].0, k@);
                            lemma_lex_asymmetric(prefix@, k@);
                        }
                    }
                }
                lemma_prefix_range(prefix@, k@);
            }
            let in_range = match &succ {
                Some(v) => bytes_lt(k, v.as_slice()),
                None => true,
            };
            if !in_range {
                proof {
                    let sv = successor(prefix@).unwrap();
                    assert forall|j: int| i <= j < s@.len() implies !is_prefix(
                        prefix@,
                        #[trigger] s@[j].0,
                    ) by {
                        lemma_prefix_range(prefix@, s@[j].0);
                        if j > i {
                            assert(lex_lt(k@, s@[j].0));
                            lemma_lex_total(k@, sv);
                            if lex_lt(s@[j].0, sv) {
                                if k@ == sv {
                                    lemma_lex_asymmetric(sv, s@[j].0);
                                } else {
                                    lemma_lex_transitive(sv, k@, s@[j].0);
                                    lemma_lex_asymmetric(sv, s@[j].0);
                                }
                            }
                        }
                    }
                }
                break;
            }
            let v = self.entries[i].1.as_slice();
            let ghost before = out@;
            out.push((k, v));
            proof {
                assert(s@[i as int] == (k@, v@));
                lemma_slice_views_push(before, (k, v));
                assert(s@.subrange(start as int, i as int).push(s@[i as int]) =~= s@.subrange(start as int, i + 1));
            }
            i = i + 1;
        }
        proof {
            assert forall|j: int| 0 <= j < s@.len() implies ((start <= j < i) == is_prefix(
                prefix@,
                #[trigger] s@[j].0,
            )) by {
                if j < start {
                    lemma_prefix_range(prefix@, s@[j].0);
                }
            }
        }
        out
    }

    /// All entries in key order.
    pub fn iter<'a>(&'a self) -> (r: Vec<(&'a [u8], &'a [u8])>)
        ensures
            slice_entry_views(r@) == self.entries(),
            sorted_keys(slice_entry_views(r@)),
    {
        proof {
            use_type_invariant(self);
        }
        let mut out: Vec<(&'a [u8], &'a [u8])> = Vec::new();
        let mut i: usize = 0;
        while i < self.entries.len()
            invariant
                i <= self.entries.len(),
                slice_entry_views(out@) == self.entries().subrange(0, i as int),
            decreases self.entries.len() - i,
        {
            let ghost before = out@;
            let x = (self.entries[i].0.as_slice(), self.entries[i].1.as_slice());
            out.push(x);
            proof {
                lemma_slice_views_push(before, x);
                assert(self.entries()[i as int] == (x.0@, x.1@));
                assert(self.entries().subrange(0, i as int).push(self.entries()[i as int]) =~= self.entries().subrange(0, i + 1));
            }
            i = i + 1;
        }
        proof {
            assert(self.entries().subrange(0, i as int) =~= self.entries());
        }
        out
    }

    /// Byte count of all keys and values stored.
    pub fn estimated_size(&self) -> (r: usize)
        ensures
            r == total_size(self.entries()),
            r == self.size_spec(),
    {
        proof {
            use_type_invariant(self);
        }
        self.size
    }

    /// An independent copy with the same entries.
    pub fn fork(&self) -> (r: MemTable)
        ensures
            r.entries() == self.entries(),
    {
        proof {
            use_type_invariant(self);
        }
        let mut entries: Vec<(Vec<u8>, Vec<u8>)> = Vec::new();
        let mut i: usize = 0;
        while i < self.entries.len()
            invariant
                i <= self.entries.len(),
                entry_views(entries@) == self.entries().subrange(0, i as int),
            decreases self.entries.len() - i,
        {
            let k = vstd::slice::slice_to_vec(self.entries[i].0.as_slice());
            let v = vstd::slice::slice_to_vec(self.entries[i].1.as_slice());
            let ghost before = entries@;
            proof {
                assert(self.entries()[i as int] == (k@, v@));
            }
            entries.push((k, v));
            proof {
                lemma_entry_views_push(before, (k, v));
                assert(self.entries().subrange(0, i as int).push(self.entries()[i as int]) =~= self.entries().subrange(0, i + 1));
            }
            i = i + 1;
        }
        proof {
            assert(self.entries().subrange(0, i as int) =~= self.entries());
        }
        MemTable { entries, size: self.size }
    }
}

/// A lookup after an insert finds the inserted value under its key, and
/// what was there before under every other key.
pub proof fn lemma_get_after_insert(m: Map<Seq<u8>, Seq<u8>>, key: Seq<u8>, value: Seq<u8>, other: Seq<u8>)
    ensures
        m.insert(key, value).contains_key(key),
        m.insert(key, value)[key] == value,
        other != key ==> (m.insert(key, value).contains_key(other) == m.contains_key(other)),
        other != key && m.contains_key(other) ==> m.insert(key, value)[other] == m[other],
{
}

} // verus!
