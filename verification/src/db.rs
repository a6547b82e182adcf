//! What the store decides: options; lookups and scans over the MemTable and
//! the SSTables, newest first; replaying the log into a MemTable; and when
//! and how a MemTable is flushed to an SSTable.
use crate::sst::memtable::{
    entries_map, entry_views, lemma_total_size_concat, lemma_total_size_single, prefix_run, slice_entry_views,
    sorted_keys, total_size, upsert_sorted, EntryView, MemTable,
};
use crate::wal::{record_views, RecordView, WalRecord};
use crate::Error;
use crate::hlc::Timestamp;
use crate::sst::format::{short_entries, sst_bytes};
use crate::sst::laws::{lemma_sst_get_after_write, lemma_sst_scan_after_write, with_prefix};
use crate::sst::read::{get_ok, scan_ok, SSTableReader};
use crate::sst::write::SSTableWriter;
use std::sync::Arc;
use vstd::prelude::*;

verus! {

/// The default MemTable flush threshold: 4 MiB.
pub const DEFAULT_MEMTABLE_SIZE: usize = 4194304;

/// Configuration for opening a store.
#[derive(Debug, Clone)]
pub struct DbOptions {
    /// Directory where the residual data lives.
    base_path: String,
    /// Directory where the write-ahead log lives.
    wal_path: String,
    /// MemTable flush threshold in bytes.
    memtable_size: usize,
}

impl View for DbOptions {
    type V = (Seq<char>, Seq<char>, usize);

    closed spec fn view(&self) -> (Seq<char>, Seq<char>, usize) {
        (self.base_path@, self.wal_path@, self.memtable_size)
    }
}

impl DbOptions {
    /// Options with default settings: SSTables and the log both live under `path`.
    pub fn new(path: &str) -> (r: DbOptions)
        ensures
            r@ == (path@, path@, DEFAULT_MEMTABLE_SIZE),
    {
        DbOptions { base_path: path.to_owned(), wal_path: path.to_owned(), memtable_size: DEFAULT_MEMTABLE_SIZE }
    }

    /// Sets the MemTable flush threshold in bytes.
    pub fn with_memtable_size(self, size: usize) -> (r: DbOptions)
        ensures
            r@ == (self@.0, self@.1, size),
    {
        DbOptions { memtable_size: size, ..self }
    }

    pub fn base_path(&self) -> (r: &str)
        ensures
            r@ == self@.0,
    {
        self.base_path.as_str()
    }

    pub fn wal_path(&self) -> (r: &str)
        ensures
            r@ == self@.1,
    {
        self.wal_path.as_str()
    }

    pub fn memtable_size(&self) -> (r: usize)
        ensures
            r == self@.2,
    {
        self.memtable_size
    }
}

/// The file bytes of each SSTable, newest first.
pub open spec fn sst_views(ssts: Seq<Arc<SSTableReader>>) -> Seq<Seq<u8>> {
    ssts.map_values(|t: Arc<SSTableReader>| t@)
}

/// What a lookup in SSTables `ds` (newest first) may answer: the answer of
/// the first one that knows the key.
pub open spec fn chain_ok(ds: Seq<Seq<u8>>, key: Seq<u8>, r: Option<Seq<u8>>) -> bool
    decreases ds.len(),
{
    if ds.len() == 0 {
        r is None
    } else {
        exists|g: Option<Seq<u8>>|
            #[trigger] get_ok(ds[0], key, g) && if g is Some {
                r == g
            } else {
                chain_ok(ds.drop_first(), key, r)
            }
    }
}

/// What a lookup may answer: the MemTable's value, else that of the SSTables.
pub open spec fn lookup_ok(m: Map<Seq<u8>, Seq<u8>>, ds: Seq<Seq<u8>>, key: Seq<u8>, r: Option<Seq<u8>>) -> bool {
    if m.contains_key(key) {
        r == Some(m[key])
    } else {
        chain_ok(ds, key, r)
    }
}

pub open spec fn opt_view(r: Option<Vec<u8>>) -> Option<Seq<u8>> {
    match r {
        Some(v) => Some(v@),
        None => None,
    }
}

/// Looks up `key`: the MemTable first, then the SSTables from newest to oldest.
pub fn lookup(memtable: &MemTable, sstables: &Vec<Arc<SSTableReader>>, key: &[u8]) -> (r: Option<Vec<u8>>)
    ensures
        lookup_ok(memtable.map(), sst_views(sstables@), key@, opt_view(r)),
{
    match memtable.get(key) {
        Some(v) => return Some(vstd::slice::slice_to_vec(v)),
        None => {},
    }
    let ghost ds = sst_views(sstables@);
    let mut i: usize = 0;
    proof {
        assert(ds.subrange(0, ds.len() as int) =~= ds);
    }
    while i < sstables.len()
        invariant
            i <= sstables.len(),
            ds == sst_views(sstables@),
            ds.len() == sstables@.len(),
            !memtable.map().contains_key(key@),
            forall|r: Option<Seq<u8>>| #[trigger] chain_ok(ds.subrange(i as int, ds.len() as int), key@, r) ==> chain_ok(ds, key@, r),
        decreases sstables.len() - i,
    {
        let ghost rest = ds.subrange(i as int, ds.len() as int);
        let g = sstables[i].get(key);
        proof {
            assert(rest[0] == sstables@[i as int]@);
            assert(rest.drop_first() =~= ds.subrange(i + 1, ds.len() as int));
        }
        match g {
            Some(v) => {
                proof {
                    assert(chain_ok(rest, key@, Some(v@)));
                }
                return Some(v);
            },
            None => {
                proof {
                    assert forall|r: Option<Seq<u8>>| #[trigger] chain_ok(ds.subrange(i + 1, ds.len() as int), key@, r) implies chain_ok(ds, key@, r) by {
                        assert(get_ok(rest[0], key@, None));
                        assert(chain_ok(rest, key@, r));
                    }
                }
            },
        }
        i = i + 1;
    }
    proof {
        assert(ds.subrange(i as int, ds.len() as int) =~= Seq::<Seq<u8>>::empty());
        assert(chain_ok(ds.subrange(i as int, ds.len() as int), key@, None));
    }
    None
}

/// The map after writing entries `s` into `m` one after another.
pub open spec fn insert_all(m: Map<Seq<u8>, Seq<u8>>, s: Seq<EntryView>) -> Map<Seq<u8>, Seq<u8>>
    decreases s.len(),
{
    if s.len() == 0 {
        m
    } else {
        insert_all(m, s.drop_last()).insert(s.last().0, s.last().1)
    }
}

/// After a series of writes, a key holds the value of its last write, and a
/// key never written holds what it held before: starting from an empty
/// MemTable, each `insert` turns its map `m` into `m.insert(key, value)`.
pub proof fn lemma_insert_all_last_wins(m: Map<Seq<u8>, Seq<u8>>, s: Seq<EntryView>, k: Seq<u8>)
    ensures
        forall|j: int|
            0 <= j < s.len() && s[j].0 == k && (forall|l: int| j < l < s.len() ==> s[l].0 != k)
                ==> insert_all(m, s).contains_key(k) && #[trigger] s[j] == (k, insert_all(m, s)[k]),
        (forall|j: int| 0 <= j < s.len() ==> s[j].0 != k) ==> insert_all(m, s).contains_key(k)
            == m.contains_key(k) && (m.contains_key(k) ==> insert_all(m, s)[k] == m[k]),
    decreases s.len(),
{
    if s.len() > 0 {
        let t = s.drop_last();
        lemma_insert_all_last_wins(m, t, k);
        assert forall|j: int|
            0 <= j < s.len() && s[j].0 == k && (forall|l: int| j < l < s.len() ==> s[l].0 != k)
                implies insert_all(m, s).contains_key(k) && #[trigger] s[j] == (k, insert_all(m, s)[k]) by {
            if j < s.len() - 1 {
                assert(s[s.len() - 1].0 != k);
                assert(t[j] == s[j]);
                assert forall|l: int| j < l < t.len() implies t[l].0 != k by {
                    assert(t[l] == s[l]);
                }
            }
        }
        if forall|j: int| 0 <= j < s.len() ==> s[j].0 != k {
            assert(s[s.len() - 1].0 != k);
            assert forall|j: int| 0 <= j < t.len() implies t[j].0 != k by {
                assert(t[j] == s[j]);
            }
        }
    }
}

/// The map of scans `scans` (newest first) laid over each other, the newest
/// winning.
pub open spec fn layered(scans: Seq<Seq<EntryView>>) -> Map<Seq<u8>, Seq<u8>>
    decreases scans.len(),
{
    if scans.len() == 0 {
        Map::empty()
    } else {
        insert_all(layered(scans.drop_first()), scans[0])
    }
}

/// What a merged prefix scan may answer: sorted, unique keys, the MemTable's
/// run laid over the SSTables' scans.
pub open spec fn merge_ok(mem_run: Seq<EntryView>, ds: Seq<Seq<u8>>, prefix: Seq<u8>, r: Seq<EntryView>) -> bool {
    exists|scans: Seq<Seq<EntryView>>|
        #[trigger] scans.len() == ds.len() && (forall|i: int| 0 <= i < ds.len() ==> scan_ok(ds[i], prefix, #[trigger] scans[i]))
            && sorted_keys(r) && entries_map(r) == insert_all(layered(scans), mem_run)
}

/// Upserts each entry of `v` in order.
fn upsert_all(acc: &mut Vec<(Vec<u8>, Vec<u8>)>, v: Vec<(Vec<u8>, Vec<u8>)>)
    requires
        sorted_keys(entry_views(old(acc)@)),
    ensures
        sorted_keys(entry_views(final(acc)@)),
        entries_map(entry_views(final(acc)@)) == insert_all(entries_map(entry_views(old(acc)@)), entry_views(v@)),
{
    let ghost m0 = entries_map(entry_views(acc@));
    let ghost vs = entry_views(v@);
    let mut i: usize = 0;
    proof {
        assert(vs.take(0) =~= Seq::<EntryView>::empty());
    }
    while i < v.len()
        invariant
            i <= v.len(),
            vs == entry_views(v@),
            sorted_keys(entry_views(acc@)),
            entries_map(entry_views(acc@)) == insert_all(m0, vs.take(i as int)),
        decreases v.len() - i,
    {
        let key = v[i].0.as_slice();
        let value = vstd::slice::slice_to_vec(v[i].1.as_slice());
        upsert_sorted(acc, key, value);
        proof {
            let t = vs.take(i + 1);
            assert(t.drop_last() =~= vs.take(i as int));
            assert(t.last() == (key@, value@));
        }
        i = i + 1;
    }
    proof {
        assert(vs.take(i as int) =~= vs);
    }
}

/// The entries under `prefix`, newest version of each key, in key order: the
/// SSTables from oldest to newest, then the MemTable, each overriding what
/// came before.
pub fn merge_scan(prefix: &[u8], memtable: &MemTable, sstables: &Vec<Arc<SSTableReader>>) -> (r: Vec<(Vec<u8>, Vec<u8>)>)
    ensures
        exists|mem_run: Seq<EntryView>|
            #[trigger] prefix_run(memtable.entries(), prefix@, mem_run) && merge_ok(
                mem_run,
                sst_views(sstables@),
                prefix@,
                entry_views(r@),
            ),
{
    let ghost ds = sst_views(sstables@);
    let mut acc: Vec<(Vec<u8>, Vec<u8>)> = Vec::new();
    let mut i: usize = sstables.len();
    let ghost mut scans: Seq<Seq<EntryView>> = Seq::new(ds.len(), |j: int| Seq::<EntryView>::empty());
    proof {
        assert(sorted_keys(entry_views(acc@)));
        assert(entries_map(entry_views(acc@)) =~= Map::<Seq<u8>, Seq<u8>>::empty());
        assert(scans.subrange(i as int, ds.len() as int) =~= Seq::<Seq<EntryView>>::empty());
    }
    while i > 0
        invariant
            i <= sstables.len(),
            ds == sst_views(sstables@),
            ds.len() == sstables@.len(),
            scans.len() == ds.len(),
            forall|j: int| i <= j < ds.len() ==> scan_ok(ds[j], prefix@, #[trigger] scans[j]),
            sorted_keys(entry_views(acc@)),
            entries_map(entry_views(acc@)) == layered(scans.subrange(i as int, ds.len() as int)),
        decreases i,
    {
        i = i - 1;
        let found = sstables[i].scan_prefix(prefix);
        let ghost fv = entry_views(found@);
        proof {
            assert(ds[i as int] == sstables@[i as int]@);
        }
        let ghost prev_layer = scans.subrange(i + 1, ds.len() as int);
        upsert_all(&mut acc, found);
        proof {
            scans = scans.update(i as int, fv);
            let t = scans.subrange(i as int, ds.len() as int);
            assert(t.drop_first() =~= prev_layer);
            assert(t[0] == fv);
        }
    }
    let run = memtable.scan(prefix);
    let ghost mem_run = slice_entry_views(run@);
    let mut j: usize = 0;
    let ghost m1 = entries_map(entry_views(acc@));
    proof {
        assert(scans.subrange(0, ds.len() as int) =~= scans);
        assert(mem_run.take(0) =~= Seq::<EntryView>::empty());
    }
    while j < run.len()
        invariant
            j <= run.len(),
            mem_run == slice_entry_views(run@),
            sorted_keys(entry_views(acc@)),
            entries_map(entry_views(acc@)) == insert_all(m1, mem_run.take(j as int)),
        decreases run.len() - j,
    {
        let (k, v) = run[j];
        let value = vstd::slice::slice_to_vec(v);
        upsert_sorted(&mut acc, k, value);
        proof {
            let t = mem_run.take(j + 1);
            assert(t.drop_last() =~= mem_run.take(j as int));
            assert(t.last() == (k@, value@));
        }
        j = j + 1;
    }
    proof {
        assert(mem_run.take(j as int) =~= mem_run);
        assert(merge_ok(mem_run, ds, prefix@, entry_views(acc@)));
    }
    acc
}

/// The value of `key` in the first of the entry runs `ss` (newest first)
/// that holds it.
pub open spec fn newest_value(ss: Seq<Seq<EntryView>>, key: Seq<u8>) -> Option<Seq<u8>>
    decreases ss.len(),
{
    if ss.len() == 0 {
        None
    } else if entries_map(ss[0]).contains_key(key) {
        Some(entries_map(ss[0])[key])
    } else {
        newest_value(ss.drop_first(), key)
    }
}

/// SSTable files `ds` are those the writer wrote from the sorted entries
/// `ss`, with the timestamp ranges `mins` to `maxs`.
pub open spec fn written_tables(ds: Seq<Seq<u8>>, ss: Seq<Seq<EntryView>>, mins: Seq<Timestamp>, maxs: Seq<Timestamp>) -> bool {
    &&& ds.len() == ss.len()
    &&& mins.len() == ss.len()
    &&& maxs.len() == ss.len()
    &&& forall|i: int|
        0 <= i < ss.len() ==> {
            &&& sorted_keys(#[trigger] ss[i])
            &&& short_entries(ss[i])
            &&& sst_bytes(ss[i], mins[i], maxs[i]).len() < 0x1_0000_0000_0000_0000
            &&& ds[i] == sst_bytes(ss[i], mins[i], maxs[i])
        }
}

proof fn lemma_chain_newest(ds: Seq<Seq<u8>>, ss: Seq<Seq<EntryView>>, mins: Seq<Timestamp>, maxs: Seq<Timestamp>, key: Seq<u8>, r: Option<Seq<u8>>)
    requires
        written_tables(ds, ss, mins, maxs),
        chain_ok(ds, key, r),
    ensures
        r == newest_value(ss, key),
    decreases ds.len(),
{
    if ds.len() > 0 {
        let g = choose|g: Option<Seq<u8>>|
            #[trigger] get_ok(ds[0], key, g) && if g is Some {
                r == g
            } else {
                chain_ok(ds.drop_first(), key, r)
            };
        assert(sorted_keys(ss[0]));
        lemma_sst_get_after_write(ss[0], mins[0], maxs[0], key, g);
        if g is None {
            assert(written_tables(ds.drop_first(), ss.drop_first(), mins.drop_first(), maxs.drop_first())) by {
                assert forall|i: int| 0 <= i < ss.drop_first().len() implies {
                    &&& sorted_keys(#[trigger] ss.drop_first()[i])
                    &&& short_entries(ss.drop_first()[i])
                    &&& sst_bytes(ss.drop_first()[i], mins.drop_first()[i], maxs.drop_first()[i]).len() < 0x1_0000_0000_0000_0000
                    &&& ds.drop_first()[i] == sst_bytes(ss.drop_first()[i], mins.drop_first()[i], maxs.drop_first()[i])
                } by {
                    assert(sorted_keys(ss[i + 1]));
                }
            }
            lemma_chain_newest(ds.drop_first(), ss.drop_first(), mins.drop_first(), maxs.drop_first(), key, r);
        }
    }
}

/// Over SSTables that the writer wrote, a lookup gives the MemTable's value
/// for the key, else that of the newest table holding it, else nothing.
pub proof fn lemma_lookup_newest(
    m: Map<Seq<u8>, Seq<u8>>,
    ds: Seq<Seq<u8>>,
    ss: Seq<Seq<EntryView>>,
    mins: Seq<Timestamp>,
    maxs: Seq<Timestamp>,
    key: Seq<u8>,
    r: Option<Seq<u8>>,
)
    requires
        written_tables(ds, ss, mins, maxs),
        lookup_ok(m, ds, key, r),
    ensures
        r == (if m.contains_key(key) {
            Some(m[key])
        } else {
            newest_value(ss, key)
        }),
{
    if !m.contains_key(key) {
        lemma_chain_newest(ds, ss, mins, maxs, key, r);
    }
}

/// Over SSTables that the writer wrote, a merged scan holds, in key order,
/// each key under the prefix once, with the MemTable's value, else the
/// newest table's.
pub proof fn lemma_merge_scan_newest(
    mem_run: Seq<EntryView>,
    ds: Seq<Seq<u8>>,
    ss: Seq<Seq<EntryView>>,
    mins: Seq<Timestamp>,
    maxs: Seq<Timestamp>,
    prefix: Seq<u8>,
    r: Seq<EntryView>,
)
    requires
        written_tables(ds, ss, mins, maxs),
        merge_ok(mem_run, ds, prefix, r),
    ensures
        sorted_keys(r),
        entries_map(r) == insert_all(layered(Seq::new(ss.len(), |i: int| with_prefix(ss[i], prefix))), mem_run),
{
    let scans = choose|scans: Seq<Seq<EntryView>>|
        #[trigger] scans.len() == ds.len() && (forall|i: int| 0 <= i < ds.len() ==> scan_ok(ds[i], prefix, #[trigger] scans[i]))
            && sorted_keys(r) && entries_map(r) == insert_all(layered(scans), mem_run);
    let want = Seq::new(ss.len(), |i: int| with_prefix(ss[i], prefix));
    assert forall|i: int| 0 <= i < ss.len() implies scans[i] == want[i] by {
        assert(sorted_keys(ss[i]));
        assert(scan_ok(ds[i], prefix, scans[i]));
        lemma_sst_scan_after_write(ss[i], mins[i], maxs[i], prefix, scans[i]);
    }
    assert(scans =~= want);
}

/// Whether a replayed record only marks a commit: a timestamp, and neither
/// key nor value.
pub open spec fn is_commit_marker(r: RecordView) -> bool {
    r.timestamp is Some && r.key.len() == 0 && r.value.len() == 0
}

/// The entries that replayed records put into a MemTable, in order: every
/// record but the commit markers.
pub open spec fn data_entries(rs: Seq<RecordView>) -> Seq<EntryView>
    decreases rs.len(),
{
    if rs.len() == 0 {
        Seq::empty()
    } else if is_commit_marker(rs.last()) {
        data_entries(rs.drop_last())
    } else {
        data_entries(rs.drop_last()).push((rs.last().key, rs.last().value))
    }
}

/// Replay keeps every write: a key is left holding the value of the last
/// record written to it, an empty value (a deletion) included, and a key that
/// no record writes keeps what it held. The only records passed over are
/// those with a timestamp and with neither key nor value, which mark commits.
pub proof fn lemma_replay_last_write_wins(m: Map<Seq<u8>, Seq<u8>>, rs: Seq<RecordView>, k: Seq<u8>)
    ensures
        forall|j: int|
            0 <= j < rs.len() && #[trigger] rs[j].key == k && (k.len() > 0 || rs[j].timestamp is None
                || rs[j].value.len() > 0) && (forall|l: int|
                j < l < rs.len() && rs[l].key == k ==> !(k.len() > 0 || rs[l].timestamp is None
                    || rs[l].value.len() > 0))
                ==> insert_all(m, data_entries(rs)).contains_key(k) && insert_all(m, data_entries(rs))[k]
                    == rs[j].value,
        (forall|j: int|
            0 <= j < rs.len() && #[trigger] rs[j].key == k ==> !(k.len() > 0 || rs[j].timestamp is None
                || rs[j].value.len() > 0)) ==> insert_all(m, data_entries(rs)).contains_key(k)
            == m.contains_key(k) && (m.contains_key(k) ==> insert_all(m, data_entries(rs))[k] == m[k]),
    decreases rs.len(),
{
    if rs.len() > 0 {
        let n = rs.len() - 1;
        let t = rs.drop_last();
        let e = rs.last();
        lemma_replay_last_write_wins(m, t, k);
        let big = insert_all(m, data_entries(rs));
        let small = insert_all(m, data_entries(t));
        if is_commit_marker(e) {
            assert(big == small);
        } else {
            let d = data_entries(t);
            assert(data_entries(rs) == d.push((e.key, e.value)));
            assert(d.push((e.key, e.value)).drop_last() =~= d);
            assert(big == small.insert(e.key, e.value));
        }
        // The last record either writes `k`, or leaves `k` as it was.
        assert(e.key != k || !(k.len() > 0 || e.timestamp is None || e.value.len() > 0) ==> (
        big.contains_key(k) == small.contains_key(k) && (small.contains_key(k) ==> big[k] == small[k])));
        assert forall|j: int|
            0 <= j < rs.len() && #[trigger] rs[j].key == k && (k.len() > 0 || rs[j].timestamp is None
                || rs[j].value.len() > 0) && (forall|l: int|
                j < l < rs.len() && rs[l].key == k ==> !(k.len() > 0 || rs[l].timestamp is None
                    || rs[l].value.len() > 0))
            implies big.contains_key(k) && big[k] == rs[j].value by {
            if j < n {
                assert(rs[n] == e);
                assert(t[j] == rs[j]);
                assert forall|l: int| j < l < t.len() && #[trigger] t[l].key == k implies !(k.len() > 0
                    || t[l].timestamp is None || t[l].value.len() > 0) by {
                    assert(t[l] == rs[l]);
                }
            }
        }
        if forall|j: int|
            0 <= j < rs.len() && #[trigger] rs[j].key == k ==> !(k.len() > 0 || rs[j].timestamp is None
                || rs[j].value.len() > 0) {
            assert(rs[n] == e);
            assert forall|j: int| 0 <= j < t.len() && #[trigger] t[j].key == k implies !(k.len() > 0
                || t[j].timestamp is None || t[j].value.len() > 0) by {
                assert(t[j] == rs[j]);
            }
        }
    }
}

/// Writes replayed records into a MemTable, in order, later ones winning;
/// commit markers carry no data and are passed over. Fails, with the table
/// partly filled, only when the table's byte count would not fit a `usize`.
pub fn apply_records(memtable: &mut MemTable, records: &Vec<WalRecord>) -> (r: Result<(), Error>)
    ensures
        r is Ok ==> final(memtable).map() == insert_all(old(memtable).map(), data_entries(record_views(records@))),
        old(memtable).size_spec() + total_size(data_entries(record_views(records@))) <= usize::MAX ==> r is Ok,
        r matches Err(e) ==> e is Corruption,
{
    let ghost rs = record_views(records@);
    let ghost m0 = memtable.map();
    let ghost s0 = memtable.size_spec();
    let mut i: usize = 0;
    proof {
        assert(rs.take(0) =~= Seq::<RecordView>::empty());
    }
    while i < records.len()
        invariant
            i <= records.len(),
            rs == record_views(records@),
            rs.len() == records@.len(),
            s0 == old(memtable).size_spec(),
            m0 == old(memtable).map(),
            memtable.map() == insert_all(m0, data_entries(rs.take(i as int))),
            memtable.size_spec() <= s0 + total_size(data_entries(rs.take(i as int))),
        decreases records.len() - i,
    {
        let rec = &records[i];
        let ghost t = rs.take(i + 1);
        proof {
            assert(t.drop_last() =~= rs.take(i as int));
            assert(t.last() == rec@);
            assert(rs[i as int] == rec@);
        }
        let marker = rec.timestamp.is_some() && rec.key.len() == 0 && rec.value.len() == 0;
        if !marker {
            let size = memtable.estimated_size();
            if rec.key.len() > usize::MAX - size || rec.value.len() > usize::MAX - size - rec.key.len() {
                proof {
                    let d = data_entries(rs.take(i as int));
                    lemma_total_size_concat(d, seq![(rec@.key, rec@.value)]);
                    lemma_total_size_single((rec@.key, rec@.value));
                    assert(d.push((rec@.key, rec@.value)) =~= d + seq![(rec@.key, rec@.value)]);
                    assert(!is_commit_marker(t.last()));
                    assert(data_entries(t) == d.push((rec@.key, rec@.value)));
                    lemma_data_entries_grow(rs, i as int + 1);
                    assert(size + rec@.key.len() + rec@.value.len() > usize::MAX);
                }
                return Err(Error::Corruption("MemTable too large".to_owned()));
            }
            let value = vstd::slice::slice_to_vec(rec.value.as_slice());
            memtable.insert(rec.key.as_slice(), value);
            proof {
                let d = data_entries(rs.take(i as int));
                lemma_total_size_concat(d, seq![(rec@.key, rec@.value)]);
                lemma_total_size_single((rec@.key, rec@.value));
                assert(d.push((rec@.key, rec@.value)) =~= d + seq![(rec@.key, rec@.value)]);
                assert(d.push((rec@.key, rec@.value)).drop_last() =~= d);
            }
        }
        i = i + 1;
    }
    proof {
        assert(rs.take(i as int) =~= rs);
    }
    Ok(())
}

/// Whether a MemTable holding `memtable`'s bytes is due to be written out as
/// an SSTable under flush threshold `threshold`.
pub fn needs_flush(memtable: &MemTable, threshold: usize) -> (r: bool)
    ensures
        r == (total_size(memtable.entries()) >= threshold),
{
    memtable.estimated_size() >= threshold
}

/// The SSTable file of a MemTable's entries, stamped `ts`; nothing when the
/// entries are too many for the bloom filter's size to fit a `usize`.
pub fn sstable_bytes(memtable: &MemTable, ts: Timestamp) -> (r: Option<Vec<u8>>)
    ensures
        r is Some <==> memtable.entries().len() * 10 + 7 <= usize::MAX,
        r matches Some(b) ==> b@ == sst_bytes(memtable.entries(), ts, ts),
{
    let entries = memtable.iter();
    let ghost s = memtable.entries();
    let mut writer = SSTableWriter::new(ts, ts);
    let mut i: usize = 0;
    proof {
        assert(s.take(0) =~= Seq::<EntryView>::empty());
    }
    while i < entries.len()
        invariant
            i <= entries.len(),
            slice_entry_views(entries@) == s,
            writer.entries() == s.take(i as int),
            writer.min_ts() == ts,
            writer.max_ts() == ts,
        decreases entries.len() - i,
    {
        let (k, v) = entries[i];
        proof {
            assert(s[i as int] == (k@, v@));
        }
        writer.add(k, v);
        proof {
            assert(s.take(i as int).push((k@, v@)) =~= s.take(i + 1));
        }
        i = i + 1;
    }
    proof {
        assert(s.take(i as int) =~= s);
    }
    let n = writer.entry_count();
    if n > (usize::MAX - 7) / 10 {
        proof {
            assert(n * 10 + 7 > usize::MAX) by (nonlinear_arith)
                requires
                    n > (usize::MAX - 7) / 10,
            ;
        }
        return None;
    }
    proof {
        assert(n * 10 + 7 <= usize::MAX) by (nonlinear_arith)
            requires
                n <= (usize::MAX - 7) / 10,
        ;
    }
    Some(writer.finish())
}

/// The data of more records is at least that of fewer.
proof fn lemma_data_entries_grow(rs: Seq<RecordView>, k: int)
    requires
        0 <= k <= rs.len(),
    ensures
        total_size(data_entries(rs.take(k))) <= total_size(data_entries(rs)),
    decreases rs.len() - k,
{
    if k < rs.len() {
        lemma_data_entries_grow(rs, k + 1);
        let t = rs.take(k + 1);
        assert(t.drop_last() =~= rs.take(k));
        let d = data_entries(rs.take(k));
        let e = (t.last().key, t.last().value);
        lemma_total_size_concat(d, seq![e]);
        lemma_total_size_single(e);
        assert(d.push(e) =~= d + seq![e]);
    } else {
        assert(rs.take(k) =~= rs);
    }
}

} // verus!
