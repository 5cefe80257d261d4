//! The index of the blocks that are still looked for: from the rolling
//! checksum of a block to the buckets of its truncated digests, and from
//! there to the blocks.

use super::types::{lemma_rsum_key_injective, PartialChecksum, Rsum};
use fnv::{FnvHashMap, FnvHasher};
use std::hash::{BuildHasherDefault, Hash};
use vstd::prelude::*;
use vstd::std_specs::hash::obeys_key_model;

verus! {

/// The hasher of the `fnv` crate, which the index's hash maps use.
#[verifier::external_type_specification]
#[verifier::external_body]
pub struct ExFnvHasher(FnvHasher);

/// std's builder of default hashers, which `fnv` instantiates for its maps.
#[verifier::external_type_specification]
#[verifier::external_body]
#[verifier::reject_recursive_types(H)]
pub struct ExBuildHasherDefault<H>(BuildHasherDefault<H>);

/// Calls `HashMap::get` on a map that hashes with FNV.  Believed, not
/// proved: with keys that are equal exactly when they are identical, the
/// map finds the value that was stored under `key`, and nothing otherwise.
#[verifier::external_body]
fn fnv_get<'a, K: Eq + Hash, V>(map: &'a FnvHashMap<K, V>, key: &K) -> (found: Option<&'a V>)
    requires
        obeys_key_model::<K>(),
    ensures
        match found {
            Some(value) => map@.contains_key(*key) && *value == map@[*key],
            None => !map@.contains_key(*key),
        },
{
    map.get(key)
}

/// Calls `HashMap::insert` on a map that hashes with FNV.  Believed, not
/// proved: the map then holds `value` under `key` and is otherwise as
/// before, and what was stored under `key` comes back.
#[verifier::external_body]
fn fnv_insert<K: Eq + Hash, V>(map: &mut FnvHashMap<K, V>, key: K, value: V) -> (previous: Option<V>)
    requires
        obeys_key_model::<K>(),
    ensures
        final(map)@ == old(map)@.insert(key, value),
        match previous {
            Some(v) => old(map)@.contains_key(key) && v == old(map)@[key],
            None => !old(map)@.contains_key(key),
        },
{
    map.insert(key, value)
}

/// Calls `HashMap::remove` on a map that hashes with FNV.  Believed, not
/// proved: the map then holds nothing under `key` and is otherwise as
/// before, and what was stored under `key` comes back.
#[verifier::external_body]
fn fnv_remove<K: Eq + Hash, V>(map: &mut FnvHashMap<K, V>, key: &K) -> (previous: Option<V>)
    requires
        obeys_key_model::<K>(),
    ensures
        final(map)@ == old(map)@.remove(*key),
        match previous {
            Some(v) => old(map)@.contains_key(*key) && v == old(map)@[*key],
            None => !old(map)@.contains_key(*key),
        },
{
    map.remove(key)
}

/// Calls `HashMap::len` on a map that hashes with FNV.  Believed, not
/// proved: `len` counts the keys that the map holds.
#[verifier::external_body]
fn fnv_len<K: Eq + Hash, V>(map: &FnvHashMap<K, V>) -> (n: usize)
    requires
        obeys_key_model::<K>(),
    ensures
        n == map@.len(),
{
    map.len()
}

/// Position of a block in the target file, counted in blocks from zero.
pub type ZBlockId = usize;

/// What is expected of one block of the target: the rolling checksum of its
/// content and its truncated strong digest.
#[derive(Copy, Clone, Debug)]
pub struct ZBlock {
    pub rsum: Rsum,
    pub checksum: PartialChecksum,
}

/// Where the index files a block: under its rolling checksum and, below
/// that, under the number of its truncated digest.
pub struct BlockKey {
    pub rsum: Rsum,
    pub digest: u128,
}

impl ZBlock {
    /// Where the index files a block of which this is expected.
    pub open spec fn key(self) -> BlockKey {
        BlockKey { rsum: self.rsum, digest: self.checksum.key_spec() }
    }

    /// What the index holds for a block as long as nothing was registered
    /// for it: zero checksum, a digest of zeros of which no byte counts.
    pub open spec fn is_unset(self) -> bool {
        &&& self.rsum == Rsum(0, 0)
        &&& self.checksum.length == 0
        &&& self.checksum.value.0@ == Seq::new(16, |i: int| 0u8)
    }
}

impl Default for ZBlock {
    fn default() -> (r: Self)
        ensures
            r.is_unset(),
    {
        ZBlock { rsum: Rsum::default(), checksum: PartialChecksum::default() }
    }
}

/// `s` without the first occurrence of `id`.
pub open spec fn without(s: Seq<ZBlockId>, id: ZBlockId) -> Seq<ZBlockId> {
    s.remove_value(id)
}

/// What `buckets` holds under `key`, nothing where it holds no such key.
pub open spec fn bucket_of<K>(buckets: Map<K, Seq<ZBlockId>>, key: K) -> Seq<ZBlockId> {
    if buckets.contains_key(key) {
        buckets[key]
    } else {
        Seq::empty()
    }
}

/// `buckets` with `id` filed last under `key`.
pub open spec fn with_filed<K>(buckets: Map<K, Seq<ZBlockId>>, key: K, id: ZBlockId) -> Map<
    K,
    Seq<ZBlockId>,
> {
    buckets.insert(key, bucket_of(buckets, key).push(id))
}

/// `buckets` without the first occurrence of `id` under `key`, and without
/// `key` where nothing is left under it.
pub open spec fn with_unfiled<K>(buckets: Map<K, Seq<ZBlockId>>, key: K, id: ZBlockId) -> Map<
    K,
    Seq<ZBlockId>,
> {
    let rest = without(bucket_of(buckets, key), id);
    if rest.len() == 0 {
        buckets.remove(key)
    } else {
        buckets.insert(key, rest)
    }
}

/// The candidate buckets of one rolling checksum: from the number of a
/// truncated digest to the blocks that are expected to have it, in the
/// order in which they were registered.
pub struct ChecksumMap {
    buckets: FnvHashMap<u128, Vec<ZBlockId>>,
}

impl View for ChecksumMap {
    type V = Map<u128, Seq<ZBlockId>>;

    closed spec fn view(&self) -> Map<u128, Seq<ZBlockId>> {
        self.buckets@.map_values(|bucket: Vec<ZBlockId>| bucket@)
    }
}

impl ChecksumMap {
    fn new() -> (m: Self)
        ensures
            m@ == Map::<u128, Seq<ZBlockId>>::empty(),
            m@.dom().finite(),
    {
        let m = ChecksumMap { buckets: FnvHashMap::default() };
        assert(m@ =~= Map::<u128, Seq<ZBlockId>>::empty());
        m
    }

    /// The number of buckets.
    pub fn len(&self) -> (n: usize)
        ensures
            n == self@.len(),
    {
        assert(self@.dom() =~= self.buckets@.dom());
        fnv_len(&self.buckets)
    }

    /// Whether there is no bucket.
    pub fn is_empty(&self) -> (b: bool)
        ensures
            b <==> self@ == Map::<u128, Seq<ZBlockId>>::empty(),
            !b <==> exists|digest: u128| self@.contains_key(digest),
    {
        let b = self.buckets.is_empty();
        proof {
            assert(self@.dom() =~= self.buckets@.dom());
            if b {
                assert(self@ =~= Map::<u128, Seq<ZBlockId>>::empty());
            } else {
                assert(!(self.buckets@.dom() =~= Set::<u128>::empty()));
                let digest = choose|digest: u128| self.buckets@.dom().contains(digest);
                assert(self@.contains_key(digest));
            }
        }
        b
    }

    /// The blocks that are expected to have the digest `checksum`, as far
    /// as its bytes count.
    pub fn get(&self, checksum: &PartialChecksum) -> (found: Option<&Vec<ZBlockId>>)
        ensures
            match found {
                Some(bucket) => self@.contains_key(checksum.key_spec()) && bucket@
                    == self@[checksum.key_spec()],
                None => !self@.contains_key(checksum.key_spec()),
            },
    {
        let key = checksum.key();
        fnv_get(&self.buckets, &key)
    }

    /// Files `id` last in the bucket of `key`.
    fn file(&mut self, key: u128, id: ZBlockId)
        ensures
            final(self)@ == with_filed(old(self)@, key, id),
            old(self)@.dom().finite() ==> final(self)@.dom().finite(),
    {
        let mut bucket = match fnv_remove(&mut self.buckets, &key) {
            Some(bucket) => bucket,
            None => Vec::new(),
        };
        bucket.push(id);
        fnv_insert(&mut self.buckets, key, bucket);
        assert(self@ =~= with_filed(old(self)@, key, id));
    }

    /// Takes the bucket of `key` out of the map.
    fn remove(&mut self, key: u128)
        ensures
            final(self)@ == old(self)@.remove(key),
            old(self)@.dom().finite() ==> final(self)@.dom().finite(),
    {
        let _ = fnv_remove(&mut self.buckets, &key);
        assert(self@ =~= old(self)@.remove(key));
    }

    /// Takes the first occurrence of `id` out of the bucket of `key`, and
    /// the bucket out of the map where that leaves it empty.
    fn unfile(&mut self, key: u128, id: ZBlockId)
        requires
            old(self)@.contains_key(key),
            old(self)@[key].contains(id),
        ensures
            final(self)@ == with_unfiled(old(self)@, key, id),
            old(self)@.dom().finite() ==> final(self)@.dom().finite(),
    {
        let mut bucket = match fnv_remove(&mut self.buckets, &key) {
            Some(bucket) => bucket,
            None => Vec::new(),
        };
        let ghost before = bucket@;
        let mut i: usize = 0;
        while i < bucket.len() && bucket[i] != id
            invariant
                i <= bucket.len(),
                bucket@ == before,
                before.contains(id),
                forall|j: int| 0 <= j < i ==> before[j] != id,
            decreases bucket.len() - i,
        {
            i += 1;
        }
        proof {
            before.index_of_first_ensures(id);
            assert(before.index_of_first(id) == Some(i as int));
        }
        bucket.remove(i);
        if bucket.len() > 0 {
            fnv_insert(&mut self.buckets, key, bucket);
        }
        assert(self@ =~= with_unfiled(old(self)@, key, id));
    }
}

/// What the index is, to its users: what is expected of each block, and
/// the buckets of the blocks that are still looked for.
pub struct IndexView {
    pub records: Seq<ZBlock>,
    pub buckets: Map<BlockKey, Seq<ZBlockId>>,
}

impl IndexView {
    /// No bucket is empty or names a block twice, and a block is filed only
    /// where what is expected of it says.
    pub open spec fn wf(self) -> bool {
        forall|k: BlockKey| #[trigger]
            self.buckets.contains_key(k) ==> {
                &&& self.buckets[k].len() > 0
                &&& self.buckets[k].no_duplicates()
                &&& forall|j: int|
                    0 <= j < self.buckets[k].len() ==> {
                        &&& (#[trigger] self.buckets[k][j]) < self.records.len()
                        &&& self.records[self.buckets[k][j] as int].key() == k
                    }
            }
    }

    /// The number of blocks of the target.
    pub open spec fn num_blocks(self) -> nat {
        self.records.len()
    }

    /// Whether the block `id` is still looked for.
    pub open spec fn filed(self, id: ZBlockId) -> bool {
        &&& id < self.records.len()
        &&& bucket_of(self.buckets, self.records[id as int].key()).contains(id)
    }

    /// Whether some block that is still looked for has the checksum `rsum`.
    pub open spec fn has_weak(self, rsum: Rsum) -> bool {
        exists|digest: u128| self.buckets.contains_key(BlockKey { rsum, digest })
    }

    /// The buckets of the blocks with the checksum `rsum`.
    pub open spec fn weak_entry(self, rsum: Rsum) -> Map<u128, Seq<ZBlockId>> {
        Map::new(
            |digest: u128| self.buckets.contains_key(BlockKey { rsum, digest }),
            |digest: u128| self.buckets[BlockKey { rsum, digest }],
        )
    }

    /// The index once the block `id` is no longer looked for.
    pub open spec fn resolve(self, id: ZBlockId) -> IndexView {
        if self.filed(id) {
            IndexView {
                buckets: with_unfiled(self.buckets, self.records[id as int].key(), id),
                ..self
            }
        } else {
            self
        }
    }

    /// The index once `block` is what is expected of the block `id`, and
    /// `id` is looked for under it and nowhere else.
    pub open spec fn insert(self, id: ZBlockId, block: ZBlock) -> IndexView {
        IndexView {
            records: self.records.update(id as int, block),
            buckets: with_filed(self.resolve(id).buckets, block.key(), id),
        }
    }

    /// The index without the bucket of `key`.
    pub open spec fn remove_bucket(self, key: BlockKey) -> IndexView {
        IndexView { buckets: self.buckets.remove(key), ..self }
    }
}

/// In a bucket that names no block twice, taking a block out leaves the
/// others, in their order, and not that block.
pub proof fn lemma_without(s: Seq<ZBlockId>, id: ZBlockId)
    requires
        s.no_duplicates(),
        s.contains(id),
    ensures
        without(s, id).len() == s.len() - 1,
        without(s, id).no_duplicates(),
        !without(s, id).contains(id),
        forall|x: ZBlockId| x != id ==> (without(s, id).contains(x) <==> s.contains(x)),
        forall|j: int| 0 <= j < without(s, id).len() ==> s.contains(#[trigger] without(s, id)[j]),
{
    s.index_of_first_ensures(id);
    let i = s.index_of_first(id)->Some_0;
    let t = s.remove(i);
    s.remove_ensures(i);
    assert(t == without(s, id));
    assert forall|j: int| 0 <= j < t.len() implies s.contains(#[trigger] t[j]) && t[j] != id by {
        if j < i {
            assert(t[j] == s[j]);
        } else {
            assert(t[j] == s[j + 1]);
        }
    }
    assert forall|x: ZBlockId| x != id && s.contains(x) implies t.contains(x) by {
        let j = choose|j: int| 0 <= j < s.len() && s[j] == x;
        if j < i {
            assert(t[j] == x);
        } else {
            assert(t[j - 1] == x);
        }
    }
    assert forall|a: int, b: int| 0 <= a < t.len() && 0 <= b < t.len() && a != b implies t[a]
        != t[b] by {
        let a2 = if a < i { a } else { a + 1 };
        let b2 = if b < i { b } else { b + 1 };
        assert(t[a] == s[a2]);
        assert(t[b] == s[b2]);
    }
}

/// The two-level index of the blocks that are still looked for.
pub struct ZBlockMap {
    rsum_map: FnvHashMap<u32, ChecksumMap>,
    blocklist: Vec<ZBlock>,
}

impl View for ZBlockMap {
    type V = IndexView;

    closed spec fn view(&self) -> IndexView {
        IndexView {
            records: self.blocklist@,
            buckets: Map::new(
                |k: BlockKey|
                    self.rsum_map@.contains_key(k.rsum.key_spec())
                        && self.rsum_map@[k.rsum.key_spec()]@.contains_key(k.digest),
                |k: BlockKey| self.rsum_map@[k.rsum.key_spec()]@[k.digest],
            ),
        }
    }
}

impl ZBlockMap {
    /// The index holds what its view says, no checksum without a bucket,
    /// and finitely many buckets under each checksum.
    pub closed spec fn wf(&self) -> bool {
        &&& self@.wf()
        &&& forall|r: u32| #[trigger]
            self.rsum_map@.contains_key(r) ==> (exists|d: u128|
                self.rsum_map@[r]@.contains_key(d)) && self.rsum_map@[r]@.dom().finite()
    }

    /// What holds of the view of every well-formed index.
    pub proof fn lemma_wf(&self)
        requires
            self.wf(),
        ensures
            self@.wf(),
    {
    }

    /// An index for a target of `num_blocks` blocks, of which nothing is
    /// expected yet and none is looked for.
    pub fn new(num_blocks: usize) -> (index: Self)
        ensures
            index.wf(),
            index@.records.len() == num_blocks,
            forall|i: int| 0 <= i < num_blocks ==> (#[trigger] index@.records[i]).is_unset(),
            index@.buckets == Map::<BlockKey, Seq<ZBlockId>>::empty(),
    {
        let mut blocklist: Vec<ZBlock> = Vec::new();
        let mut i: usize = 0;
        while i < num_blocks
            invariant
                i <= num_blocks,
                blocklist@.len() == i,
                forall|j: int| 0 <= j < i ==> (#[trigger] blocklist@[j]).is_unset(),
            decreases num_blocks - i,
        {
            blocklist.push(ZBlock::default());
            i += 1;
        }
        let index = ZBlockMap { rsum_map: FnvHashMap::default(), blocklist };
        assert(index@.buckets =~= Map::<BlockKey, Seq<ZBlockId>>::empty());
        index
    }

    /// The number of blocks of the target.
    pub fn num_blocks(&self) -> (n: usize)
        ensures
            n == self@.num_blocks(),
    {
        self.blocklist.len()
    }

    /// Whether no block is looked for any more.
    pub fn is_empty(&self) -> (b: bool)
        requires
            self.wf(),
        ensures
            b <==> self@.buckets == Map::<BlockKey, Seq<ZBlockId>>::empty(),
    {
        let b = self.rsum_map.is_empty();
        proof {
            if b {
                assert(self@.buckets =~= Map::<BlockKey, Seq<ZBlockId>>::empty());
            } else {
                assert(!(self.rsum_map@.dom() =~= Set::<u32>::empty()));
                let r = choose|r: u32| self.rsum_map@.dom().contains(r);
                assert(self.rsum_map@.contains_key(r));
                let d = choose|d: u128| self.rsum_map@[r]@.contains_key(d);
                let rsum = Rsum((r / 0x1_0000) as u16, (r % 0x1_0000) as u16);
                assert(rsum.key_spec() == r);
                assert(self@.buckets.contains_key(BlockKey { rsum, digest: d }));
            }
        }
        b
    }

    /// What is expected of the block `block_id`.
    pub fn block(&self, block_id: ZBlockId) -> (block: ZBlock)
        requires
            block_id < self@.num_blocks(),
        ensures
            block == self@.records[block_id as int],
    {
        self.blocklist[block_id]
    }

    /// The buckets of the blocks with the checksum `rsum`, if any such
    /// block is still looked for.
    pub fn search_weak(&self, rsum: Rsum) -> (found: Option<&ChecksumMap>)
        requires
            self.wf(),
        ensures
            match found {
                Some(entry) => self@.has_weak(rsum) && entry@ == self@.weak_entry(rsum)
                    && entry@.dom().finite(),
                None => !self@.has_weak(rsum),
            },
    {
        let key = rsum.key();
        let found = fnv_get(&self.rsum_map, &key);
        proof {
            match found {
                Some(entry) => {
                    let d = choose|d: u128| self.rsum_map@[key]@.contains_key(d);
                    assert(self@.buckets.contains_key(BlockKey { rsum, digest: d }));
                    assert(entry@ =~= self@.weak_entry(rsum));
                },
                None => {},
            }
        }
        found
    }

    /// Whether the block `block_id` is still looked for.
    pub fn contains(&self, block_id: ZBlockId) -> (b: bool)
        requires
            self.wf(),
        ensures
            b == self@.filed(block_id),
    {
        if block_id >= self.blocklist.len() {
            return false;
        }
        let block = self.blocklist[block_id];
        let rkey = block.rsum.key();
        match fnv_get(&self.rsum_map, &rkey) {
            None => false,
            Some(entry) => match entry.get(&block.checksum) {
                None => false,
                Some(bucket) => {
                    let mut i: usize = 0;
                    while i < bucket.len()
                        invariant
                            i <= bucket.len(),
                            forall|j: int| 0 <= j < i ==> bucket@[j] != block_id,
                            block == self@.records[block_id as int],
                            block_id < self@.records.len(),
                            self@.buckets.contains_key(block.key()),
                            self@.buckets[block.key()] == bucket@,
                        decreases bucket.len() - i,
                    {
                        if bucket[i] == block_id {
                            proof {
                                assert(self@.buckets.contains_key(block.key()));
                                assert(self@.buckets[block.key()] == bucket@);
                                assert(bucket@[i as int] == block_id);
                            }
                            return true;
                        }
                        i += 1;
                    }
                    false
                },
            },
        }
    }

    /// Registers what is expected of the block `block_id`, in place of
    /// what was, and files the block under it.
    pub fn insert(&mut self, block_id: ZBlockId, block: ZBlock)
        requires
            old(self).wf(),
            block_id < old(self)@.num_blocks(),
        ensures
            final(self).wf(),
            final(self)@ == old(self)@.insert(block_id, block),
    {
        if self.contains(block_id) {
            self.remove_block(block_id);
        }
        let ghost mid = self@;
        let ghost mid_map = self.rsum_map@;
        assert(mid == old(self)@.resolve(block_id));
        assert(forall|r: u32| #[trigger]
            mid_map.contains_key(r) ==> exists|d: u128| mid_map[r]@.contains_key(d));
        proof {
            old(self)@.lemma_resolve_unfiles(block_id);
        }
        self.blocklist.set(block_id, block);
        let rkey = block.rsum.key();
        let dkey = block.checksum.key();
        let mut entry = match fnv_remove(&mut self.rsum_map, &rkey) {
            Some(entry) => entry,
            None => ChecksumMap::new(),
        };
        let ghost e0 = entry@;
        entry.file(dkey, block_id);
        let ghost e1 = entry@;
        fnv_insert(&mut self.rsum_map, rkey, entry);
        proof {
            let goal = old(self)@.insert(block_id, block);
            assert(e0 =~= mid.weak_entry(block.rsum));
            assert(bucket_of(mid.buckets, block.key()) == bucket_of(e0, dkey));
            assert forall|k: BlockKey|
                #![trigger self@.buckets.contains_key(k)]
                #![trigger goal.buckets.contains_key(k)]
                self@.buckets.contains_key(k) == goal.buckets.contains_key(k) && (
                self@.buckets.contains_key(k) ==> self@.buckets[k] == goal.buckets[k]) by {
                lemma_rsum_key_injective(k.rsum, block.rsum);
                if k.rsum == block.rsum {
                    assert(mid.buckets.contains_key(k) == e0.contains_key(k.digest));
                    assert(self@.buckets.contains_key(k) == e1.contains_key(k.digest));
                    if e0.contains_key(k.digest) {
                        assert(mid.buckets[k] == e0[k.digest]);
                    }
                    if k.digest == dkey {
                        assert(k == block.key());
                    }
                } else {
                    assert(self.rsum_map@.contains_key(k.rsum.key_spec()) == mid_map.contains_key(
                        k.rsum.key_spec(),
                    ));
                }
            }
            assert(self@.buckets =~= goal.buckets);
            assert(self@.records =~= goal.records);
            old(self)@.lemma_insert_wf(block_id, block);
            assert forall|r: u32| #[trigger] self.rsum_map@.contains_key(r) implies (exists|
                d: u128,
            |
                self.rsum_map@[r]@.contains_key(d)) && self.rsum_map@[r]@.dom().finite() by {
                if r == rkey {
                    assert(self.rsum_map@[r]@ == e1);
                    assert(e1.contains_key(dkey));
                    assert(self.rsum_map@[r]@.contains_key(dkey));
                } else {
                    assert(mid_map.contains_key(r));
                    let d = choose|d: u128| mid_map[r]@.contains_key(d);
                    assert(self.rsum_map@[r] == mid_map[r]);
                    assert(self.rsum_map@[r]@.contains_key(d));
                }
            }
        }
    }

    /// Takes the block `block_id` out of the index: it is no longer looked
    /// for.  Its bucket goes with it where it was the last one in it, and
    /// so does the checksum's entry where that was its last bucket.
    pub fn remove_block(&mut self, block_id: ZBlockId)
        requires
            old(self).wf(),
            old(self)@.filed(block_id),
        ensures
            final(self).wf(),
            final(self)@ == old(self)@.resolve(block_id),
    {
        let block = self.blocklist[block_id];
        let rkey = block.rsum.key();
        let dkey = block.checksum.key();
        assert(old(self)@.buckets.contains_key(block.key()));
        let mut entry = match fnv_remove(&mut self.rsum_map, &rkey) {
            Some(entry) => entry,
            None => ChecksumMap::new(),
        };
        let ghost e0 = entry@;
        assert(e0 =~= old(self)@.weak_entry(block.rsum));
        entry.unfile(dkey, block_id);
        let ghost e1 = entry@;
        if !entry.is_empty() {
            fnv_insert(&mut self.rsum_map, rkey, entry);
        }
        proof {
            let before = old(self)@;
            let goal = before.resolve(block_id);
            assert(bucket_of(before.buckets, block.key()) == bucket_of(e0, dkey));
            assert forall|k: BlockKey|
                #![trigger self@.buckets.contains_key(k)]
                #![trigger goal.buckets.contains_key(k)]
                self@.buckets.contains_key(k) == goal.buckets.contains_key(k) && (
                self@.buckets.contains_key(k) ==> self@.buckets[k] == goal.buckets[k]) by {
                lemma_rsum_key_injective(k.rsum, block.rsum);
                if k.rsum == block.rsum {
                    assert(before.buckets.contains_key(k) == e0.contains_key(k.digest));
                    assert(self@.buckets.contains_key(k) == e1.contains_key(k.digest));
                    if e0.contains_key(k.digest) {
                        assert(before.buckets[k] == e0[k.digest]);
                    }
                    if k.digest == dkey {
                        assert(k == block.key());
                    }
                } else {
                    assert(self.rsum_map@.contains_key(k.rsum.key_spec()) == old(
                        self,
                    ).rsum_map@.contains_key(k.rsum.key_spec()));
                }
            }
            assert(self@.buckets =~= goal.buckets);
            before.lemma_resolve_wf(block_id);
            assert forall|r: u32| #[trigger] self.rsum_map@.contains_key(r) implies (exists|
                d: u128,
            |
                self.rsum_map@[r]@.contains_key(d)) && self.rsum_map@[r]@.dom().finite() by {
                if r != rkey {
                    assert(old(self).rsum_map@.contains_key(r));
                    let d = choose|d: u128| old(self).rsum_map@[r]@.contains_key(d);
                    assert(self.rsum_map@[r] == old(self).rsum_map@[r]);
                    assert(self.rsum_map@[r]@.contains_key(d));
                } else {
                    assert(self.rsum_map@[r]@ == e1);
                    let d = choose|d: u128| e1.contains_key(d);
                    assert(self.rsum_map@[r]@.contains_key(d));
                }
            }
        }
    }

    /// Takes the whole bucket of `rsum` and `checksum` out of the index,
    /// and the checksum's entry with it where that was its last bucket.
    pub fn remove_checksum(&mut self, rsum: Rsum, checksum: PartialChecksum)
        requires
            old(self).wf(),
        ensures
            final(self).wf(),
            final(self)@ == old(self)@.remove_bucket(
                BlockKey { rsum, digest: checksum.key_spec() },
            ),
    {
        let rkey = rsum.key();
        let dkey = checksum.key();
        let mut entry = match fnv_remove(&mut self.rsum_map, &rkey) {
            Some(entry) => entry,
            None => ChecksumMap::new(),
        };
        let ghost e0 = entry@;
        assert(e0 =~= old(self)@.weak_entry(rsum));
        entry.remove(dkey);
        let ghost e1 = entry@;
        if !entry.is_empty() {
            fnv_insert(&mut self.rsum_map, rkey, entry);
        }
        proof {
            let before = old(self)@;
            let key = BlockKey { rsum, digest: checksum.key_spec() };
            let goal = before.remove_bucket(key);
            assert forall|k: BlockKey|
                #![trigger self@.buckets.contains_key(k)]
                #![trigger goal.buckets.contains_key(k)]
                self@.buckets.contains_key(k) == goal.buckets.contains_key(k) && (
                self@.buckets.contains_key(k) ==> self@.buckets[k] == goal.buckets[k]) by {
                lemma_rsum_key_injective(k.rsum, rsum);
                if k.rsum == rsum {
                    assert(before.buckets.contains_key(k) == e0.contains_key(k.digest));
                    assert(self@.buckets.contains_key(k) == e1.contains_key(k.digest));
                    if k.digest == dkey {
                        assert(k == key);
                    }
                } else {
                    assert(self.rsum_map@.contains_key(k.rsum.key_spec()) == old(
                        self,
                    ).rsum_map@.contains_key(k.rsum.key_spec()));
                }
            }
            assert(self@.buckets =~= goal.buckets);
            assert forall|r: u32| #[trigger] self.rsum_map@.contains_key(r) implies (exists|
                d: u128,
            |
                self.rsum_map@[r]@.contains_key(d)) && self.rsum_map@[r]@.dom().finite() by {
                if r != rkey {
                    assert(old(self).rsum_map@.contains_key(r));
                    let d = choose|d: u128| old(self).rsum_map@[r]@.contains_key(d);
                    assert(self.rsum_map@[r] == old(self).rsum_map@[r]);
                    assert(self.rsum_map@[r]@.contains_key(d));
                } else {
                    assert(self.rsum_map@[r]@ == e1);
                    let d = choose|d: u128| e1.contains_key(d);
                    assert(self.rsum_map@[r]@.contains_key(d));
                }
            }
        }
    }
}

impl IndexView {
    /// Resolving a block keeps the index well-formed.
    pub proof fn lemma_resolve_wf(self, id: ZBlockId)
        requires
            self.wf(),
        ensures
            self.resolve(id).wf(),
    {
        if self.filed(id) {
            let key = self.records[id as int].key();
            lemma_without(self.buckets[key], id);
            let after = self.resolve(id);
            assert forall|k: BlockKey| #[trigger] after.buckets.contains_key(k) implies {
                &&& after.buckets[k].len() > 0
                &&& after.buckets[k].no_duplicates()
                &&& forall|j: int|
                    0 <= j < after.buckets[k].len() ==> {
                        &&& (#[trigger] after.buckets[k][j]) < after.records.len()
                        &&& after.records[after.buckets[k][j] as int].key() == k
                    }
            } by {
                assert(self.buckets.contains_key(k));
                if k == key {
                    assert forall|j: int| 0 <= j < after.buckets[k].len() implies {
                        &&& (#[trigger] after.buckets[k][j]) < after.records.len()
                        &&& after.records[after.buckets[k][j] as int].key() == k
                    } by {
                        let x = after.buckets[k][j];
                        assert(self.buckets[k].contains(x));
                        let j0 = choose|j0: int| 0 <= j0 < self.buckets[k].len() && self.buckets[k][j0] == x;
                        assert(self.buckets[k][j0] < self.records.len());
                    }
                }
            }
        }
    }

    /// Once a block is resolved, no bucket names it.
    pub proof fn lemma_resolve_unfiles(self, id: ZBlockId)
        requires
            self.wf(),
        ensures
            forall|k: BlockKey| #[trigger]
                self.resolve(id).buckets.contains_key(k) ==> !self.resolve(id).buckets[k].contains(
                    id,
                ),
    {
        let after = self.resolve(id);
        assert forall|k: BlockKey| #[trigger] after.buckets.contains_key(k) implies !after.buckets[k].contains(
            id,
        ) by {
            if after.buckets[k].contains(id) {
                assert(self.buckets.contains_key(k));
                if self.filed(id) {
                    let key = self.records[id as int].key();
                    lemma_without(self.buckets[key], id);
                    if k != key {
                        let j = choose|j: int| 0 <= j < self.buckets[k].len() && self.buckets[k][j] == id;
                        assert(self.records[self.buckets[k][j] as int].key() == k);
                    }
                } else {
                    let j = choose|j: int| 0 <= j < self.buckets[k].len() && self.buckets[k][j] == id;
                    assert(self.records[self.buckets[k][j] as int].key() == k);
                    assert(id < self.records.len());
                }
            }
        }
    }

    /// Registering a block keeps the index well-formed.
    pub proof fn lemma_insert_wf(self, id: ZBlockId, block: ZBlock)
        requires
            self.wf(),
            id < self.records.len(),
        ensures
            self.insert(id, block).wf(),
    {
        let mid = self.resolve(id);
        self.lemma_resolve_wf(id);
        self.lemma_resolve_unfiles(id);
        let after = self.insert(id, block);
        let key = block.key();
        assert forall|k: BlockKey| #[trigger] after.buckets.contains_key(k) implies {
            &&& after.buckets[k].len() > 0
            &&& after.buckets[k].no_duplicates()
            &&& forall|j: int|
                0 <= j < after.buckets[k].len() ==> {
                    &&& (#[trigger] after.buckets[k][j]) < after.records.len()
                    &&& after.records[after.buckets[k][j] as int].key() == k
                }
        } by {
            if k == key {
                let b = bucket_of(mid.buckets, key);
                assert(after.buckets[k] == b.push(id));
                if mid.buckets.contains_key(key) {
                    assert(!b.contains(id));
                }
                assert forall|j: int| 0 <= j < b.len() implies b[j] != id by {
                    if b[j] == id {
                        assert(b.contains(id));
                    }
                }
                assert forall|j: int| 0 <= j < after.buckets[k].len() implies {
                    &&& (#[trigger] after.buckets[k][j]) < after.records.len()
                    &&& after.records[after.buckets[k][j] as int].key() == k
                } by {
                    if j < b.len() {
                        assert(after.buckets[k][j] == b[j]);
                        assert(mid.buckets[k][j] < mid.records.len());
                    }
                }
            } else {
                assert(mid.buckets.contains_key(k));
                assert forall|j: int| 0 <= j < after.buckets[k].len() implies {
                    &&& (#[trigger] after.buckets[k][j]) < after.records.len()
                    &&& after.records[after.buckets[k][j] as int].key() == k
                } by {
                    assert(mid.buckets[k][j] < mid.records.len());
                    if mid.buckets[k][j] == id {
                        assert(mid.buckets[k].contains(id));
                    }
                }
            }
        }
    }
}

impl IndexView {
    /// The index once `block` is registered for each of `ids` in turn.
    pub open spec fn insert_all(self, ids: Seq<ZBlockId>, block: ZBlock) -> IndexView
        decreases ids.len(),
    {
        if ids.len() == 0 {
            self
        } else {
            self.insert_all(ids.drop_last(), block).insert(ids.last(), block)
        }
    }

    /// The index once each of `ids` is resolved in turn.
    pub open spec fn resolve_all(self, ids: Seq<ZBlockId>) -> IndexView
        decreases ids.len(),
    {
        if ids.len() == 0 {
            self
        } else {
            self.resolve_all(ids.drop_last()).resolve(ids.last())
        }
    }

    /// Whether `key` is the only bucket under its checksum.
    pub open spec fn only_bucket(self, key: BlockKey) -> bool {
        forall|digest: u128| #[trigger]
            self.buckets.contains_key(BlockKey { rsum: key.rsum, digest }) ==> digest
                == key.digest
    }

    /// Registering one expectation for several blocks, where no block with
    /// that checksum was looked for, leaves one bucket under the checksum:
    /// those blocks, in the order in which they were registered.
    pub proof fn lemma_insert_all(self, ids: Seq<ZBlockId>, block: ZBlock)
        requires
            self.wf(),
            !self.has_weak(block.rsum),
            ids.no_duplicates(),
            forall|i: int| 0 <= i < ids.len() ==> ids[i] < self.num_blocks(),
        ensures
            self.insert_all(ids, block).wf(),
            self.insert_all(ids, block).num_blocks() == self.num_blocks(),
            self.insert_all(ids, block).only_bucket(block.key()),
            bucket_of(self.insert_all(ids, block).buckets, block.key()) == ids,
            ids.len() > 0 <==> self.insert_all(ids, block).has_weak(block.rsum),
            forall|x: ZBlockId|
                x < self.num_blocks() ==> #[trigger] self.insert_all(ids, block).records[x as int]
                    == if ids.contains(x) {
                    block
                } else {
                    self.records[x as int]
                },
        decreases ids.len(),
    {
        let key = block.key();
        let after = self.insert_all(ids, block);
        if ids.len() == 0 {
            assert forall|digest: u128| !self.buckets.contains_key(
                BlockKey { rsum: block.rsum, digest },
            ) by {}
            assert(bucket_of(self.buckets, key) =~= ids);
        } else {
            let front = ids.drop_last();
            let last = ids.last();
            let g = self.insert_all(front, block);
            assert forall|i: int| 0 <= i < front.len() implies front[i] < self.num_blocks() by {
                assert(front[i] == ids[i]);
            }
            self.lemma_insert_all(front, block);
            assert(!front.contains(last)) by {
                if front.contains(last) {
                    let j = choose|j: int| 0 <= j < front.len() && front[j] == last;
                    assert(ids[j] == ids[ids.len() - 1]);
                }
            }
            g.lemma_insert_wf(last, block);
            g.lemma_resolve_wf(last);
            let mid = g.resolve(last);
            // resolving `last` does not touch the buckets of this checksum
            assert(forall|digest: u128|
                mid.buckets.contains_key(BlockKey { rsum: block.rsum, digest })
                    == g.buckets.contains_key(BlockKey { rsum: block.rsum, digest })
                    && bucket_of(mid.buckets, BlockKey { rsum: block.rsum, digest }) == bucket_of(
                    g.buckets,
                    BlockKey { rsum: block.rsum, digest },
                )) by {
                if g.filed(last) {
                    let there = g.records[last as int].key();
                    if there.rsum == block.rsum {
                        assert(g.buckets.contains_key(there));
                        assert(there == BlockKey { rsum: key.rsum, digest: there.digest });
                        assert(g.buckets.contains_key(
                            BlockKey { rsum: key.rsum, digest: there.digest },
                        ));
                        assert(there.digest == key.digest);
                        assert(there == key);
                        assert(false);
                    }
                }
            }
            assert(bucket_of(mid.buckets, key) == front);
            assert(bucket_of(after.buckets, key) =~= ids);
            assert(after.buckets.contains_key(key));
            assert forall|x: ZBlockId| x < self.num_blocks() implies #[trigger] after.records[x as int]
                == if ids.contains(x) {
                block
            } else {
                self.records[x as int]
            } by {
                if x == last {
                    assert(ids[ids.len() - 1] == x);
                } else {
                    if ids.contains(x) {
                        let j = choose|j: int| 0 <= j < ids.len() && ids[j] == x;
                        assert(front[j] == x);
                    }
                    if front.contains(x) {
                        let j = choose|j: int| 0 <= j < front.len() && front[j] == x;
                        assert(ids[j] == x);
                    }
                }
            }
        }
    }

    /// Resolving some of the blocks of a bucket, each once, leaves exactly
    /// the others in the bucket, and the bucket in the index as long as one
    /// is left.
    pub proof fn lemma_resolve_all(self, key: BlockKey, gone: Seq<ZBlockId>)
        requires
            self.wf(),
            gone.no_duplicates(),
            forall|i: int| 0 <= i < gone.len() ==> bucket_of(self.buckets, key).contains(gone[i]),
        ensures
            self.resolve_all(gone).wf(),
            self.resolve_all(gone).records == self.records,
            forall|x: ZBlockId| #[trigger]
                bucket_of(self.resolve_all(gone).buckets, key).contains(x) <==> bucket_of(
                    self.buckets,
                    key,
                ).contains(x) && !gone.contains(x),
            forall|k: BlockKey|
                k != key ==> (#[trigger] self.resolve_all(gone).buckets.contains_key(k)
                    == self.buckets.contains_key(k)) && bucket_of(self.resolve_all(gone).buckets, k)
                    == bucket_of(self.buckets, k),
        decreases gone.len(),
    {
        if gone.len() > 0 {
            let front = gone.drop_last();
            let last = gone.last();
            let g = self.resolve_all(front);
            assert forall|i: int| 0 <= i < front.len() implies bucket_of(self.buckets, key).contains(
                front[i],
            ) by {
                assert(front[i] == gone[i]);
            }
            self.lemma_resolve_all(key, front);
            assert(!front.contains(last)) by {
                if front.contains(last) {
                    let j = choose|j: int| 0 <= j < front.len() && front[j] == last;
                    assert(gone[j] == gone[gone.len() - 1]);
                }
            }
            assert(bucket_of(self.buckets, key).contains(gone[gone.len() - 1]));
            assert(bucket_of(g.buckets, key).contains(last));
            assert(g.buckets.contains_key(key));
            let j = choose|j: int| 0 <= j < g.buckets[key].len() && g.buckets[key][j] == last;
            assert(g.records[g.buckets[key][j] as int].key() == key);
            assert(g.filed(last));
            g.lemma_resolve_wf(last);
            lemma_without(g.buckets[key], last);
            let after = self.resolve_all(gone);
            assert(after.buckets == with_unfiled(g.buckets, key, last));
            assert(bucket_of(after.buckets, key) =~= without(g.buckets[key], last));
            assert forall|x: ZBlockId| #[trigger]
                bucket_of(after.buckets, key).contains(x) <==> bucket_of(self.buckets, key).contains(
                    x,
                ) && !gone.contains(x) by {
                assert(bucket_of(g.buckets, key).contains(x) <==> bucket_of(
                    self.buckets,
                    key,
                ).contains(x) && !front.contains(x));
                if x == last {
                    assert(gone[gone.len() - 1] == x);
                } else {
                    if gone.contains(x) {
                        let j = choose|j: int| 0 <= j < gone.len() && gone[j] == x;
                        assert(front[j] == x);
                    }
                    if front.contains(x) {
                        let j = choose|j: int| 0 <= j < front.len() && front[j] == x;
                        assert(gone[j] == x);
                    }
                }
            }
        }
    }

    /// The index keeps its integrity through registration and resolution.
    /// Once one expectation is registered for the distinct blocks `ids`,
    /// where no block with that checksum was looked for, the checksum leads
    /// to one bucket, which holds exactly `ids`.  Once some of them, `gone`,
    /// are resolved, it holds exactly the others.  Once all are resolved,
    /// the checksum leads nowhere: no empty bucket or entry stays behind.
    pub proof fn lemma_index_integrity(
        self,
        ids: Seq<ZBlockId>,
        block: ZBlock,
        gone: Seq<ZBlockId>,
    )
        requires
            self.wf(),
            !self.has_weak(block.rsum),
            ids.no_duplicates(),
            forall|i: int| 0 <= i < ids.len() ==> ids[i] < self.num_blocks(),
            gone.no_duplicates(),
            forall|i: int| 0 <= i < gone.len() ==> ids.contains(gone[i]),
        ensures
            ({
                let full = self.insert_all(ids, block);
                let rest = full.resolve_all(gone);
                &&& full.wf() && rest.wf()
                &&& ids.len() > 0 ==> full.has_weak(block.rsum) && full.weak_entry(block.rsum)
                    == Map::<u128, Seq<ZBlockId>>::empty().insert(block.key().digest, ids)
                &&& forall|x: ZBlockId| #[trigger]
                    bucket_of(rest.buckets, block.key()).contains(x) <==> ids.contains(x)
                        && !gone.contains(x)
                &&& rest.only_bucket(block.key())
                &&& rest.has_weak(block.rsum) <==> exists|x: ZBlockId|
                    ids.contains(x) && !gone.contains(x)
            }),
    {
        let key = block.key();
        let full = self.insert_all(ids, block);
        let rest = full.resolve_all(gone);
        self.lemma_insert_all(ids, block);
        full.lemma_resolve_all(key, gone);
        if ids.len() > 0 {
            assert(full.buckets.contains_key(key));
            assert(full.weak_entry(block.rsum) =~= Map::<u128, Seq<ZBlockId>>::empty().insert(
                key.digest,
                ids,
            )) by {
                assert forall|digest: u128| #[trigger]
                    full.weak_entry(block.rsum).contains_key(digest) implies digest
                    == key.digest by {
                    assert(full.buckets.contains_key(BlockKey { rsum: key.rsum, digest }));
                }
            }
        }
        assert forall|digest: u128| #[trigger]
            rest.buckets.contains_key(BlockKey { rsum: key.rsum, digest }) implies digest
            == key.digest by {
            let k = BlockKey { rsum: key.rsum, digest };
            if k != key {
                assert(rest.buckets.contains_key(k) == full.buckets.contains_key(k));
                assert(full.buckets.contains_key(BlockKey { rsum: key.rsum, digest }));
            }
        }
        assert(bucket_of(full.buckets, key) == ids);
        assert forall|x: ZBlockId| #[trigger]
            bucket_of(rest.buckets, key).contains(x) <==> ids.contains(x) && !gone.contains(x) by {
            assert(bucket_of(rest.buckets, key).contains(x) <==> bucket_of(
                full.buckets,
                key,
            ).contains(x) && !gone.contains(x));
        }
        if rest.has_weak(block.rsum) {
            let digest = choose|digest: u128|
                rest.buckets.contains_key(BlockKey { rsum: block.rsum, digest });
            assert(rest.buckets.contains_key(BlockKey { rsum: key.rsum, digest }));
            assert(digest == key.digest);
            assert(rest.buckets[key].len() > 0);
            let x = rest.buckets[key][0];
            assert(bucket_of(rest.buckets, key).contains(x));
        }
        if exists|x: ZBlockId| ids.contains(x) && !gone.contains(x) {
            let x = choose|x: ZBlockId| ids.contains(x) && !gone.contains(x);
            assert(bucket_of(rest.buckets, key).contains(x));
            assert(rest.buckets.contains_key(BlockKey { rsum: block.rsum, digest: key.digest }));
        }
    }
}

impl IndexView {
    /// Resolving a block takes that block out of what is looked for, and no
    /// other.
    pub proof fn lemma_resolve(self, id: ZBlockId)
        requires
            self.wf(),
        ensures
            !self.resolve(id).filed(id),
            forall|other: ZBlockId|
                other != id ==> #[trigger] self.resolve(id).filed(other) == self.filed(other),
            forall|k: BlockKey|
                id >= self.num_blocks() || k != self.records[id as int].key() ==> bucket_of(
                    #[trigger] self.resolve(id).buckets,
                    k,
                ) == bucket_of(self.buckets, k),
    {
        let after = self.resolve(id);
        self.lemma_resolve_unfiles(id);
        if self.filed(id) {
            let key = self.records[id as int].key();
            lemma_without(self.buckets[key], id);
            assert forall|other: ZBlockId| other != id implies #[trigger] after.filed(other)
                == self.filed(other) by {
                if other < self.records.len() {
                    let k = self.records[other as int].key();
                    if k == key {
                        assert(bucket_of(after.buckets, k).contains(other) == bucket_of(
                            self.buckets,
                            k,
                        ).contains(other));
                    }
                }
            }
        }
    }

    /// Registering a block makes it looked for under what is expected of
    /// it, last in its bucket, and changes nothing for any other block.
    pub proof fn lemma_insert(self, id: ZBlockId, block: ZBlock)
        requires
            self.wf(),
            id < self.num_blocks(),
        ensures
            self.insert(id, block).filed(id),
            self.insert(id, block).has_weak(block.rsum),
            self.insert(id, block).buckets.contains_key(block.key()),
            self.insert(id, block).buckets[block.key()] == bucket_of(
                self.resolve(id).buckets,
                block.key(),
            ).push(id),
            forall|other: ZBlockId|
                other != id ==> #[trigger] self.insert(id, block).filed(other) == self.filed(other),
            forall|k: BlockKey|
                k != block.key() ==> bucket_of(#[trigger] self.insert(id, block).buckets, k)
                    == bucket_of(self.resolve(id).buckets, k),
    {
        let mid = self.resolve(id);
        let after = self.insert(id, block);
        let key = block.key();
        self.lemma_resolve(id);
        assert(after.buckets[key].last() == id);
        assert(after.buckets[key][after.buckets[key].len() - 1] == id);
        assert(after.buckets.contains_key(BlockKey { rsum: block.rsum, digest: key.digest }));
        assert forall|other: ZBlockId| other != id implies #[trigger] after.filed(other)
            == self.filed(other) by {
            assert(mid.filed(other) == self.filed(other));
            if other < self.records.len() {
                let k = self.records[other as int].key();
                assert(after.records[other as int] == self.records[other as int]);
                assert(mid.records[other as int] == self.records[other as int]);
                if k == key {
                    let b = bucket_of(mid.buckets, key);
                    vstd::seq_lib::lemma_seq_contains_after_push(b, id, other);
                    assert(bucket_of(after.buckets, k) == b.push(id));
                } else {
                    assert(bucket_of(after.buckets, k) == bucket_of(mid.buckets, k));
                }
            }
        }
    }
}

/// The block numbers below `n`.
pub open spec fn ids_below(n: nat) -> Set<ZBlockId> {
    Set::new(|id: ZBlockId| id < n)
}

/// There are `n` block numbers below `n`, as far as the machine can count.
pub proof fn lemma_ids_below(n: nat)
    requires
        n <= usize::MAX,
    ensures
        ids_below(n).finite(),
        ids_below(n).len() == n,
    decreases n,
{
    if n == 0 {
        assert(ids_below(n) =~= Set::<ZBlockId>::empty());
    } else {
        lemma_ids_below((n - 1) as nat);
        assert(ids_below(n) =~= ids_below((n - 1) as nat).insert((n - 1) as usize));
    }
}

impl IndexView {
    /// The blocks that are still looked for.
    pub open spec fn filed_ids(self) -> Set<ZBlockId> {
        Set::new(|id: ZBlockId| self.filed(id))
    }

    /// No more blocks are looked for than the target has.
    pub proof fn lemma_filed_bound(self)
        requires
            self.num_blocks() <= usize::MAX,
        ensures
            self.filed_ids().finite(),
            self.filed_ids().len() <= self.num_blocks(),
    {
        lemma_ids_below(self.num_blocks());
        assert(self.filed_ids().subset_of(ids_below(self.num_blocks())));
        vstd::set_lib::lemma_len_subset(self.filed_ids(), ids_below(self.num_blocks()));
    }

    /// Resolving a whole bucket takes as many blocks out of the index as
    /// the bucket names, and leaves no bucket behind.
    pub proof fn lemma_resolve_bucket(self, key: BlockKey)
        requires
            self.wf(),
            self.num_blocks() <= usize::MAX,
            self.buckets.contains_key(key),
        ensures
            self.resolve_all(self.buckets[key]).wf(),
            self.resolve_all(self.buckets[key]) == self.remove_bucket(key),
            self.resolve_all(self.buckets[key]).filed_ids().finite(),
            self.resolve_all(self.buckets[key]).filed_ids().len() + self.buckets[key].len()
                == self.filed_ids().len(),
            forall|id: ZBlockId| #[trigger]
                self.resolve_all(self.buckets[key]).filed(id) == (self.filed(id)
                    && !self.buckets[key].contains(id)),
            forall|id: ZBlockId| #[trigger]
                self.buckets[key].contains(id) ==> self.filed(id) && self.records[id as int].key()
                    == key,
    {
        let ids = self.buckets[key];
        let after = self.resolve_all(ids);
        assert forall|i: int| 0 <= i < ids.len() implies bucket_of(self.buckets, key).contains(
            ids[i],
        ) by {}
        self.lemma_resolve_all(key, ids);
        self.lemma_filed_bound();
        // the bucket is gone
        assert(!after.buckets.contains_key(key)) by {
            if after.buckets.contains_key(key) {
                let x = after.buckets[key][0];
                assert(bucket_of(after.buckets, key).contains(x));
            }
        }
        assert(after.buckets =~= self.buckets.remove(key)) by {
            assert forall|k: BlockKey| k != key implies (#[trigger] after.buckets.contains_key(k)
                == self.buckets.contains_key(k)) && (after.buckets.contains_key(k)
                ==> after.buckets[k] == self.buckets[k]) by {
                assert(bucket_of(after.buckets, k) == bucket_of(self.buckets, k));
            }
        }
        // what is looked for afterwards is what was, but for the bucket's blocks
        let gone = ids.to_set();
        assert forall|id: ZBlockId| ids.contains(id) implies self.filed(id)
            && self.records[id as int].key() == key by {
            let j = choose|j: int| 0 <= j < ids.len() && ids[j] == id;
            assert(self.buckets[key][j] < self.records.len());
            assert(self.records[self.buckets[key][j] as int].key() == key);
        }
        assert forall|id: ZBlockId| after.filed(id) == (self.filed(id) && !ids.contains(id)) by {
            if id < self.records.len() {
                let k = self.records[id as int].key();
                if k != key {
                    assert(after.buckets.contains_key(k) == self.buckets.contains_key(k));
                    assert(bucket_of(after.buckets, k) == bucket_of(self.buckets, k));
                }
            }
        }
        assert(after.filed_ids() =~= self.filed_ids().difference(gone));
        assert(gone.subset_of(self.filed_ids()));
        ids.unique_seq_to_set();
        vstd::set_lib::lemma_len_subset(gone, self.filed_ids());
        assert(after.filed_ids().disjoint(gone));
        assert(after.filed_ids() + gone =~= self.filed_ids());
        vstd::set_lib::lemma_set_disjoint_lens(after.filed_ids(), gone);
    }
}

} // verus!
