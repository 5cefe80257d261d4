//! The matching session: it scans candidate data for blocks of the
//! target, takes blocks that were fetched elsewhere, and keeps the
//! reconstructed file.

use super::data_window::DataWindow;
use super::map::{bucket_of, BlockKey, IndexView, ZBlock, ZBlockId, ZBlockMap};
use super::types::{
    digest_key, digests_agree, lemma_update_is_calculate, md4_digest, MD4Digest, PartialChecksum,
    Rsum,
};
use vstd::slice::slice_subrange;
use vstd::prelude::*;

verus! {

/// Whether `n` is a power of two.
pub open spec fn is_power_of_two(n: int) -> bool
    decreases n,
{
    n == 1 || (n > 1 && n % 2 == 0 && is_power_of_two(n / 2))
}

/// What a session is set up with: how many blocks in a row are examined at
/// one position, how many bytes of a strong digest count, and the size of a
/// block.
#[derive(Copy, Clone, Debug)]
pub struct Config {
    seq_matches: usize,
    checksum_bytes: usize,
    blocksize: usize,
}

impl Config {
    /// Whether a session can be set up with these values: one or two blocks
    /// in a row, and a block size that is a power of two, small enough for
    /// the blocks examined at one position to be counted in bytes.
    pub open spec fn valid(seq_matches: usize, checksum_bytes: usize, blocksize: usize) -> bool {
        &&& 1 <= seq_matches <= 2
        &&& is_power_of_two(blocksize as int)
        &&& blocksize * seq_matches <= usize::MAX
    }

    /// How many blocks in a row are examined at one position.
    pub closed spec fn spec_seq_matches(&self) -> usize {
        self.seq_matches
    }

    /// How many leading bytes of a strong digest count.
    pub closed spec fn spec_checksum_bytes(&self) -> usize {
        self.checksum_bytes
    }

    /// The size of a block, in bytes.
    pub closed spec fn spec_blocksize(&self) -> usize {
        self.blocksize
    }

    /// Whether these values can set up a session.
    pub open spec fn wf(&self) -> bool {
        Config::valid(self.spec_seq_matches(), self.spec_checksum_bytes(), self.spec_blocksize())
    }

    /// A configuration of these values, if a session can be set up with
    /// them.
    pub fn new(seq_matches: usize, checksum_bytes: usize, blocksize: usize) -> (config: Option<
        Config,
    >)
        ensures
            config is Some <==> Config::valid(seq_matches, checksum_bytes, blocksize),
            config matches Some(c) ==> c.wf() && c.spec_seq_matches() == seq_matches
                && c.spec_checksum_bytes() == checksum_bytes && c.spec_blocksize() == blocksize,
    {
        if seq_matches < 1 || seq_matches > 2 {
            return None;
        }
        let mut n = blocksize;
        while n > 1 && n % 2 == 0
            invariant
                is_power_of_two(n as int) == is_power_of_two(blocksize as int),
            decreases n,
        {
            n = n / 2;
        }
        if n != 1 {
            return None;
        }
        if blocksize.checked_mul(seq_matches).is_none() {
            return None;
        }
        Some(Config { seq_matches, checksum_bytes, blocksize })
    }

    /// How many blocks in a row are examined at one position.
    #[verifier::when_used_as_spec(spec_seq_matches)]
    pub fn seq_matches(&self) -> (n: usize)
        ensures
            n == self.spec_seq_matches(),
    {
        self.seq_matches
    }

    /// How many leading bytes of a strong digest count.
    #[verifier::when_used_as_spec(spec_checksum_bytes)]
    pub fn checksum_bytes(&self) -> (n: usize)
        ensures
            n == self.spec_checksum_bytes(),
    {
        self.checksum_bytes
    }

    /// The size of a block, in bytes.
    #[verifier::when_used_as_spec(spec_blocksize)]
    pub fn blocksize(&self) -> (n: usize)
        ensures
            n == self.spec_blocksize(),
    {
        self.blocksize
    }
}

/// A power of two is at least one.
pub proof fn lemma_power_of_two_positive(n: int)
    requires
        is_power_of_two(n),
    ensures
        n >= 1,
{
}

/// `output` with `block` written over the block of each of `ids`: a byte of
/// the output belongs to the block whose number is the byte's offset divided
/// by the block size.
pub open spec fn with_blocks(
    output: Seq<u8>,
    ids: Seq<ZBlockId>,
    block: Seq<u8>,
    blocksize: int,
) -> Seq<u8> {
    Seq::new(
        output.len(),
        |i: int|
            if ids.contains((i / blocksize) as usize) {
                block[i % blocksize]
            } else {
                output[i]
            },
    )
}

/// What a session is, to its users.
pub struct SessionView {
    pub config: Config,
    pub index: IndexView,
    pub output: Seq<u8>,
    pub skip_bytes: nat,
}

/// How a scan ended: the session, where the cursor stood, where it could
/// not move on to, and how many blocks were matched.
pub struct ScanEnd {
    pub session: SessionView,
    pub pos: int,
    pub next: int,
    pub matched: nat,
}

impl ScanEnd {
    /// This end with the blocks counted that were matched before the scan
    /// that it ends.
    pub open spec fn after(self, matched: nat) -> ScanEnd {
        ScanEnd { matched: self.matched + matched, ..self }
    }

    /// This end seen from a buffer that holds `k` more bytes in front.
    pub open spec fn shifted(self, k: int) -> ScanEnd {
        ScanEnd { pos: self.pos + k, next: self.next + k, ..self }
    }
}

/// What examining one position of the data came to: the session, how many
/// blocks were matched, and how many blocks of data matched them.
pub struct Examined {
    pub session: SessionView,
    pub matched: nat,
    pub blocks: int,
}

impl SessionView {
    /// The size of a block, in bytes.
    pub open spec fn blocksize(self) -> int {
        self.config.blocksize() as int
    }

    /// The bytes of the output that belong to the block `id`.
    pub open spec fn block(self, id: ZBlockId) -> Seq<u8> {
        self.output.subrange(id * self.blocksize(), id * self.blocksize() + self.blocksize())
    }

    /// Whether the block `id` of the output has the rolling checksum and
    /// the truncated digest that are expected of it.
    pub open spec fn faithful(self, id: ZBlockId) -> bool {
        self.key_of(self.block(id)) == self.index.records[id as int].key()
    }

    /// Whether `after` can come of this session by finding blocks: what is
    /// set up and what is expected stay; a block that is no longer looked
    /// for has the checksum and the digest that are expected of it; every
    /// other block is looked for or not as before, and its bytes in the
    /// output are as before.
    pub open spec fn leads_to(self, after: SessionView) -> bool {
        &&& after.wf()
        &&& after.config == self.config
        &&& after.skip_bytes == self.skip_bytes
        &&& after.index.records == self.index.records
        &&& forall|id: ZBlockId|
            id < self.index.num_blocks() ==> #[trigger] self.settles(after, id)
    }

    /// What `leads_to` asks of one block.
    pub open spec fn settles(self, after: SessionView, id: ZBlockId) -> bool {
        if self.index.filed(id) && !after.index.filed(id) {
            after.faithful(id)
        } else {
            after.index.filed(id) == self.index.filed(id) && after.block(id) == self.block(id)
        }
    }

    /// The configuration is valid, the index well-formed, and the output
    /// has room for exactly the blocks of the target, counted in bytes by
    /// a machine word.
    pub open spec fn wf(self) -> bool {
        &&& self.config.wf()
        &&& self.index.wf()
        &&& self.output.len() == self.index.num_blocks() * self.blocksize()
        &&& self.output.len() <= usize::MAX
    }

    /// Where a block with the content `window` is filed, if it is.
    pub open spec fn key_of(self, window: Seq<u8>) -> BlockKey {
        BlockKey {
            rsum: Rsum::of(window),
            digest: digest_key(md4_digest(window), self.config.checksum_bytes()),
        }
    }

    /// The blocks that are looked for and expected to have the content
    /// `window`, judged by rolling checksum and truncated digest.
    pub open spec fn candidates(self, window: Seq<u8>) -> Option<Seq<ZBlockId>> {
        if self.index.buckets.contains_key(self.key_of(window)) {
            Some(self.index.buckets[self.key_of(window)])
        } else {
            None
        }
    }

    /// The session once `block` is written to each of `ids` and each of
    /// them is resolved.
    pub open spec fn commit(self, ids: Seq<ZBlockId>, block: Seq<u8>) -> SessionView {
        SessionView {
            index: self.index.resolve_all(ids),
            output: with_blocks(self.output, ids, block, self.blocksize()),
            ..self
        }
    }

    /// How far the cursor may go in a buffer of `len` bytes: the blocks that
    /// are examined at one position must lie in the buffer.
    pub open spec fn limit(self, len: int) -> int {
        len - self.blocksize() * self.config.seq_matches()
    }

    /// What examining the position `pos` of `data` does.  Where the block
    /// at `pos` has candidates, it is written to them and they are
    /// resolved; where two blocks in a row are examined and the next block
    /// has candidates then, the same is done with it.
    pub open spec fn examine(self, data: Seq<u8>, pos: int) -> Examined {
        let size = self.blocksize();
        let window = data.subrange(pos, pos + size);
        match self.candidates(window) {
            None => Examined { session: self, matched: 0, blocks: 0 },
            Some(ids) => {
                let first = self.commit(ids, window);
                let ahead = data.subrange(pos + size, pos + 2 * size);
                match first.candidates(ahead) {
                    Some(more) if self.config.seq_matches() == 2 => Examined {
                        session: first.commit(more, ahead),
                        matched: ids.len() + more.len(),
                        blocks: 2,
                    },
                    _ => Examined { session: first, matched: ids.len(), blocks: 1 },
                }
            },
        }
    }

    /// A scan of `data` from the position `pos` on.  Each position is
    /// examined; after a match the cursor moves on by the blocks that
    /// matched, otherwise by one byte; the scan ends where the cursor
    /// cannot move on within its bound.
    pub open spec fn scan_from(self, data: Seq<u8>, pos: int) -> ScanEnd
        decreases data.len() - pos,
    {
        let limit = self.limit(data.len() as int);
        if self.blocksize() < 1 || pos < 0 || pos > limit || limit > data.len() {
            ScanEnd { session: self, pos, next: pos, matched: 0 }
        } else {
            let found = self.examine(data, pos);
            let step = if found.blocks == 0 {
                1
            } else {
                found.blocks * self.blocksize()
            };
            if pos + step > limit {
                ScanEnd { session: found.session, pos, next: pos + step, matched: found.matched }
            } else {
                found.session.scan_from(data, pos + step).after(found.matched)
            }
        }
    }

    /// A scan of the whole of `data`, after which the session remembers how
    /// far from its bound the cursor stopped.
    pub open spec fn scan(self, data: Seq<u8>) -> ScanEnd {
        let end = self.scan_from(data, 0);
        ScanEnd {
            session: SessionView {
                skip_bytes: (self.limit(data.len() as int) - end.pos) as nat,
                ..end.session
            },
            ..end
        }
    }

    /// Whether bytes with the strong digest `digest`, offered for the block
    /// `id`, are taken: the digest agrees with the one expected of the block
    /// as far as the configured length reaches, and the block is still
    /// looked for.
    pub open spec fn accepts_digest(self, id: ZBlockId, digest: Seq<u8>) -> bool {
        &&& self.index.filed(id)
        &&& digests_agree(
            digest,
            self.index.records[id as int].checksum.value.0@,
            self.config.checksum_bytes(),
        )
    }

    /// The session after `data` with the strong digest `digest` was offered
    /// for the block `id`.
    pub open spec fn submit_digest(self, id: ZBlockId, digest: Seq<u8>, data: Seq<u8>) -> SessionView {
        if self.accepts_digest(id, digest) {
            self.commit(seq![id], data)
        } else {
            self
        }
    }

    /// Whether `data`, offered for the block `id`, is taken.
    pub open spec fn accepts(self, id: ZBlockId, data: Seq<u8>) -> bool {
        self.accepts_digest(id, md4_digest(data))
    }

    /// The session after `data` was offered for the block `id`.
    pub open spec fn submit_remote(self, id: ZBlockId, data: Seq<u8>) -> SessionView {
        self.submit_digest(id, md4_digest(data), data)
    }
}

/// Writes `data` into `output` from `offset` on.
fn write_at(output: &mut Vec<u8>, offset: usize, data: &[u8])
    requires
        offset + data@.len() <= old(output)@.len(),
    ensures
        final(output)@.len() == old(output)@.len(),
        forall|i: int|
            0 <= i < old(output)@.len() ==> #[trigger] final(output)@[i] == if offset <= i < offset
                + data@.len() {
                data@[i - offset]
            } else {
                old(output)@[i]
            },
{
    let n = data.len();
    let total = output.len();
    let mut j: usize = 0;
    while j < n
        invariant
            j <= n,
            n == data@.len(),
            total == output@.len(),
            output@.len() == old(output)@.len(),
            offset + n <= output@.len(),
            forall|i: int|
                0 <= i < output@.len() ==> #[trigger] output@[i] == if offset <= i < offset + j {
                    data@[i - offset]
                } else {
                    old(output)@[i]
                },
        decreases n - j,
    {
        output.set(offset + j, data[j]);
        j += 1;
    }
}

/// The bytes of one block of the output lie where the offset divided by
/// the block size is the block's number.
proof fn lemma_block_of_byte(i: int, id: int, blocksize: int)
    requires
        blocksize > 0,
        id * blocksize <= i < id * blocksize + blocksize,
    ensures
        i / blocksize == id,
        i % blocksize == i - id * blocksize,
{
    vstd::arithmetic::div_mod::lemma_fundamental_div_mod_converse(
        i,
        blocksize,
        id,
        i - id * blocksize,
    );
}

/// A byte whose offset divided by the block size is `id` lies in the block
/// `id`.
proof fn lemma_byte_of_block(i: int, blocksize: int)
    requires
        blocksize > 0,
        0 <= i,
    ensures
        (i / blocksize) * blocksize <= i < (i / blocksize) * blocksize + blocksize,
        0 <= i / blocksize <= i,
{
    vstd::arithmetic::div_mod::lemma_fundamental_div_mod(i, blocksize);
    vstd::arithmetic::div_mod::lemma_mod_bound(i, blocksize);
    vstd::arithmetic::div_mod::lemma_div_pos_is_pos(i, blocksize);
    let q = i / blocksize;
    assert(blocksize * q == q * blocksize) by (nonlinear_arith);
    assert(q <= q * blocksize) by (nonlinear_arith)
        requires
            q >= 0,
            blocksize >= 1,
    ;
}

/// A matching session for one target file: the index of the blocks that are
/// still looked for, and the reconstructed file as far as it is known.
pub struct Context {
    config: Config,
    num_blocks: usize,
    skip_bytes: usize,
    blockmap: ZBlockMap,
    output: Vec<u8>,
}

impl View for Context {
    type V = SessionView;

    closed spec fn view(&self) -> SessionView {
        SessionView {
            config: self.config,
            index: self.blockmap@,
            output: self.output@,
            skip_bytes: self.skip_bytes as nat,
        }
    }
}

impl Context {
    /// The session holds what its view says.
    pub closed spec fn wf(&self) -> bool {
        &&& self@.wf()
        &&& self.blockmap.wf()
        &&& self.num_blocks == self.blockmap@.num_blocks()
    }

    /// What holds of the view of every well-formed session.
    pub proof fn lemma_wf(&self)
        requires
            self.wf(),
        ensures
            self@.wf(),
    {
    }

    /// A session for a target of `num_blocks` blocks, of which nothing is
    /// expected yet, with an output of zeros.
    pub fn new(config: Config, num_blocks: usize) -> (session: Self)
        requires
            config.wf(),
            num_blocks * config.blocksize() <= usize::MAX,
        ensures
            session.wf(),
            session@.config == config,
            session@.skip_bytes == 0,
            session@.index.num_blocks() == num_blocks,
            session@.index.buckets == Map::<BlockKey, Seq<ZBlockId>>::empty(),
            forall|i: int|
                0 <= i < num_blocks ==> (#[trigger] session@.index.records[i]).is_unset(),
            session@.output == Seq::new((num_blocks * config.blocksize()) as nat, |i: int| 0u8),
    {
        let size = num_blocks * config.blocksize;
        let mut output: Vec<u8> = Vec::new();
        let mut i: usize = 0;
        while i < size
            invariant
                i <= size,
                output@ == Seq::new(i as nat, |i: int| 0u8),
            decreases size - i,
        {
            output.push(0);
            assert(output@ =~= Seq::new((i + 1) as nat, |i: int| 0u8));
            i += 1;
        }
        Context {
            config,
            num_blocks,
            skip_bytes: 0,
            blockmap: ZBlockMap::new(num_blocks),
            output,
        }
    }

    /// The reconstructed file as far as it is known.
    pub fn output(&self) -> (bytes: &Vec<u8>)
        ensures
            bytes@ == self@.output,
    {
        &self.output
    }

    /// The index of the blocks that are still looked for.
    pub fn blockmap(&self) -> (index: &ZBlockMap)
        ensures
            index@ == self@.index,
            self.wf() ==> index.wf(),
    {
        &self.blockmap
    }

    /// Whether every block that was registered has been resolved.
    pub fn is_complete(&self) -> (b: bool)
        requires
            self.wf(),
        ensures
            b <==> self@.index.buckets == Map::<BlockKey, Seq<ZBlockId>>::empty(),
    {
        self.blockmap.is_empty()
    }

    /// How far from its bound the cursor of the last scan stopped.
    pub fn skip_bytes(&self) -> (n: usize)
        ensures
            n == self@.skip_bytes,
    {
        self.skip_bytes
    }

    /// What the session was set up with.
    pub fn config(&self) -> (config: Config)
        ensures
            config == self@.config,
    {
        self.config
    }

    /// Registers what is expected of the block `block_id`.
    pub fn insert_block(&mut self, block_id: ZBlockId, block: ZBlock)
        requires
            old(self).wf(),
            block_id < old(self)@.index.num_blocks(),
        ensures
            final(self).wf(),
            final(self)@ == (SessionView {
                index: old(self)@.index.insert(block_id, block),
                ..old(self)@
            }),
    {
        self.blockmap.insert(block_id, block);
        proof {
            self.blockmap.lemma_wf();
        }
    }

    /// Writes `data` to each of `blocks` and resolves each of them.
    fn write_blocks(&mut self, blocks: &[ZBlockId], data: &[u8], Ghost(key): Ghost<BlockKey>)
        requires
            old(self).wf(),
            data@.len() == old(self)@.blocksize(),
            blocks@.no_duplicates(),
            forall|i: int|
                0 <= i < blocks@.len() ==> bucket_of(old(self)@.index.buckets, key).contains(
                    blocks@[i],
                ),
        ensures
            final(self).wf(),
            final(self)@ == old(self)@.commit(blocks@, data@),
    {
        let blocksize = self.config.blocksize;
        let ghost before = self@;
        proof {
            assert(blocks@.take(0) =~= Seq::<ZBlockId>::empty());
            assert(with_blocks(before.output, blocks@.take(0), data@, blocksize as int)
                =~= before.output);
        }
        let mut k: usize = 0;
        while k < blocks.len()
            invariant
                k <= blocks@.len(),
                self.wf(),
                before.wf(),
                blocksize == before.blocksize(),
                data@.len() == blocksize,
                blocks@.no_duplicates(),
                forall|i: int|
                    0 <= i < blocks@.len() ==> bucket_of(before.index.buckets, key).contains(
                        blocks@[i],
                    ),
                self@ == before.commit(blocks@.take(k as int), data@),
            decreases blocks@.len() - k,
        {
            let b = blocks[k];
            let total = self.output.len();
            let ghost done = blocks@.take(k as int);
            let ghost next = blocks@.take(k as int + 1);
            proof {
                assert(next.drop_last() =~= done);
                assert(next.last() == b);
                assert(done.no_duplicates());
                assert forall|i: int| 0 <= i < done.len() implies bucket_of(
                    before.index.buckets,
                    key,
                ).contains(done[i]) by {
                    assert(done[i] == blocks@[i]);
                }
                before.index.lemma_resolve_all(key, done);
                assert(!done.contains(b)) by {
                    if done.contains(b) {
                        let j = choose|j: int| 0 <= j < done.len() && done[j] == b;
                        assert(blocks@[j] == blocks@[k as int]);
                    }
                }
                assert(bucket_of(before.index.buckets, key).contains(blocks@[k as int]));
                assert(bucket_of(self@.index.buckets, key).contains(b));
                let j = choose|j: int|
                    0 <= j < self@.index.buckets[key].len() && self@.index.buckets[key][j] == b;
                assert(self@.index.records[self@.index.buckets[key][j] as int].key() == key);
                assert(self@.index.filed(b));
                assert(b < self.num_blocks);
                assert(self.output@.len() == self.num_blocks * blocksize);
                assert(0 <= b * blocksize && b * blocksize + blocksize <= self.num_blocks
                    * blocksize) by (nonlinear_arith)
                    requires
                        0 <= b < self.num_blocks,
                        blocksize >= 0,
                ;
            }
            let ghost old_output = self.output@;
            write_at(&mut self.output, b * blocksize, data);
            self.blockmap.remove_block(b);
            proof {
                self.blockmap.lemma_wf();
                let goal = with_blocks(before.output, next, data@, blocksize as int);
                lemma_power_of_two_positive(blocksize as int);
                assert forall|i: int| 0 <= i < self.output@.len() implies self.output@[i]
                    == goal[i] by {
                    lemma_byte_of_block(i, blocksize as int);
                    assert(i < total);
                    let owner = (i / (blocksize as int)) as usize;
                    if b * blocksize <= i < b * blocksize + blocksize {
                        lemma_block_of_byte(i, b as int, blocksize as int);
                        assert(owner == b);
                        assert(next.contains(b));
                    } else {
                        assert(owner != b) by {
                            if owner == b {
                                assert(false);
                            }
                        }
                        assert(next.contains(owner) == done.contains(owner)) by {
                            if next.contains(owner) {
                                let j = choose|j: int| 0 <= j < next.len() && next[j] == owner;
                                assert(done[j] == owner);
                            }
                            if done.contains(owner) {
                                let j = choose|j: int| 0 <= j < done.len() && done[j] == owner;
                                assert(next[j] == owner);
                            }
                        }
                    }
                }
                assert(self.output@ =~= goal);
            }
            k += 1;
        }
        assert(blocks@.take(k as int) =~= blocks@);
    }

    /// Looks up the blocks that are expected to have the checksum `rsum`
    /// and the content `data`: by the checksum first, and only where that
    /// leads somewhere by the strong digest of `data`.
    fn check_block_match(&self, rsum: Rsum, data: &[u8]) -> (found: Option<Vec<ZBlockId>>)
        requires
            self.wf(),
        ensures
            ({
                let key = BlockKey {
                    rsum,
                    digest: digest_key(md4_digest(data@), self@.config.checksum_bytes()),
                };
                match found {
                    Some(ids) => self@.index.buckets.contains_key(key) && ids@
                        == self@.index.buckets[key],
                    None => !self@.index.buckets.contains_key(key),
                }
            }),
    {
        match self.blockmap.search_weak(rsum) {
            Some(entry) => {
                let checksum = PartialChecksum {
                    value: MD4Digest::calculate(data),
                    length: self.config.checksum_bytes,
                };
                match entry.get(&checksum) {
                    Some(ids) => Some(ids.clone()),
                    None => None,
                }
            },
            None => None,
        }
    }

    /// Takes bytes that were fetched for the block `id` and whose strong
    /// digest is `digest`: where the digest agrees with the one expected of
    /// the block and the block is still looked for, the bytes are written
    /// to its place and the block is resolved; otherwise nothing changes.
    /// Says whether the bytes were taken.
    pub fn submit_digested_block(&mut self, id: ZBlockId, digest: MD4Digest, data: &[u8]) -> (taken:
        bool)
        requires
            old(self).wf(),
            id < old(self)@.index.num_blocks(),
            data@.len() == old(self)@.blocksize(),
        ensures
            final(self).wf(),
            taken == old(self)@.accepts_digest(id, digest.0@),
            final(self)@ == old(self)@.submit_digest(id, digest.0@, data@),
    {
        let checksum = PartialChecksum { value: digest, length: self.config.checksum_bytes };
        let expected = self.blockmap.block(id);
        if checksum == expected.checksum && self.blockmap.contains(id) {
            let ids: [ZBlockId; 1] = [id];
            assert(ids@ =~= seq![id]);
            self.write_blocks(&ids, data, Ghost(expected.key()));
            true
        } else {
            false
        }
    }

    /// Takes bytes that were fetched for the block `id`: where their digest
    /// agrees with the one expected of the block and the block is still
    /// looked for, they are written to its place and the block is resolved;
    /// otherwise nothing changes.
    pub fn submit_remote_block(&mut self, id: ZBlockId, data: &[u8])
        requires
            old(self).wf(),
            id < old(self)@.index.num_blocks(),
            data@.len() == old(self)@.blocksize(),
        ensures
            final(self).wf(),
            final(self)@ == old(self)@.submit_remote(id, data@),
    {
        let digest = MD4Digest::calculate(data);
        let _ = self.submit_digested_block(id, digest, data);
    }

    /// Examines the block of `data` at `pos`, of which `current` is the
    /// rolling checksum, and the block after it, of which `ahead` is.
    fn match_at(&mut self, data: &[u8], pos: usize, current: Rsum, ahead: Rsum) -> (found: (
        usize,
        usize,
    ))
        requires
            old(self).wf(),
            pos + old(self)@.blocksize() * old(self)@.config.seq_matches() <= data@.len(),
            current == Rsum::of(data@.subrange(pos as int, pos + old(self)@.blocksize())),
            old(self)@.config.seq_matches() == 2 ==> ahead == Rsum::of(
                data@.subrange(
                    pos + old(self)@.blocksize(),
                    pos + 2 * old(self)@.blocksize(),
                ),
            ),
        ensures
            final(self).wf(),
            final(self)@ == old(self)@.examine(data@, pos as int).session,
            found.0 == old(self)@.examine(data@, pos as int).matched,
            found.1 == old(self)@.examine(data@, pos as int).blocks,
            0 <= found.1 <= old(self)@.config.seq_matches(),
            final(self)@.index.filed_ids().len() + found.0 == old(self)@.index.filed_ids().len(),
    {
        let size = self.config.blocksize;
        proof {
            assert(data@.len() == data.len());
            lemma_power_of_two_positive(size as int);
            self@.index.lemma_filed_bound();
            assert(size * self.config.seq_matches >= size) by (nonlinear_arith)
                requires
                    self.config.seq_matches >= 1,
                    size >= 0,
            ;
        }
        let window = slice_subrange(data, pos, pos + size);
        let ids = match self.check_block_match(current, window) {
            None => {
                return (0, 0);
            },
            Some(ids) => ids,
        };
        proof {
            self@.index.lemma_resolve_bucket(self@.key_of(window@));
        }
        self.write_blocks(ids.as_slice(), window, Ghost(old(self)@.key_of(window@)));
        let matched = ids.len();
        if self.config.seq_matches < 2 {
            return (matched, 1);
        }
        proof {
            assert(size * 2 == 2 * size);
            self@.index.lemma_filed_bound();
        }
        let next = slice_subrange(data, pos + size, pos + 2 * size);
        let ghost first = self@;
        match self.check_block_match(ahead, next) {
            None => (matched, 1),
            Some(more) => {
                proof {
                    self@.index.lemma_resolve_bucket(self@.key_of(next@));
                }
                self.write_blocks(more.as_slice(), next, Ghost(first.key_of(next@)));
                (matched + more.len(), 2)
            },
        }
    }

    /// Scans `data` for blocks of the target, writes each block that is
    /// found to its place in the output and resolves it, and returns how
    /// many blocks of the target were matched.
    pub fn submit_source_data(&mut self, data: &[u8]) -> (matched: usize)
        requires
            old(self).wf(),
            old(self)@.blocksize() * old(self)@.config.seq_matches() <= data@.len(),
        ensures
            final(self).wf(),
            final(self)@ == old(self)@.scan(data@).session,
            matched == old(self)@.scan(data@).matched,
    {
        let size = self.config.blocksize;
        let seq = self.config.seq_matches;
        let total = data.len();
        let limit = total - size * seq;
        let ghost before = self@;
        proof {
            lemma_power_of_two_positive(size as int);
            before.index.lemma_filed_bound();
            assert(size * seq >= size) by (nonlinear_arith)
                requires
                    seq >= 1,
                    size >= 0,
            ;
            if seq == 2 {
                assert(size * seq == 2 * size);
            }
        }
        let mut window = DataWindow::new(size, limit, data);
        let mut current = Rsum::calculate(window.get_cur_block());
        let mut ahead = if seq > 1 {
            Rsum::calculate(slice_subrange(data, size, 2 * size))
        } else {
            Rsum::default()
        };
        let mut got_blocks: usize = 0;
        loop
            invariant_except_break
                current == Rsum::of(window@.block_at(0)),
                seq == 2 ==> ahead == Rsum::of(window@.block_at(size as int)),
                before.scan_from(data@, 0) == self@.scan_from(data@, window@.pos as int).after(
                    got_blocks as nat,
                ),
            invariant
                self.wf(),
                self@.config == before.config,
                self@.skip_bytes == before.skip_bytes,
                size == before.blocksize(),
                seq == before.config.seq_matches(),
                size >= 1,
                1 <= seq <= 2,
                total == data@.len(),
                limit == total - size * seq,
                size * seq >= size,
                seq == 2 ==> size * seq == 2 * size,
                window@.wf(),
                window@.blocksize == size,
                window@.limit == limit,
                window@.data == data@,
                got_blocks + self@.index.filed_ids().len() <= before.index.filed_ids().len(),
                before.index.filed_ids().len() <= usize::MAX,
            ensures
                before.scan_from(data@, 0).session == self@,
                before.scan_from(data@, 0).pos == window@.pos,
                before.scan_from(data@, 0).matched == got_blocks,
            decreases limit - window@.pos,
        {
            let pos = window.position();
            let found = self.match_at(data, pos, current, ahead);
            got_blocks += found.0;
            if found.1 > 0 {
                proof {
                    assert(size * found.1 == found.1 * size) by (nonlinear_arith);
                }
                if window.advance_n_blocks(found.1).is_err() {
                    break;
                }
                current = Rsum::calculate(window.get_cur_block());
                if seq > 1 {
                    let at = window.position();
                    ahead = Rsum::calculate(slice_subrange(data, at + size, at + 2 * size));
                }
            } else {
                let leaving = window.get_cur_block()[0];
                if window.advance_byte().is_err() {
                    break;
                }
                let entering = window.get_cur_block()[size - 1];
                proof {
                    let was = data@.subrange(pos as int, pos + size);
                    lemma_update_is_calculate(was, entering);
                    assert(was.drop_first().push(entering) =~= window@.block_at(0));
                }
                current.update(leaving, entering, size);
                if seq > 1 {
                    let at = window.position();
                    let second = data[at + 2 * size - 1];
                    proof {
                        let was = data@.subrange(pos + size, pos + 2 * size);
                        lemma_update_is_calculate(was, second);
                        assert(was.drop_first().push(second) =~= window@.block_at(size as int));
                        assert(was[0] == entering);
                    }
                    ahead.update(entering, second, size);
                }
            }
        }
        self.skip_bytes = window.get_remainder();
        got_blocks
    }
}

impl SessionView {
    /// The session with another count of bytes remembered.
    pub open spec fn with_skip(self, skip_bytes: nat) -> SessionView {
        SessionView { skip_bytes, ..self }
    }

    /// Whether nothing is matched at any position of `data` from `from` up
    /// to, and without, `to`.
    pub open spec fn quiet(self, data: Seq<u8>, from: int, to: int) -> bool {
        forall|p: int|
            from <= p < to ==> (#[trigger] self.candidates(
                data.subrange(p, p + self.blocksize()),
            )) is None
    }

    /// Bytes that are offered for a block that is still looked for, and
    /// whose digest agrees with the one expected of it, stand in the
    /// block's place afterwards, with the rest of the output as it was;
    /// that block is no longer looked for, every other one as before.
    /// Bytes whose digest does not agree change nothing.  This holds of
    /// every digest, and so of the one that is computed from the bytes.
    pub proof fn lemma_submit_digest(self, id: ZBlockId, digest: Seq<u8>, data: Seq<u8>)
        requires
            self.wf(),
            self.index.filed(id),
            data.len() == self.blocksize(),
        ensures
            ({
                let after = self.submit_digest(id, digest, data);
                let agree = digests_agree(
                    digest,
                    self.index.records[id as int].checksum.value.0@,
                    self.config.checksum_bytes(),
                );
                &&& after.wf()
                &&& !agree ==> after == self
                &&& agree ==> {
                    &&& !after.index.filed(id)
                    &&& forall|other: ZBlockId|
                        other != id ==> #[trigger] after.index.filed(other) == self.index.filed(
                            other,
                        )
                    &&& after.output.len() == self.output.len()
                    &&& after.output.subrange(
                        id * self.blocksize(),
                        id * self.blocksize() + self.blocksize(),
                    ) == data
                    &&& forall|i: int|
                        0 <= i < id * self.blocksize() || id * self.blocksize() + self.blocksize()
                            <= i < self.output.len() ==> #[trigger] after.output[i]
                            == self.output[i]
                }
            }),
    {
        let after = self.submit_digest(id, digest, data);
        let size = self.blocksize();
        lemma_power_of_two_positive(size);
        if self.accepts_digest(id, digest) {
            let ids = seq![id];
            assert(ids.drop_last() =~= Seq::<ZBlockId>::empty());
            assert(ids.last() == id);
            assert(self.index.resolve_all(ids.drop_last()) == self.index);
            assert(self.index.resolve_all(ids) == self.index.resolve(id));
            self.index.lemma_resolve(id);
            self.index.lemma_resolve_wf(id);
            assert(id * size + size <= self.index.num_blocks() * size) by (nonlinear_arith)
                requires
                    0 <= id < self.index.num_blocks(),
                    size >= 0,
            ;
            assert(0 <= id * size) by (nonlinear_arith)
                requires
                    size >= 0,
            ;
            assert forall|i: int| 0 <= i < self.output.len() implies #[trigger] after.output[i]
                == if id * size <= i < id * size + size {
                data[i - id * size]
            } else {
                self.output[i]
            } by {
                lemma_byte_of_block(i, size);
                assert(0 <= i / size <= usize::MAX);
                let owner = (i / size) as usize;
                if id * size <= i < id * size + size {
                    lemma_block_of_byte(i, id as int, size);
                    assert(ids[0] == owner);
                } else {
                    if ids.contains(owner) {
                        let j = choose|j: int| 0 <= j < ids.len() && ids[j] == owner;
                        assert(owner == id);
                    }
                }
            }
            assert(after.output.subrange(id * size, id * size + size) =~= data);
        }
    }

    /// Sessions that differ only in the count of bytes they remember scan
    /// alike.
    pub proof fn lemma_scan_forgets_skip(self, skip_bytes: nat, data: Seq<u8>, pos: int)
        ensures
            self.with_skip(skip_bytes).scan_from(data, pos) == (ScanEnd {
                session: self.scan_from(data, pos).session.with_skip(skip_bytes),
                ..self.scan_from(data, pos)
            }),
        decreases data.len() - pos,
    {
        let other = self.with_skip(skip_bytes);
        let limit = self.limit(data.len() as int);
        if self.blocksize() < 1 || pos < 0 || pos > limit || limit > data.len() {
        } else {
            let found = self.examine(data, pos);
            let found2 = other.examine(data, pos);
            assert(found2.session == found.session.with_skip(skip_bytes));
            assert(found2.matched == found.matched && found2.blocks == found.blocks);
            let step = if found.blocks == 0 {
                1
            } else {
                found.blocks * self.blocksize()
            };
            assert(step >= 1) by (nonlinear_arith)
                requires
                    step == if found.blocks == 0 {
                        1
                    } else {
                        found.blocks * self.blocksize()
                    },
                    found.blocks == 0 || found.blocks == 1 || found.blocks == 2,
                    self.blocksize() >= 1,
            ;
            if pos + step <= limit {
                found.session.lemma_scan_forgets_skip(skip_bytes, data, pos + step);
            }
        }
    }

    /// The cursor never tries to move on beyond the end of the blocks that
    /// are examined at its bound.
    pub proof fn lemma_scan_next(self, data: Seq<u8>, pos: int)
        requires
            self.config.wf(),
            0 <= pos <= self.limit(data.len() as int),
        ensures
            pos <= self.scan_from(data, pos).pos <= self.limit(data.len() as int),
            self.scan_from(data, pos).pos < self.scan_from(data, pos).next <= data.len(),
            self.scan_from(data, pos).next > self.limit(data.len() as int),
            self.scan_from(data, pos).session.config == self.config,
        decreases data.len() - pos,
    {
        let limit = self.limit(data.len() as int);
        let size = self.blocksize();
        let seq = self.config.seq_matches() as int;
        lemma_power_of_two_positive(size);
        assert(size * seq >= size && size * seq >= 1 && (seq == 2 ==> size * seq == 2 * size)) by (nonlinear_arith)
            requires
                1 <= seq <= 2,
                size >= 1,
        ;
        let found = self.examine(data, pos);
        let step = if found.blocks == 0 {
            1
        } else {
            found.blocks * size
        };
        assert(1 <= step <= size * seq) by (nonlinear_arith)
            requires
                step == if found.blocks == 0 {
                    1
                } else {
                    found.blocks * size
                },
                found.blocks == 0 || found.blocks == 1 || (found.blocks == 2 && seq == 2),
                size >= 1,
                1 <= seq <= 2,
        ;
        if pos + step <= limit {
            found.session.lemma_scan_next(data, pos + step);
        }
    }

    /// A scan goes through a stretch where nothing is matched one byte at a
    /// time and changes nothing there.
    pub proof fn lemma_scan_quiet(self, data: Seq<u8>, from: int, to: int)
        requires
            self.config.wf(),
            0 <= from <= to <= self.limit(data.len() as int),
            self.quiet(data, from, to),
        ensures
            self.scan_from(data, from) == self.scan_from(data, to),
        decreases to - from,
    {
        lemma_power_of_two_positive(self.blocksize());
        let size = self.blocksize();
        let seq = self.config.seq_matches() as int;
        assert(size * seq >= 1) by (nonlinear_arith)
            requires
                1 <= seq <= 2,
                size >= 1,
        ;
        if from < to {
            assert(self.candidates(data.subrange(from, from + self.blocksize())) is None);
            let found = self.examine(data, from);
            assert(found.session == self && found.matched == 0 && found.blocks == 0);
            self.lemma_scan_quiet(data, from + 1, to);
            assert(self.scan_from(data, from) == self.scan_from(data, from + 1).after(0));
        }
    }

    /// A scan from a position on sees only the data from that position on.
    pub proof fn lemma_scan_shift(self, data: Seq<u8>, k: int, pos: int)
        requires
            self.config.wf(),
            0 <= k <= data.len(),
            0 <= pos,
        ensures
            self.scan_from(data, k + pos) == self.scan_from(data.skip(k), pos).shifted(k),
        decreases data.len() - k - pos,
    {
        let rest = data.skip(k);
        let size = self.blocksize();
        let seq = self.config.seq_matches() as int;
        lemma_power_of_two_positive(size);
        assert(size * seq >= size && (seq == 2 ==> size * seq == 2 * size)) by (nonlinear_arith)
            requires
                1 <= seq <= 2,
                size >= 1,
        ;
        let limit = self.limit(data.len() as int);
        assert(self.limit(rest.len() as int) == limit - k);
        if k + pos > limit {
        } else {
            assert(data.subrange(k + pos, k + pos + size) =~= rest.subrange(pos, pos + size));
            if seq == 2 {
                assert(data.subrange(k + pos + size, k + pos + 2 * size) =~= rest.subrange(
                    pos + size,
                    pos + 2 * size,
                ));
            }
            let found = self.examine(data, k + pos);
            assert(found == self.examine(rest, pos));
            let step = if found.blocks == 0 {
                1
            } else {
                found.blocks * size
            };
            assert(step >= 1) by (nonlinear_arith)
                requires
                    step == if found.blocks == 0 {
                        1
                    } else {
                        found.blocks * size
                    },
                    found.blocks == 0 || found.blocks == 1 || found.blocks == 2,
                    size >= 1,
            ;
            if k + pos + step <= limit {
                found.session.lemma_scan_shift(data, k, pos + step);
            }
        }
    }

    /// A scan of the first `k` bytes of the data goes as the scan of all of
    /// it goes, up to where the shorter one ends; from there the longer one
    /// goes on, if it can.
    pub proof fn lemma_scan_prefix(self, data: Seq<u8>, k: int, pos: int)
        requires
            self.config.wf(),
            0 <= k <= data.len(),
            0 <= pos <= self.limit(k),
        ensures
            ({
                let first = self.scan_from(data.take(k), pos);
                self.scan_from(data, pos) == if first.next > self.limit(data.len() as int) {
                    first
                } else {
                    first.session.scan_from(data, first.next).after(first.matched)
                }
            }),
        decreases k - pos,
    {
        let front = data.take(k);
        let size = self.blocksize();
        let seq = self.config.seq_matches() as int;
        lemma_power_of_two_positive(size);
        assert(size * seq >= size && (seq == 2 ==> size * seq == 2 * size)) by (nonlinear_arith)
            requires
                1 <= seq <= 2,
                size >= 1,
        ;
        let limit = self.limit(data.len() as int);
        let bound = self.limit(k);
        assert(self.limit(front.len() as int) == bound);
        assert(data.subrange(pos, pos + size) =~= front.subrange(pos, pos + size));
        if seq == 2 {
            assert(data.subrange(pos + size, pos + 2 * size) =~= front.subrange(
                pos + size,
                pos + 2 * size,
            ));
        }
        let found = self.examine(data, pos);
        assert(found == self.examine(front, pos));
        let step = if found.blocks == 0 {
            1
        } else {
            found.blocks * size
        };
        assert(step >= 1) by (nonlinear_arith)
            requires
                step == if found.blocks == 0 {
                    1
                } else {
                    found.blocks * size
                },
                found.blocks == 0 || found.blocks == 1 || found.blocks == 2,
                size >= 1,
        ;
        if pos + step <= bound {
            found.session.lemma_scan_prefix(data, k, pos + step);
        }
    }

    /// Scanning data in two calls, split at `k`, comes to what scanning it
    /// in one call comes to, in the session and in the count of matched
    /// blocks, where nothing would be matched between the position that the
    /// first call could not move on to and the split: in particular where
    /// the first call ends with a match whose blocks end at the split.
    pub proof fn lemma_scan_resumes(self, data: Seq<u8>, k: int)
        requires
            self.config.wf(),
            self.blocksize() * self.config.seq_matches() <= k,
            k + self.blocksize() * self.config.seq_matches() <= data.len(),
            self.scan(data.take(k)).session.quiet(data, self.scan(data.take(k)).next, k),
        ensures
            ({
                let first = self.scan(data.take(k));
                let second = first.session.scan(data.skip(k));
                let whole = self.scan(data);
                &&& second.session == whole.session
                &&& first.matched + second.matched == whole.matched
            }),
    {
        let front = data.take(k);
        let rest = data.skip(k);
        let first = self.scan(front);
        let inner = self.scan_from(front, 0);
        let limit = self.limit(data.len() as int);
        self.lemma_scan_next(front, 0);
        self.lemma_scan_prefix(data, k, 0);
        assert(inner.next <= k);
        let mid = inner.session;
        // the whole scan goes on from where the first call ended
        assert(self.scan_from(data, 0) == mid.scan_from(data, inner.next).after(inner.matched));
        // through the quiet stretch
        assert(mid.quiet(data, inner.next, k)) by {
            assert forall|p: int| inner.next <= p < k implies (#[trigger] mid.candidates(
                data.subrange(p, p + mid.blocksize()),
            )) is None by {
                assert(first.session.candidates(data.subrange(p, p + first.session.blocksize()))
                    is None);
            }
        }
        mid.lemma_scan_quiet(data, inner.next, k);
        // and from the split on as the second call does
        mid.lemma_scan_shift(data, k, 0);
        mid.lemma_scan_forgets_skip(first.session.skip_bytes, rest, 0);
        assert(first.session == mid.with_skip(first.session.skip_bytes));
        assert(self.limit(rest.len() as int) == limit - k);
    }
}

impl SessionView {
    /// Writing a found block to its candidates and resolving them leads to
    /// a session in which each of them has what is expected of it, and
    /// takes as many blocks out of the index as there were candidates.
    pub proof fn lemma_commit_found(self, window: Seq<u8>)
        requires
            self.wf(),
            window.len() == self.blocksize(),
            self.candidates(window) is Some,
        ensures
            self.leads_to(self.commit(self.candidates(window)->Some_0, window)),
            self.commit(self.candidates(window)->Some_0, window).index.filed_ids().len()
                + self.candidates(window)->Some_0.len() == self.index.filed_ids().len(),
    {
        let key = self.key_of(window);
        let ids = self.index.buckets[key];
        let after = self.commit(ids, window);
        let size = self.blocksize();
        lemma_power_of_two_positive(size);
        assert(self.index.num_blocks() <= self.index.num_blocks() * size) by (nonlinear_arith)
            requires
                size >= 1,
        ;
        self.index.lemma_resolve_bucket(key);
        assert(after.output.len() == self.output.len());
        assert forall|id: ZBlockId| id < self.index.num_blocks() implies #[trigger] self.settles(
            after,
            id,
        ) by {
            assert(0 <= id * size && id * size + size <= self.index.num_blocks() * size)
                by (nonlinear_arith)
                requires
                    0 <= id < self.index.num_blocks(),
                    size >= 0,
            ;
            assert(after.index.filed(id) == (self.index.filed(id) && !ids.contains(id)));
            if ids.contains(id) {
                assert forall|j: int| 0 <= j < size implies after.block(id)[j] == window[j] by {
                    lemma_block_of_byte(id * size + j, id as int, size);
                }
                assert(after.block(id) =~= window);
            } else {
                assert forall|j: int| 0 <= j < size implies after.block(id)[j] == self.block(
                    id,
                )[j] by {
                    lemma_block_of_byte(id * size + j, id as int, size);
                }
                assert(after.block(id) =~= self.block(id));
            }
        }
    }

    /// What finding blocks leads to can be followed step by step.
    pub proof fn lemma_leads_on(self, mid: SessionView, after: SessionView)
        requires
            self.leads_to(mid),
            mid.leads_to(after),
        ensures
            self.leads_to(after),
    {
        assert forall|id: ZBlockId| id < self.index.num_blocks() implies #[trigger] self.settles(
            after,
            id,
        ) by {
            assert(self.settles(mid, id));
            assert(mid.settles(after, id));
        }
    }

    /// Examining a position leads to a session in which each block that
    /// was found has what is expected of it, and counts the blocks that it
    /// takes out of the index.
    pub proof fn lemma_examine_sound(self, data: Seq<u8>, pos: int)
        requires
            self.wf(),
            0 <= pos,
            pos + self.blocksize() * self.config.seq_matches() <= data.len(),
        ensures
            self.leads_to(self.examine(data, pos).session),
            self.examine(data, pos).session.index.filed_ids().len() + self.examine(
                data,
                pos,
            ).matched == self.index.filed_ids().len(),
            0 <= self.examine(data, pos).blocks <= self.config.seq_matches(),
    {
        let size = self.blocksize();
        let seq = self.config.seq_matches() as int;
        lemma_power_of_two_positive(size);
        assert(size * seq >= size && (seq == 2 ==> size * seq == 2 * size)) by (nonlinear_arith)
            requires
                1 <= seq <= 2,
                size >= 1,
        ;
        let window = data.subrange(pos, pos + size);
        match self.candidates(window) {
            None => {
                assert forall|id: ZBlockId| id < self.index.num_blocks() implies #[trigger] self.settles(
                    self,
                    id,
                ) by {}
            },
            Some(ids) => {
                self.lemma_commit_found(window);
                let first = self.commit(ids, window);
                if seq == 2 {
                    let ahead = data.subrange(pos + size, pos + 2 * size);
                    if first.candidates(ahead) is Some {
                        first.lemma_commit_found(ahead);
                        self.lemma_leads_on(
                            first,
                            first.commit(first.candidates(ahead)->Some_0, ahead),
                        );
                    }
                }
            },
        }
    }

    /// A scan leads to a session in which each block that it found has the
    /// rolling checksum and the truncated digest that are expected of it,
    /// while every other block and its bytes in the output are as they
    /// were; and it counts exactly the blocks that it takes out of the
    /// index.
    pub proof fn lemma_scan_sound(self, data: Seq<u8>, pos: int)
        requires
            self.wf(),
        ensures
            self.leads_to(self.scan_from(data, pos).session),
            self.scan_from(data, pos).session.index.filed_ids().len() + self.scan_from(
                data,
                pos,
            ).matched == self.index.filed_ids().len(),
        decreases data.len() - pos,
    {
        let limit = self.limit(data.len() as int);
        let size = self.blocksize();
        lemma_power_of_two_positive(size);
        if pos < 0 || pos > limit || limit > data.len() {
            assert forall|id: ZBlockId| id < self.index.num_blocks() implies #[trigger] self.settles(
                self,
                id,
            ) by {}
        } else {
            self.lemma_examine_sound(data, pos);
            let found = self.examine(data, pos);
            let step = if found.blocks == 0 {
                1
            } else {
                found.blocks * size
            };
            assert(step >= 1) by (nonlinear_arith)
                requires
                    step == if found.blocks == 0 {
                        1
                    } else {
                        found.blocks * size
                    },
                    0 <= found.blocks,
                    size >= 1,
            ;
            if pos + step <= limit {
                found.session.lemma_scan_sound(data, pos + step);
                self.lemma_leads_on(found.session, found.session.scan_from(data, pos + step).session);
            }
        }
    }
}

} // verus!
