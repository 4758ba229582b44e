use vstd::prelude::*;
use vstd::slice::slice_index_get;
use crate::ad32_helper::Ad32;
use crate::ad32_helper::spec_adler32;
use crate::app_error::AppError;
use crate::chunk_iter::ChunkIter;
use crate::chunk_iter::SkipChunk;
use crate::sha3_helper::Sha3;
use crate::sha3_helper::keccak256_of;
use crate::types::ChecksumStore;
use crate::types::ChunkChecksum;
use crate::types::DeltaStore;
use crate::types::DiffBlock;
use crate::types::GhostDiff;
use crate::types::IndexedChecksumStore;
use crate::types::StrongEntry;
use crate::types::abs_delta;
use crate::types::abs_diff;
use crate::types::lemma_abs_delta_insert;
use crate::weak_index::empty_index;
use crate::weak_index::index_get_vec;
use crate::weak_index::index_insert;
use crate::weak_index::index_new;
use crate::weak_index::index_view;

verus! {

// ---------------------------------------------------------------------
// The mathematical model of the pipeline.
// ---------------------------------------------------------------------

/// How many chunks a buffer of `len` bytes splits into: `len / c`,
/// rounded up, so the trailing partial chunk counts.
pub open spec fn chunk_count(len: nat, c: nat) -> nat
    recommends
        c >= 1,
{
    (((len + c - 1) as int) / (c as int)) as nat
}

/// Chunk `i` of a buffer: the bytes from `i` chunks in, up to one whole
/// chunk or the end of the buffer.
pub open spec fn spec_chunk(data: Seq<u8>, c: nat, i: int) -> Seq<u8> {
    data.subrange(
        i * (c as int),
        if (i + 1) * (c as int) <= data.len() as int {
            (i + 1) * (c as int)
        } else {
            data.len() as int
        },
    )
}

/// What a checksum store says: each entry reduced to its weak checksum
/// beside the view of its strong digest.
pub open spec fn store_model(store: Seq<ChunkChecksum>) -> Seq<(u32, Seq<u8>)> {
    store.map_values(|cc: ChunkChecksum| (cc.ad32, cc.hash@))
}

/// The checksums the signer owes for a buffer: one (weak, strong) pair
/// per chunk, in chunk order.
pub open spec fn spec_signer(data: Seq<u8>, c: nat) -> Seq<(u32, Seq<u8>)> {
    Seq::new(
        chunk_count(data.len(), c),
        |i: int| (spec_adler32(spec_chunk(data, c, i)), keccak256_of(spec_chunk(data, c, i))),
    )
}

/// One indexing step: entry `i` of the store filed under its weak
/// checksum, at the end of that bucket.
pub open spec fn index_step(
    m: Map<u32, Seq<(Seq<u8>, int)>>,
    entry: (u32, Seq<u8>),
    i: int,
) -> Map<u32, Seq<(Seq<u8>, int)>> {
    m.insert(
        entry.0,
        (if m.dom().contains(entry.0) {
            m[entry.0]
        } else {
            Seq::<(Seq<u8>, int)>::empty()
        }).push((entry.1, i)),
    )
}

/// The weak-hash index over the first `n` store entries.
pub open spec fn index_upto(store: Seq<(u32, Seq<u8>)>, n: int) -> Map<u32, Seq<(Seq<u8>, int)>>
    decreases n,
{
    if n <= 0 {
        empty_index()
    } else {
        index_step(index_upto(store, n - 1), store[n - 1], n - 1)
    }
}

/// The weak-hash index the indexer owes for a store.
pub open spec fn weak_index_of(store: Seq<(u32, Seq<u8>)>) -> Map<u32, Seq<(Seq<u8>, int)>> {
    index_upto(store, store.len() as int)
}

/// The entries of a bucket whose strong digest equals the candidate's,
/// in bucket order.
pub open spec fn survivors_of(bucket: Seq<(Seq<u8>, int)>, strong: Seq<u8>) -> Seq<(Seq<u8>, int)>
    decreases bucket.len(),
{
    if bucket.len() == 0 {
        Seq::<(Seq<u8>, int)>::empty()
    } else {
        let rest = survivors_of(bucket.drop_last(), strong);
        if bucket.last().0 == strong {
            rest.push(bucket.last())
        } else {
            rest
        }
    }
}

/// Filtering a bucket grown by one entry keeps the filtered front and
/// appends the entry exactly when it survives.
pub proof fn lemma_survivors_push(bucket: Seq<(Seq<u8>, int)>, x: (Seq<u8>, int), strong: Seq<u8>)
    ensures
        survivors_of(bucket.push(x), strong) == (if x.0 == strong {
            survivors_of(bucket, strong).push(x)
        } else {
            survivors_of(bucket, strong)
        }),
{
    assert(bucket.push(x).drop_last() =~= bucket);
    assert(bucket.push(x).last() == x);
}

/// The matcher's scan from byte position `pos` of the new buffer, with
/// `lits` the unmatched bytes gathered so far and `acc` the blocks
/// recorded so far. A window whose weak checksum is absent from the index
/// contributes its first byte to the literals and the scan moves one
/// byte. A window with a weak hit and exactly one survivor records a
/// block carrying the literals and the scan jumps one whole chunk. A
/// weak hit with no unique survivor stops the scan: `None`, the corrupted
/// index. The scan ends when no whole window remains; trailing literals
/// are dropped.
pub open spec fn scan_from(
    new_data: Seq<u8>,
    idx: Map<u32, Seq<(Seq<u8>, int)>>,
    c: nat,
    pos: int,
    lits: Seq<u8>,
    acc: Map<int, GhostDiff>,
) -> Option<Map<int, GhostDiff>>
    decreases new_data.len() - pos,
{
    if c < 1 || pos < 0 || pos + c > new_data.len() {
        Some(acc)
    } else {
        let w = new_data.subrange(pos, pos + c as int);
        let weak = spec_adler32(w);
        if !idx.dom().contains(weak) {
            scan_from(new_data, idx, c, pos + 1, lits.push(w[0]), acc)
        } else {
            let surv = survivors_of(idx[weak], keccak256_of(w));
            if surv.len() == 1 {
                let i = surv[0].1;
                scan_from(
                    new_data,
                    idx,
                    c,
                    pos + c,
                    Seq::<u8>::empty(),
                    acc.insert(
                        i,
                        GhostDiff {
                            start: i * (c as int),
                            offset: i * (c as int) + c,
                            is_mising: false,
                            buf: lits,
                        },
                    ),
                )
            } else {
                None
            }
        }
    }
}

/// The delta the matcher owes: the scan started at the head of the new
/// buffer with nothing gathered.
pub open spec fn spec_matcher(
    new_data: Seq<u8>,
    idx: Map<u32, Seq<(Seq<u8>, int)>>,
    c: nat,
) -> Option<Map<int, GhostDiff>> {
    scan_from(new_data, idx, c, 0, Seq::<u8>::empty(), Map::<int, GhostDiff>::empty())
}

/// The block the gap-filler inserts for a chunk the matcher never
/// recorded.
pub open spec fn missing_block(i: int, c: nat) -> GhostDiff {
    GhostDiff {
        start: i * (c as int),
        offset: i * (c as int) + c,
        is_mising: true,
        buf: Seq::<u8>::empty(),
    }
}

/// The delta after gap filling: every chunk index below `n` not already
/// recorded gets a missing block; recorded blocks stay as they are.
pub open spec fn spec_extend(m: Map<int, GhostDiff>, n: int, c: nat) -> Map<int, GhostDiff> {
    Map::new(
        |i: int| m.dom().contains(i) || 0 <= i < n,
        |i: int|
            if m.dom().contains(i) {
                m[i]
            } else {
                missing_block(i, c)
            },
    )
}

/// The completed pipeline on raw buffers: sign the old bytes, index the
/// store, match the new bytes, fill the gaps. `None` is the matcher's
/// corrupted-index stop.
pub open spec fn spec_delta(old_data: Seq<u8>, new_data: Seq<u8>, c: nat) -> Option<
    Map<int, GhostDiff>,
> {
    let store = spec_signer(old_data, c);
    match spec_matcher(new_data, weak_index_of(store), c) {
        Some(m) => Some(spec_extend(m, store.len() as int, c)),
        None => None,
    }
}

/// Every chunk index filed in the index is non-negative and small enough
/// that the byte bounds of its block fit the machine.
pub open spec fn index_bounded(idx: Map<u32, Seq<(Seq<u8>, int)>>, c: nat) -> bool {
    forall|w: u32, j: int|
        (idx.dom().contains(w) && 0 <= j < idx[w].len()) ==> (0 <= (#[trigger] idx[w][j]).1
            && ((idx[w][j]).1 + 1) * (c as int) <= usize::MAX as int)
}

/// A position is below `i` chunks in exactly when it is below the first
/// `i` chunk boundaries.
pub proof fn lemma_chunk_bound(len: nat, c: nat, i: int)
    requires
        c >= 1,
    ensures
        (i * (c as int) < len as int) <==> (i < chunk_count(len, c) as int),
{
    let l = len as int;
    let d = c as int;
    let q = (l + d - 1) / d;
    vstd::arithmetic::div_mod::lemma_fundamental_div_mod(l + d - 1, d);
    vstd::arithmetic::div_mod::lemma_mod_bound(l + d - 1, d);
    vstd::arithmetic::div_mod::lemma_div_pos_is_pos(l + d - 1, d);
    assert(q * d == l + d - 1 - ((l + d - 1) % d));
    if i < q {
        assert(i * d <= (q - 1) * d) by (nonlinear_arith)
            requires
                i <= q - 1,
                d >= 1,
        ;
        assert((q - 1) * d == q * d - d) by (nonlinear_arith);
    } else {
        assert(i * d >= q * d) by (nonlinear_arith)
            requires
                i >= q,
                d >= 1,
        ;
    }
}

// ---------------------------------------------------------------------
// The pipeline stages.
// ---------------------------------------------------------------------

/// The stage before any data has been processed.
#[derive(Debug)]
pub struct InitialEmptyData;

/// One stage of the pipeline: the chunk size it was built with, beside
/// the data the stage produced.
#[derive(Debug)]
pub struct ChunkProcessor<T> {
    pub chunk_size: usize,
    pub data: T,
}

impl ChunkProcessor<InitialEmptyData> {
    pub fn new(chunk_size: usize) -> (r: Self)
        ensures
            r.chunk_size == chunk_size,
    {
        ChunkProcessor { chunk_size, data: InitialEmptyData }
    }
}

impl<T> ChunkProcessor<T> {
    /// Rejects a chunk size other than the one this stage was built with.
    pub fn check_chunk_size_equal(&self, chunk_size: usize) -> (r: Result<(), AppError>)
        ensures
            r is Ok <==> chunk_size == self.chunk_size,
            r matches Err(e) ==> e == AppError::IncompatibleChunkSize,
    {
        if chunk_size == self.chunk_size {
            Ok(())
        } else {
            Err(AppError::IncompatibleChunkSize)
        }
    }

    /// Rejects a buffer shorter than two whole chunks.
    pub fn check_processing_data_size(&self, data_size: usize) -> (r: Result<(), AppError>)
        ensures
            r is Ok <==> data_size >= 2 * self.chunk_size,
            r matches Err(e) ==> e == AppError::IncompatibleDataSize,
    {
        if data_size / 2 >= self.chunk_size {
            Ok(())
        } else {
            Err(AppError::IncompatibleDataSize)
        }
    }
}

/// The signer: old bytes in, a checksum store out.
pub trait ChecksumProducer {
    /// What the signer asks of its caller.
    spec fn checksum_pre(&self) -> bool;

    fn produce_checksum(&self, data: Vec<u8>) -> Result<ChunkProcessor<ChecksumStore>, AppError>
        requires
            self.checksum_pre(),
    ;
}

impl ChecksumProducer for ChunkProcessor<InitialEmptyData> {
    open spec fn checksum_pre(&self) -> bool {
        self.chunk_size >= 1
    }

    /// Walks the old bytes in block mode and records, per chunk, its weak
    /// checksum and its strong digest, in chunk order.
    fn produce_checksum(&self, data: Vec<u8>) -> (r: Result<
        ChunkProcessor<ChecksumStore>,
        AppError,
    >)
        ensures
            r is Ok <==> data@.len() >= 2 * self.chunk_size,
            r matches Ok(cp) ==> cp.chunk_size == self.chunk_size,
            r matches Ok(cp) ==> store_model(cp.data@) == spec_signer(
                data@,
                self.chunk_size as nat,
            ),
            r matches Ok(cp) ==> cp.data@.len() == chunk_count(data@.len(), self.chunk_size as nat),
            r matches Err(e) ==> e == AppError::IncompatibleDataSize,
    {
        let ghost c = self.chunk_size as nat;
        let ghost n_chunks = chunk_count(data@.len(), c);
        match self.check_processing_data_size(data.len()) {
            Err(e) => {
                return Err(e);
            },
            Ok(()) => {
            },
        }
        let mut checksum_store: ChecksumStore = Vec::new();
        let mut iter = ChunkIter::new(&data, self.chunk_size).by_chunk();
        loop
            invariant
                self.chunk_size >= 1,
                iter.chunk_size == self.chunk_size,
                iter.value@ == data@,
                iter.index == checksum_store@.len(),
                iter.index <= n_chunks,
                n_chunks == chunk_count(data@.len(), c),
                c == self.chunk_size,
                forall|k: int|
                    0 <= k < checksum_store@.len() ==> (#[trigger] checksum_store@[k]).ad32
                        == spec_adler32(spec_chunk(data@, c, k)) && checksum_store@[k].hash@
                        == keccak256_of(spec_chunk(data@, c, k)),
            ensures
                checksum_store@.len() == n_chunks,
                forall|k: int|
                    0 <= k < checksum_store@.len() ==> (#[trigger] checksum_store@[k]).ad32
                        == spec_adler32(spec_chunk(data@, c, k)) && checksum_store@[k].hash@
                        == keccak256_of(spec_chunk(data@, c, k)),
            decreases n_chunks - iter.index,
        {
            let ghost i = iter.index as int;
            proof {
                lemma_chunk_bound(data@.len(), c, i);
            }
            match iter.next() {
                None => {
                    break ;
                },
                Some(chunk) => {
                    proof {
                        assert((i + 1) * (c as int) == i * (c as int) + c) by (nonlinear_arith);
                        assert(chunk@ == spec_chunk(data@, c, i));
                    }
                    let ad32 = chunk.ad32();
                    let hash = match chunk.hash() {
                        Ok(h) => h,
                        Err(e) => {
                            return Err(e);
                        },
                    };
                    checksum_store.push(ChunkChecksum { ad32, hash });
                },
            }
        }
        proof {
            assert(store_model(checksum_store@) =~= spec_signer(data@, c));
        }
        Ok(ChunkProcessor { chunk_size: self.chunk_size, data: checksum_store })
    }
}

/// The indexer: a checksum store in, a weak-hash index out.
pub trait IndexedChecksumProducer {
    fn produce_indexed_checksum(&self) -> ChunkProcessor<IndexedChecksumStore>;
}

impl IndexedChecksumProducer for ChunkProcessor<ChecksumStore> {
    /// Files every store entry, in order, under its weak checksum.
    fn produce_indexed_checksum(&self) -> (r: ChunkProcessor<IndexedChecksumStore>)
        ensures
            r.chunk_size == self.chunk_size,
            index_view(r.data) == weak_index_of(store_model(self.data@)),
    {
        let ghost model = store_model(self.data@);
        let mut checksum_indexed_store = index_new();
        let n = self.data.len();
        let mut i: usize = 0;
        while i < n
            invariant
                n == self.data@.len(),
                i <= n,
                model == store_model(self.data@),
                index_view(checksum_indexed_store) == index_upto(model, i as int),
            decreases n - i,
        {
            let cc = &self.data[i];
            index_insert(&mut checksum_indexed_store, cc.ad32, (cc.hash, i));
            i = i + 1;
        }
        ChunkProcessor { chunk_size: self.chunk_size, data: checksum_indexed_store }
    }
}

/// Whether two strong digests hold the same bytes.
fn hash_eq(a: &[u8; 32], b: &[u8; 32]) -> (r: bool)
    ensures
        r == (a@ == b@),
{
    let sa = a.as_slice();
    let sb = b.as_slice();
    let mut j: usize = 0;
    while j < 32
        invariant
            j <= 32,
            sa@ == a@,
            sb@ == b@,
            forall|k: int| 0 <= k < j ==> a@[k] == b@[k],
        decreases 32 - j,
    {
        if *slice_index_get(sa, j) != *slice_index_get(sb, j) {
            return false;
        }
        j = j + 1;
    }
    proof {
        assert(a@ =~= b@);
    }
    true
}

/// A fresh vector holding the same bytes.
fn copy_bytes(src: &Vec<u8>) -> (r: Vec<u8>)
    ensures
        r@ == src@,
{
    let mut out: Vec<u8> = Vec::new();
    let mut j: usize = 0;
    while j < src.len()
        invariant
            j <= src@.len(),
            out@ == src@.take(j as int),
        decreases src@.len() - j,
    {
        out.push(src[j]);
        proof {
            assert(out@ =~= src@.take(j as int + 1));
        }
        j = j + 1;
    }
    proof {
        assert(src@.take(src@.len() as int) =~= src@);
    }
    out
}

/// The matcher: new bytes in, the partial delta of confirmed matches out.
pub trait DeltaProducer {
    /// What the matcher asks of its caller.
    spec fn delta_pre(&self) -> bool;

    fn produce_delta(&self, new_data: Vec<u8>) -> Result<ChunkProcessor<DeltaStore>, AppError>
        requires
            self.delta_pre(),
    ;
}

impl DeltaProducer for ChunkProcessor<IndexedChecksumStore> {
    open spec fn delta_pre(&self) -> bool {
        &&& self.chunk_size >= 1
        &&& index_bounded(index_view(self.data), self.chunk_size as nat)
    }

    /// Scans the new bytes with a sliding window. A window absent from
    /// the index gives up its first byte to the literal buffer; a window
    /// whose weak checksum hits is confirmed against the strong digests
    /// of its bucket, and a single survivor records a block carrying the
    /// gathered literals and jumps the scan one chunk. No unique survivor
    /// on a weak hit is a corrupted index.
    fn produce_delta(&self, new_data: Vec<u8>) -> (r: Result<ChunkProcessor<DeltaStore>, AppError>)
        ensures
            r is Ok <==> (new_data@.len() >= 2 * self.chunk_size && spec_matcher(
                new_data@,
                index_view(self.data),
                self.chunk_size as nat,
            ) is Some),
            r matches Ok(cp) ==> cp.chunk_size == self.chunk_size,
            r matches Ok(cp) ==> Some(abs_delta(cp.data@)) == spec_matcher(
                new_data@,
                index_view(self.data),
                self.chunk_size as nat,
            ),
            r matches Err(e) ==> (e == AppError::IncompatibleDataSize && new_data@.len() < 2
                * self.chunk_size) || (e == AppError::IndexCorrupted && new_data@.len() >= 2
                * self.chunk_size && spec_matcher(
                new_data@,
                index_view(self.data),
                self.chunk_size as nat,
            ) is None),
    {
        let ghost c = self.chunk_size as nat;
        let ghost idx = index_view(self.data);
        match self.check_processing_data_size(new_data.len()) {
            Err(e) => {
                return Err(e);
            },
            Ok(()) => {
            },
        }
        let mut diffs: DeltaStore = DeltaStore::new();
        let mut modified_buf: Vec<u8> = Vec::new();
        let mut iter = ChunkIter::new(&new_data, self.chunk_size).by_byte();
        proof {
            assert(abs_delta(diffs@) =~= Map::<int, GhostDiff>::empty());
        }
        loop
            invariant
                self.chunk_size >= 1,
                c == self.chunk_size as nat,
                idx == index_view(self.data),
                index_bounded(idx, c),
                iter.chunk_size == self.chunk_size,
                iter.value@ == new_data@,
                iter.index <= new_data@.len(),
                new_data@.len() <= usize::MAX,
                new_data@.len() >= 2 * self.chunk_size,
                scan_from(new_data@, idx, c, iter.index as int, modified_buf@, abs_delta(diffs@))
                    == spec_matcher(new_data@, idx, c),
            ensures
                spec_matcher(new_data@, idx, c) == Some(abs_delta(diffs@)),
            decreases new_data@.len() - iter.index,
        {
            let ghost pos = iter.index as int;
            let ghost lits = modified_buf@;
            let ghost acc = abs_delta(diffs@);
            let chunk = match iter.next() {
                None => {
                    break ;
                },
                Some(w) => w,
            };
            let ghost w = new_data@.subrange(pos, pos + c as int);
            let ad32 = chunk.ad32();
            match index_get_vec(&self.data, ad32) {
                None => {
                    modified_buf.push(*slice_index_get(chunk, 0));
                },
                Some(bucket) => {
                    let ghost bucket_model = idx[ad32];
                    let current_hash = match chunk.hash() {
                        Ok(h) => h,
                        Err(e) => {
                            return Err(e);
                        },
                    };
                    let ghost strong = keccak256_of(w);
                    let mut count: usize = 0;
                    let mut found_index: usize = 0;
                    let mut j: usize = 0;
                    while j < bucket.len()
                        invariant
                            j <= bucket@.len(),
                            c == self.chunk_size as nat,
                            index_bounded(idx, c),
                            idx.dom().contains(ad32),
                            bucket_model == idx[ad32],
                            bucket@.map_values(|p: StrongEntry| (p.0@, p.1 as int))
                                == bucket_model,
                            current_hash@ == strong,
                            count <= j,
                            count == survivors_of(bucket_model.take(j as int), strong).len(),
                            count >= 1 ==> survivors_of(bucket_model.take(j as int), strong).last()
                                == (strong, found_index as int),
                            count >= 1 ==> (found_index as int + 1) * (c as int) <= usize::MAX
                                as int,
                        decreases bucket@.len() - j,
                    {
                        let ghost taken = bucket_model.take(j as int);
                        let entry = &bucket[j];
                        proof {
                            assert(bucket_model[j as int] == (entry.0@, entry.1 as int));
                            assert(bucket_model.take(j as int + 1) =~= taken.push(
                                bucket_model[j as int],
                            ));
                            lemma_survivors_push(taken, bucket_model[j as int], strong);
                        }
                        if hash_eq(&entry.0, &current_hash) {
                            count = count + 1;
                            found_index = entry.1;
                        }
                        j = j + 1;
                    }
                    proof {
                        assert(bucket_model.take(bucket@.len() as int) =~= bucket_model);
                    }
                    if count == 1 {
                        let ghost surv = survivors_of(bucket_model, strong);
                        proof {
                            assert(surv.last() == surv[0]);
                        }
                        let index = found_index;
                        proof {
                            assert((index as int + 1) * (c as int) == index as int * (c as int)
                                + c) by (nonlinear_arith);
                        }
                        let start = index * self.chunk_size;
                        let block = DiffBlock {
                            start,
                            offset: start + self.chunk_size,
                            is_mising: false,
                            buf: copy_bytes(&modified_buf),
                        };
                        let ghost old_diffs = diffs@;
                        diffs.insert(index, block);
                        iter.skip_chunks(1);
                        modified_buf.clear();
                        proof {
                            lemma_abs_delta_insert(old_diffs, index, block);
                            assert(abs_diff(block) == GhostDiff {
                                start: index as int * (c as int),
                                offset: index as int * (c as int) + c,
                                is_mising: false,
                                buf: lits,
                            });
                            assert(abs_delta(diffs@) == acc.insert(index as int, abs_diff(block)));
                        }
                    } else {
                        proof {
                            assert(scan_from(new_data@, idx, c, pos, lits, acc) is None);
                        }
                        return Err(AppError::IndexCorrupted);
                    }
                },
            }
        }
        Ok(ChunkProcessor { chunk_size: self.chunk_size, data: diffs })
    }
}

/// The gap-filler: completes a partial delta against the checksum store
/// it was matched from.
pub trait DeltaExtender {
    /// What the gap-filler asks of its caller.
    spec fn extend_pre(&self, chunk_checksum: Seq<ChunkChecksum>) -> bool;

    fn extend_missed_blocks(self, chunk_checksum: &ChecksumStore) -> ChunkProcessor<DeltaStore>
        requires
            self.extend_pre(chunk_checksum@),
    ;
}

impl DeltaExtender for ChunkProcessor<DeltaStore> {
    open spec fn extend_pre(&self, chunk_checksum: Seq<ChunkChecksum>) -> bool {
        chunk_checksum.len() * self.chunk_size <= usize::MAX
    }

    /// Inserts a missing block for every chunk index of the store that
    /// the matcher did not record; recorded blocks stay as they are.
    fn extend_missed_blocks(self, chunk_checksum: &ChecksumStore) -> (r: ChunkProcessor<DeltaStore>)
        ensures
            r.chunk_size == self.chunk_size,
            abs_delta(r.data@) == spec_extend(
                abs_delta(self.data@),
                chunk_checksum@.len() as int,
                self.chunk_size as nat,
            ),
    {
        let ghost c = self.chunk_size as nat;
        let chunk_size = self.chunk_size;
        let mut delta = self.data;
        let ghost m0 = abs_delta(delta@);
        let n = chunk_checksum.len();
        let mut i: usize = 0;
        while i < n
            invariant
                n == chunk_checksum@.len(),
                i <= n,
                c == chunk_size as nat,
                n * chunk_size <= usize::MAX,
                abs_delta(delta@) == spec_extend(m0, i as int, c),
            decreases n - i,
        {
            proof {
                assert((i as int + 1) * (c as int) == i as int * (c as int) + c)
                    by (nonlinear_arith);
                assert((i as int + 1) * (c as int) <= n as int * (c as int)) by (nonlinear_arith)
                    requires
                        i as int + 1 <= n as int,
                        c >= 0,
                ;
            }
            if !delta.contains_key(&i) {
                proof {
                    assert(!delta@.dom().contains(i));
                    assert((i as int) as usize == i);
                    assert(!abs_delta(delta@).dom().contains(i as int));
                    assert(!spec_extend(m0, i as int, c).dom().contains(i as int));
                    assert(!m0.dom().contains(i as int));
                }
                let block = DiffBlock {
                    start: i * chunk_size,
                    offset: i * chunk_size + chunk_size,
                    is_mising: true,
                    buf: Vec::new(),
                };
                let ghost old_delta = delta@;
                delta.insert(i, block);
                proof {
                    lemma_abs_delta_insert(old_delta, i, block);
                    assert(abs_diff(block) == missing_block(i as int, c));
                    assert(abs_delta(delta@) =~= spec_extend(m0, i as int + 1, c));
                }
            } else {
                proof {
                    assert(abs_delta(delta@) =~= spec_extend(m0, i as int + 1, c));
                }
            }
            i = i + 1;
        }
        ChunkProcessor { chunk_size, data: delta }
    }
}

/// Each entry of a bucket of the index over the first `n` store entries
/// records a store position below `n`, filed under that entry's weak
/// checksum with that entry's strong digest.
pub proof fn lemma_index_entry(store: Seq<(u32, Seq<u8>)>, n: int, w: u32, j: int)
    requires
        0 <= n <= store.len(),
        index_upto(store, n).dom().contains(w),
        0 <= j < index_upto(store, n)[w].len(),
    ensures
        0 <= index_upto(store, n)[w][j].1 < n,
        store[index_upto(store, n)[w][j].1] == (w, index_upto(store, n)[w][j].0),
    decreases n,
{
    if n > 0 {
        let prev = index_upto(store, n - 1);
        let entry = store[n - 1];
        if entry.0 == w {
            let bucket = index_upto(store, n)[w];
            if j == bucket.len() - 1 {
                assert(bucket[j] == (entry.1, n - 1));
            } else {
                assert(prev.dom().contains(w) && 0 <= j < prev[w].len());
                lemma_index_entry(store, n - 1, w, j);
            }
        } else {
            lemma_index_entry(store, n - 1, w, j);
        }
    }
}

/// When the store's own block bounds fit the machine, so do those of
/// every entry filed in its weak-hash index.
pub proof fn lemma_index_bounded_of(store: Seq<(u32, Seq<u8>)>, c: nat)
    requires
        store.len() * c <= usize::MAX,
    ensures
        index_bounded(weak_index_of(store), c),
{
    let idx = weak_index_of(store);
    assert forall|w: u32, j: int| (idx.dom().contains(w) && 0 <= j < idx[w].len()) implies (0 <= (
    #[trigger] idx[w][j]).1 && ((idx[w][j]).1 + 1) * (c as int) <= usize::MAX as int) by {
        lemma_index_entry(store, store.len() as int, w, j);
        let i = idx[w][j].1;
        assert((i + 1) * (c as int) <= store.len() as int * (c as int)) by (nonlinear_arith)
            requires
                i + 1 <= store.len() as int,
                c >= 0,
        ;
    }
}

/// The chunks of a buffer cover at most one whole chunk beyond its
/// length.
pub proof fn lemma_chunk_total(len: nat, c: nat)
    requires
        c >= 1,
    ensures
        chunk_count(len, c) * c <= len + c - 1,
{
    let l = len as int;
    let d = c as int;
    vstd::arithmetic::div_mod::lemma_fundamental_div_mod(l + d - 1, d);
    vstd::arithmetic::div_mod::lemma_mod_bound(l + d - 1, d);
    vstd::arithmetic::div_mod::lemma_div_pos_is_pos(l + d - 1, d);
    assert(((l + d - 1) / d) * d == d * ((l + d - 1) / d)) by (nonlinear_arith);
}

/// The delta pass as the command surface runs it: hold the signature's
/// store against the chunk size asked for, index it, match the new
/// bytes, and fill the gaps.
pub fn produce_delta(
    chunk_size: usize,
    checksum_store: &ChunkProcessor<ChecksumStore>,
    new_data: Vec<u8>,
) -> (r: Result<ChunkProcessor<DeltaStore>, AppError>)
    requires
        chunk_size >= 1,
        checksum_store.chunk_size == chunk_size ==> checksum_store.data@.len() * chunk_size
            <= usize::MAX,
    ensures
        ({
            let c = chunk_size as nat;
            let store = store_model(checksum_store.data@);
            let idx = weak_index_of(store);
            &&& (r is Ok <==> (checksum_store.chunk_size == chunk_size && new_data@.len() >= 2
                * chunk_size && spec_matcher(new_data@, idx, c) is Some))
            &&& (r matches Ok(cp) ==> cp.chunk_size == chunk_size && (spec_matcher(
                new_data@,
                idx,
                c,
            ) matches Some(m) && abs_delta(cp.data@) == spec_extend(m, store.len() as int, c)))
            &&& (r matches Err(e) ==> ((e == AppError::IncompatibleChunkSize
                && checksum_store.chunk_size != chunk_size) || (e
                == AppError::IncompatibleDataSize && checksum_store.chunk_size == chunk_size
                && new_data@.len() < 2 * chunk_size) || (e == AppError::IndexCorrupted
                && checksum_store.chunk_size == chunk_size && new_data@.len() >= 2 * chunk_size
                && spec_matcher(new_data@, idx, c) is None)))
        }),
{
    match checksum_store.check_chunk_size_equal(chunk_size) {
        Err(e) => {
            return Err(e);
        },
        Ok(u) => {
        },
    }
    let checksum_indexed_store = checksum_store.produce_indexed_checksum();
    proof {
        lemma_index_bounded_of(store_model(checksum_store.data@), chunk_size as nat);
    }
    let delta = match checksum_indexed_store.produce_delta(new_data) {
        Ok(d) => d,
        Err(e) => {
            return Err(e);
        },
    };
    Ok(delta.extend_missed_blocks(&checksum_store.data))
}

/// The whole pipeline on raw buffers: sign the old bytes, then run the
/// delta pass on the new ones.
pub fn calculate_delta(data: Vec<u8>, new_data: Vec<u8>, chunk_size: usize) -> (r: Result<
    DeltaStore,
    AppError,
>)
    requires
        chunk_size >= 1,
        data@.len() + chunk_size <= usize::MAX,
    ensures
        r is Ok <==> (data@.len() >= 2 * chunk_size && new_data@.len() >= 2 * chunk_size
            && spec_delta(data@, new_data@, chunk_size as nat) is Some),
        r matches Ok(d) ==> (spec_delta(data@, new_data@, chunk_size as nat) matches Some(m)
            && abs_delta(d@) == m),
        r matches Err(e) ==> ((e == AppError::IncompatibleDataSize && (data@.len() < 2 * chunk_size
            || new_data@.len() < 2 * chunk_size)) || (e == AppError::IndexCorrupted && data@.len()
            >= 2 * chunk_size && new_data@.len() >= 2 * chunk_size && spec_delta(
            data@,
            new_data@,
            chunk_size as nat,
        ) is None)),
{
    let ghost old_len = data@.len();
    let chunk_processor = ChunkProcessor::new(chunk_size);
    let checksum = match chunk_processor.produce_checksum(data) {
        Ok(cs) => cs,
        Err(e) => {
            return Err(e);
        },
    };
    proof {
        lemma_chunk_total(old_len, chunk_size as nat);
    }
    let full_delta = match produce_delta(chunk_size, &checksum, new_data) {
        Ok(d) => d,
        Err(e) => {
            return Err(e);
        },
    };
    Ok(full_delta.data)
}

} // verus!
