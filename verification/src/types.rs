use vstd::prelude::*;

verus! {

/// The weak and strong checksum identifying one chunk of the old file:
/// `hash` is the strong digest of the exact bytes whose weak checksum is
/// `ad32`.
#[derive(Debug)]
pub struct ChunkChecksum {
    pub ad32: u32,
    pub hash: [u8; 32],
}

/// The per-chunk record of a delta. A non-missing block says: this chunk
/// of the old file reappears in the new file, preceded by the literal
/// bytes `buf`. A missing block says: this chunk has no counterpart in
/// the new file.
#[derive(Debug)]
pub struct DiffBlock {
    pub start: usize,
    pub offset: usize,
    pub is_mising: bool,
    pub buf: Vec<u8>,
}

/// The ordered chunk checksums of the old file, as the signer emits them.
pub type ChecksumStore = Vec<ChunkChecksum>;

/// The completed or partial delta: chunk index of the old file to the
/// block describing it.
pub type DeltaStore = std::collections::HashMap<usize, DiffBlock>;

/// One entry of the weak-hash index: a strong digest beside the chunk
/// index it came from.
pub type StrongEntry = ([u8; 32], usize);

/// The weak-hash index: weak checksum to the (strong digest, chunk index)
/// pairs sharing it.
pub type IndexedChecksumStore = multimap::MultiMap<u32, StrongEntry>;

/// Ghost counterpart of one `DiffBlock`, with unbounded arithmetic.
pub ghost struct GhostDiff {
    pub start: int,
    pub offset: int,
    pub is_mising: bool,
    pub buf: Seq<u8>,
}

/// What a `DiffBlock` says, read off into its ghost counterpart.
pub open spec fn abs_diff(b: DiffBlock) -> GhostDiff {
    GhostDiff { start: b.start as int, offset: b.offset as int, is_mising: b.is_mising, buf: b.buf@ }
}

/// What a delta store says: its keys widened to mathematical integers,
/// its blocks to their ghost counterparts.
pub open spec fn abs_delta(d: Map<usize, DiffBlock>) -> Map<int, GhostDiff> {
    Map::new(
        |i: int| 0 <= i <= usize::MAX && d.dom().contains(i as usize),
        |i: int| abs_diff(d[i as usize]),
    )
}

/// Inserting into a delta store inserts into what it says.
pub proof fn lemma_abs_delta_insert(d: Map<usize, DiffBlock>, k: usize, v: DiffBlock)
    ensures
        abs_delta(d.insert(k, v)) == abs_delta(d).insert(k as int, abs_diff(v)),
{
    assert(abs_delta(d.insert(k, v)) =~= abs_delta(d).insert(k as int, abs_diff(v)));
}

} // verus!
