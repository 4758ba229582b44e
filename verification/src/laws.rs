use vstd::prelude::*;
use crate::ad32_helper::spec_adler32;
use crate::chunk_processor::chunk_count;
use crate::chunk_processor::scan_from;
use crate::chunk_processor::spec_chunk;
use crate::chunk_processor::spec_extend;
use crate::chunk_processor::spec_delta;
use crate::chunk_processor::spec_matcher;
use crate::chunk_processor::spec_signer;
use crate::chunk_processor::survivors_of;
use crate::sha3_helper::keccak256_of;
use crate::chunk_processor::index_upto;
use crate::chunk_processor::lemma_index_entry;
use crate::chunk_processor::weak_index_of;
use crate::types::GhostDiff;

verus! {

/// Whether some bucket of the index files the pair (strong digest `h`,
/// chunk index `k`).
pub open spec fn index_has_pair(idx: Map<u32, Seq<(Seq<u8>, int)>>, h: Seq<u8>, k: int) -> bool {
    exists|w: u32, j: int|
        #![auto]
        idx.dom().contains(w) && 0 <= j < idx[w].len() && idx[w][j] == (h, k)
}

/// Entry `k` of the store is filed in the index over the first `n`
/// entries, under its own weak checksum, with its own strong digest.
pub proof fn lemma_index_has(store: Seq<(u32, Seq<u8>)>, n: int, k: int)
    requires
        0 <= k < n <= store.len(),
    ensures
        index_upto(store, n).dom().contains(store[k].0),
        exists|j: int|
            #![auto]
            0 <= j < index_upto(store, n)[store[k].0].len() && index_upto(store, n)[store[k].0][j]
                == (store[k].1, k),
    decreases n,
{
    let w = store[k].0;
    let idx = index_upto(store, n);
    let prev = index_upto(store, n - 1);
    if k == n - 1 {
        let bucket = idx[w];
        assert(bucket[bucket.len() - 1] == (store[k].1, k));
    } else {
        lemma_index_has(store, n - 1, k);
        let j = choose|j: int|
            #![auto]
            0 <= j < prev[w].len() && prev[w][j] == (store[k].1, k);
        if store[n - 1].0 == w {
            assert(idx[w][j] == (store[k].1, k));
        } else {
            assert(idx[w] == prev[w]);
        }
    }
}

/// Within one bucket the chunk indices grow strictly from front to back.
pub proof fn lemma_index_increasing(store: Seq<(u32, Seq<u8>)>, n: int, w: u32, j1: int, j2: int)
    requires
        0 <= n <= store.len(),
        index_upto(store, n).dom().contains(w),
        0 <= j1 < j2 < index_upto(store, n)[w].len(),
    ensures
        index_upto(store, n)[w][j1].1 < index_upto(store, n)[w][j2].1,
    decreases n,
{
    let idx = index_upto(store, n);
    let prev = index_upto(store, n - 1);
    if n > 0 {
        if store[n - 1].0 == w {
            let bucket = idx[w];
            if j2 == bucket.len() - 1 {
                lemma_index_entry(store, n - 1, w, j1);
                assert(bucket[j2].1 == n - 1);
            } else {
                lemma_index_increasing(store, n - 1, w, j1, j2);
            }
        } else {
            lemma_index_increasing(store, n - 1, w, j1, j2);
        }
    }
}

/// Law: indexing a store loses nothing and invents nothing. The pairs
/// filed somewhere in the weak-hash index are exactly the (strong digest,
/// position) pairs of the store itself.
pub proof fn lemma_index_round_trip(store: Seq<(u32, Seq<u8>)>)
    ensures
        forall|h: Seq<u8>, k: int|
            index_has_pair(weak_index_of(store), h, k) <==> (0 <= k < store.len() && store[k].1
                == h),
{
    let n = store.len() as int;
    let idx = weak_index_of(store);
    assert forall|h: Seq<u8>, k: int| index_has_pair(idx, h, k) implies (0 <= k < n && store[k].1
        == h) by {
        let (w, j) = choose|w: u32, j: int|
            #![auto]
            idx.dom().contains(w) && 0 <= j < idx[w].len() && idx[w][j] == (h, k);
        lemma_index_entry(store, n, w, j);
    }
    assert forall|h: Seq<u8>, k: int| (0 <= k < n && store[k].1 == h) implies index_has_pair(
        idx,
        h,
        k,
    ) by {
        lemma_index_has(store, n, k);
    }
}

/// Whether some bucket of the index files chunk index `k` at all.
pub open spec fn index_records(idx: Map<u32, Seq<(Seq<u8>, int)>>, k: int) -> bool {
    exists|w: u32, j: int|
        #![auto]
        idx.dom().contains(w) && 0 <= j < idx[w].len() && idx[w][j].1 == k
}

/// Every survivor of a bucket filter stands somewhere in the bucket.
pub proof fn lemma_survivors_subset(bucket: Seq<(Seq<u8>, int)>, strong: Seq<u8>, j: int)
    requires
        0 <= j < survivors_of(bucket, strong).len(),
    ensures
        exists|jb: int|
            #![auto]
            0 <= jb < bucket.len() && bucket[jb] == survivors_of(bucket, strong)[j],
    decreases bucket.len(),
{
    let surv = survivors_of(bucket, strong);
    if bucket.len() > 0 {
        let rest = survivors_of(bucket.drop_last(), strong);
        if bucket.last().0 == strong && j == surv.len() - 1 {
            assert(bucket[bucket.len() - 1] == surv[j]);
        } else {
            lemma_survivors_subset(bucket.drop_last(), strong, j);
            let jb = choose|jb: int|
                #![auto]
                0 <= jb < bucket.drop_last().len() && bucket.drop_last()[jb] == rest[j];
            assert(bucket[jb] == surv[j]);
        }
    }
}

/// What the scan leaves in its output map: blocks carried over from the
/// accumulator, and blocks it recorded itself, which are non-missing,
/// sit at their chunk boundaries, and bear a chunk index the weak-hash
/// index files.
pub proof fn lemma_scan_output(
    new_data: Seq<u8>,
    idx: Map<u32, Seq<(Seq<u8>, int)>>,
    c: nat,
    pos: int,
    lits: Seq<u8>,
    acc: Map<int, GhostDiff>,
    m: Map<int, GhostDiff>,
)
    requires
        scan_from(new_data, idx, c, pos, lits, acc) == Some(m),
    ensures
        forall|k: int| #[trigger]
            m.dom().contains(k) ==> ((acc.dom().contains(k) && m[k] == acc[k]) || (index_records(
                idx,
                k,
            ) && !m[k].is_mising && m[k].start == k * (c as int) && m[k].offset == k * (c as int)
                + c)),
    decreases new_data.len() - pos,
{
    if c < 1 || pos < 0 || pos + c > new_data.len() {
    } else {
        let w = new_data.subrange(pos, pos + c as int);
        let weak = spec_adler32(w);
        if !idx.dom().contains(weak) {
            lemma_scan_output(new_data, idx, c, pos + 1, lits.push(w[0]), acc, m);
        } else {
            let surv = survivors_of(idx[weak], keccak256_of(w));
            if surv.len() == 1 {
                let i = surv[0].1;
                let block = GhostDiff {
                    start: i * (c as int),
                    offset: i * (c as int) + c,
                    is_mising: false,
                    buf: lits,
                };
                let acc2 = acc.insert(i, block);
                lemma_scan_output(new_data, idx, c, pos + c, Seq::<u8>::empty(), acc2, m);
                lemma_survivors_subset(idx[weak], keccak256_of(w), 0);
                assert(index_records(idx, i));
                assert forall|k: int| #[trigger] m.dom().contains(k) implies ((acc.dom().contains(
                    k,
                ) && m[k] == acc[k]) || (index_records(idx, k) && !m[k].is_mising && m[k].start == k
                    * (c as int) && m[k].offset == k * (c as int) + c)) by {
                    if acc2.dom().contains(k) && m[k] == acc2[k] {
                        if k == i {
                            assert(m[k] == block);
                        }
                    }
                }
            }
        }
    }
}

/// Law: after gap filling, the delta's keys are exactly the chunk
/// indices of the old file, each present once.
pub proof fn lemma_delta_keys_complete(
    old_data: Seq<u8>,
    new_data: Seq<u8>,
    c: nat,
    m: Map<int, GhostDiff>,
)
    requires
        c >= 1,
        spec_delta(old_data, new_data, c) == Some(m),
    ensures
        forall|k: int| #[trigger]
            m.dom().contains(k) <==> 0 <= k < chunk_count(old_data.len(), c),
{
    let store = spec_signer(old_data, c);
    let idx = weak_index_of(store);
    let mm = spec_matcher(new_data, idx, c).unwrap();
    lemma_scan_output(
        new_data,
        idx,
        c,
        0,
        Seq::<u8>::empty(),
        Map::<int, GhostDiff>::empty(),
        mm,
    );
    assert forall|k: int| #[trigger] mm.dom().contains(k) implies 0 <= k < store.len() by {
        let (w, j) = choose|w: u32, j: int|
            #![auto]
            idx.dom().contains(w) && 0 <= j < idx[w].len() && idx[w][j].1 == k;
        lemma_index_entry(store, store.len() as int, w, j);
    }
}

/// Law: every non-missing block of the completed delta covers its chunk
/// exactly: it starts at the chunk boundary and ends one chunk later.
pub proof fn lemma_block_bounds(
    old_data: Seq<u8>,
    new_data: Seq<u8>,
    c: nat,
    m: Map<int, GhostDiff>,
)
    requires
        c >= 1,
        spec_delta(old_data, new_data, c) == Some(m),
    ensures
        forall|k: int|
            (#[trigger] m.dom().contains(k) && !m[k].is_mising) ==> (m[k].start == k * (c as int)
                && m[k].offset == k * (c as int) + c),
{
    let store = spec_signer(old_data, c);
    let idx = weak_index_of(store);
    let mm = spec_matcher(new_data, idx, c).unwrap();
    lemma_scan_output(
        new_data,
        idx,
        c,
        0,
        Seq::<u8>::empty(),
        Map::<int, GhostDiff>::empty(),
        mm,
    );
}

/// Law: every missing block of the completed delta carries no literal
/// bytes.
pub proof fn lemma_missing_no_literals(
    old_data: Seq<u8>,
    new_data: Seq<u8>,
    c: nat,
    m: Map<int, GhostDiff>,
)
    requires
        c >= 1,
        spec_delta(old_data, new_data, c) == Some(m),
    ensures
        forall|k: int|
            (#[trigger] m.dom().contains(k) && m[k].is_mising) ==> m[k].buf == Seq::<u8>::empty(),
{
    let store = spec_signer(old_data, c);
    let idx = weak_index_of(store);
    let mm = spec_matcher(new_data, idx, c).unwrap();
    lemma_scan_output(
        new_data,
        idx,
        c,
        0,
        Seq::<u8>::empty(),
        Map::<int, GhostDiff>::empty(),
        mm,
    );
}

/// No two chunks of the store share both their weak checksum and their
/// strong digest.
pub open spec fn distinct_pairs(store: Seq<(u32, Seq<u8>)>) -> bool {
    forall|i: int, j: int|
        #![trigger store[i], store[j]]
        0 <= i < j < store.len() ==> store[i] != store[j]
}

/// The delta of a buffer matched against itself, over its first `k`
/// chunks: every block present, none missing, no literals.
pub open spec fn ident_upto(k: int, c: nat) -> Map<int, GhostDiff> {
    Map::new(
        |i: int| 0 <= i < k,
        |i: int|
            GhostDiff {
                start: i * (c as int),
                offset: i * (c as int) + c,
                is_mising: false,
                buf: Seq::<u8>::empty(),
            },
    )
}

/// A bucket in which no entry bears the candidate digest filters to
/// nothing.
pub proof fn lemma_survivors_none(bucket: Seq<(Seq<u8>, int)>, strong: Seq<u8>)
    requires
        forall|j: int| 0 <= j < bucket.len() ==> (#[trigger] bucket[j]).0 != strong,
    ensures
        survivors_of(bucket, strong) == Seq::<(Seq<u8>, int)>::empty(),
    decreases bucket.len(),
{
    if bucket.len() > 0 {
        lemma_survivors_none(bucket.drop_last(), strong);
    }
}

/// A bucket whose sole entry bearing the candidate digest is `(strong,
/// k)` filters to exactly that entry.
pub proof fn lemma_survivors_unique(bucket: Seq<(Seq<u8>, int)>, strong: Seq<u8>, k: int)
    requires
        forall|j: int|
            0 <= j < bucket.len() ==> ((#[trigger] bucket[j]).0 == strong <==> bucket[j].1 == k),
        forall|j: int|
            (0 <= j < bucket.len() && (#[trigger] bucket[j]).1 == k) ==> bucket[j] == (strong, k),
        exists|j: int| 0 <= j < bucket.len() && (#[trigger] bucket[j]).1 == k,
        forall|j1: int, j2: int|
            #![trigger bucket[j1], bucket[j2]]
            0 <= j1 < j2 < bucket.len() ==> bucket[j1].1 < bucket[j2].1,
    ensures
        survivors_of(bucket, strong) == seq![(strong, k)],
    decreases bucket.len(),
{
    let last = bucket.last();
    let front = bucket.drop_last();
    if last.1 == k {
        assert(last == (strong, k));
        assert forall|j: int| 0 <= j < front.len() implies (#[trigger] front[j]).0 != strong by {
            assert(bucket[j].1 < last.1);
        }
        lemma_survivors_none(front, strong);
        assert(survivors_of(bucket, strong) =~= seq![(strong, k)]);
    } else {
        let jw = choose|j: int| 0 <= j < bucket.len() && (#[trigger] bucket[j]).1 == k;
        assert(front[jw] == bucket[jw]);
        lemma_survivors_unique(front, strong, k);
        assert(last.0 != strong);
    }
}

/// The scan of a buffer against its own signature, from chunk boundary
/// `k` on: every remaining chunk matches itself at once, so the blocks
/// for chunks `k` and beyond join the identity delta with no literals.
pub proof fn lemma_identity_scan(data: Seq<u8>, c: nat, n: int, k: int)
    requires
        c >= 1,
        n == chunk_count(data.len(), c),
        data.len() == n * (c as int),
        distinct_pairs(spec_signer(data, c)),
        0 <= k <= n,
    ensures
        scan_from(
            data,
            weak_index_of(spec_signer(data, c)),
            c,
            k * (c as int),
            Seq::<u8>::empty(),
            ident_upto(k, c),
        ) == Some(ident_upto(n, c)),
    decreases n - k,
{
    let store = spec_signer(data, c);
    let idx = weak_index_of(store);
    let d = c as int;
    let pos = k * d;
    assert(k * d >= 0) by (nonlinear_arith)
        requires
            k >= 0,
            d >= 1,
    ;
    if k == n {
        assert(pos + d > data.len());
    } else {
        assert((k + 1) * d == k * d + d) by (nonlinear_arith);
        assert((k + 1) * d <= n * d) by (nonlinear_arith)
            requires
                k + 1 <= n,
                d >= 0,
        ;
        let w = data.subrange(pos, pos + d);
        assert(w == spec_chunk(data, c, k));
        assert(store[k] == (spec_adler32(w), keccak256_of(w)));
        let weak = store[k].0;
        let strong = store[k].1;
        lemma_index_has(store, n, k);
        let bucket = idx[weak];
        assert forall|j: int| 0 <= j < bucket.len() implies ((#[trigger] bucket[j]).0 == strong
            <==> bucket[j].1 == k) && (bucket[j].1 == k ==> bucket[j] == (strong, k)) by {
            lemma_index_entry(store, n, weak, j);
            if bucket[j].0 == strong {
                assert(store[bucket[j].1] == store[k]);
                if bucket[j].1 != k {
                    assert(false);
                }
            }
        }
        assert forall|j1: int, j2: int|
            #![trigger bucket[j1], bucket[j2]]
        0 <= j1 < j2 < bucket.len() implies bucket[j1].1 < bucket[j2].1 by {
            lemma_index_increasing(store, n, weak, j1, j2);
        }
        lemma_survivors_unique(bucket, strong, k);
        let surv = survivors_of(bucket, strong);
        assert(surv.len() == 1 && surv[0].1 == k);
        let block = GhostDiff {
            start: k * d,
            offset: k * d + c,
            is_mising: false,
            buf: Seq::<u8>::empty(),
        };
        assert(ident_upto(k, c).insert(k, block) =~= ident_upto(k + 1, c));
        lemma_identity_scan(data, c, n, k + 1);
    }
}

/// Law: a buffer of whole chunks, none alike, matched against itself
/// gives the identity delta — every block present and non-missing, each
/// covering its chunk exactly, with no literal bytes. A buffer whose
/// length is not a whole number of chunks leaves its trailing short
/// chunk unmatched, and a buffer with two identical chunks stops the
/// matcher, so both stay outside this law.
pub proof fn lemma_identity(data: Seq<u8>, c: nat)
    requires
        c >= 1,
        data.len() >= 2 * c,
        data.len() as int % (c as int) == 0,
        distinct_pairs(spec_signer(data, c)),
    ensures
        spec_delta(data, data, c) matches Some(m) && (forall|i: int| #[trigger]
            m.dom().contains(i) <==> 0 <= i < chunk_count(data.len(), c) as int) && (forall|i: int|
            0 <= i < chunk_count(data.len(), c) as int ==> (!(#[trigger] m[i]).is_mising && m[i].buf
                == Seq::<u8>::empty() && m[i].start == i * (c as int) && m[i].offset == i * (
            c as int) + c)),
{
    let l = data.len() as int;
    let d = c as int;
    let q = l / d;
    vstd::arithmetic::div_mod::lemma_fundamental_div_mod(l, d);
    vstd::arithmetic::div_mod::lemma_div_pos_is_pos(l, d);
    vstd::arithmetic::div_mod::lemma_div_multiples_vanish_fancy(q, d - 1, d);
    assert(l + d - 1 == d * q + (d - 1));
    let n = chunk_count(data.len(), c) as int;
    assert(n == q);
    assert(l == n * d) by (nonlinear_arith)
        requires
            l == d * q,
            n == q,
    ;
    lemma_identity_scan(data, c, n, 0);
    assert(ident_upto(0, c) =~= Map::<int, GhostDiff>::empty());
    let store = spec_signer(data, c);
    let m0 = ident_upto(n, c);
    assert(spec_matcher(data, weak_index_of(store), c) == Some(m0));
    assert(spec_extend(m0, n, c) =~= m0);
}

/// Law: the engine is deterministic. The completed delta is a function
/// of the old bytes, the new bytes and the chunk size alone, so two runs
/// of the pipeline on equal inputs yield equal deltas. Byte-identical
/// serialized output then rests only on the encoder being deterministic.
pub proof fn lemma_pipeline_deterministic(
    old_data: Seq<u8>,
    new_data: Seq<u8>,
    c: nat,
    m1: Map<int, GhostDiff>,
    m2: Map<int, GhostDiff>,
)
    requires
        spec_delta(old_data, new_data, c) == Some(m1),
        spec_delta(old_data, new_data, c) == Some(m2),
    ensures
        m1 == m2,
{
}

} // verus!
