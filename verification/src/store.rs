//! Object storage: connection settings, and the block cache through which one
//! remote object is read.
//!
//! The object is cut into blocks of equal size (the last one may be shorter).
//! Reads are answered from cached blocks; blocks that are not cached are
//! fetched in contiguous runs, one request each.
use crate::order;
use crate::text;
use bytes::{Bytes, BytesMut};
use vstd::arithmetic::div_mod::*;
use vstd::arithmetic::mul::*;
use vstd::prelude::*;
use vstd::string::*;

verus! {

pub const DEFAULT_BUCKET: &'static str = "openmeteo";

pub const DEFAULT_REGION: &'static str = "us-west-2";

pub const SPATIAL_PREFIX: &'static str = "data_spatial";

/// Default block size for the read cache. Variable metadata of an .om file is
/// clustered near the trailer and chunk data of one variable is contiguous, so
/// fetching in fixed blocks turns many tiny reads into a few requests, while a
/// small block keeps over-read low for bbox subsets.
pub const DEFAULT_BLOCK_SIZE: u64 = 32 * 1024;

/// Connection settings for the Open-Meteo open-data bucket.
#[derive(Debug, Clone)]
pub struct StoreConfig {
    pub bucket: String,
    pub region: String,
    /// Custom S3 endpoint (e.g. a mirror). `None` means AWS.
    pub endpoint: Option<String>,
}

impl Default for StoreConfig {
    fn default() -> (r: Self)
        ensures
            r.bucket@ == DEFAULT_BUCKET@,
            r.region@ == DEFAULT_REGION@,
            r.endpoint is None,
    {
        StoreConfig {
            bucket: DEFAULT_BUCKET.to_owned(),
            region: DEFAULT_REGION.to_owned(),
            endpoint: None,
        }
    }
}

/// `bytes::Bytes`: a shared, immutable run of bytes.
#[verifier::external_type_specification]
#[verifier::external_body]
pub struct ExBytes(bytes::Bytes);

/// `bytes::BytesMut`: a growing run of bytes.
#[verifier::external_type_specification]
#[verifier::external_body]
pub struct ExBytesMut(bytes::BytesMut);

/// The bytes that a `Bytes` holds.
pub uninterp spec fn held(b: Bytes) -> Seq<u8>;

/// The bytes that a `BytesMut` holds.
pub uninterp spec fn gathered(b: BytesMut) -> Seq<u8>;

/// `Bytes::new` holds nothing.
#[verifier::external_body]
fn no_bytes() -> (r: Bytes)
    ensures
        held(r) == Seq::<u8>::empty(),
{
    Bytes::new()
}

/// `Bytes::len` is the number of bytes held.
#[verifier::external_body]
fn bytes_len(b: &Bytes) -> (r: usize)
    ensures
        r == held(*b).len(),
{
    b.len()
}

/// `Bytes::slice` holds the bytes from `start` up to `end`. It panics where the
/// two are out of order or out of range.
#[verifier::external_body]
fn bytes_slice(b: &Bytes, start: usize, end: usize) -> (r: Bytes)
    requires
        start <= end <= held(*b).len(),
    ensures
        held(r) == held(*b).subrange(start as int, end as int),
{
    b.slice(start..end)
}

/// `BytesMut::new` holds nothing.
#[verifier::external_body]
fn empty_buffer() -> (r: BytesMut)
    ensures
        gathered(r) == Seq::<u8>::empty(),
{
    BytesMut::new()
}

/// `BytesMut::extend_from_slice` appends the given bytes. It panics where the
/// buffer, which may double, grows past what can be allocated.
#[verifier::external_body]
fn append_bytes(out: &mut BytesMut, b: &Bytes)
    requires
        gathered(*old(out)).len() + held(*b).len() <= isize::MAX / 2,
    ensures
        gathered(*final(out)) == gathered(*old(out)) + held(*b),
{
    out.extend_from_slice(b)
}

/// `BytesMut::freeze` keeps the bytes.
#[verifier::external_body]
fn freeze(b: BytesMut) -> (r: Bytes)
    ensures
        held(r) == gathered(b),
{
    b.freeze()
}

/// The block `idx` of an object.
pub open spec fn block_of(object: Seq<u8>, block_size: int, idx: int) -> Seq<u8> {
    object.subrange(idx * block_size, order::min((idx + 1) * block_size, object.len() as int))
}

/// The first and the last block that hold the bytes from `offset` up to `offset + count`.
pub open spec fn span(offset: int, count: int, block_size: int) -> (int, int) {
    (offset / block_size, (offset + count - 1) / block_size)
}

pub open spec fn beyond_end(key: Seq<char>, offset: int, count: int, size: int) -> Seq<char> {
    "read beyond end of "@ + key + ": "@ + text::dec(offset as nat) + "+"@ + text::dec(
        count as nat,
    ) + " > "@ + text::dec(size as nat)
}

/// The first and the last block of a read, or its error: a read of nothing needs
/// no block, any other one must end within the object.
pub open spec fn is_span(
    r: Result<Option<(u64, u64)>, String>,
    key: Seq<char>,
    size: int,
    block_size: int,
    offset: int,
    count: int,
) -> bool {
    match r {
        Ok(None) => count == 0,
        Ok(Some((first, last))) => {
            &&& count > 0
            &&& offset + count <= size
            &&& (first as int, last as int) == span(offset, count, block_size)
            &&& first <= last
        },
        Err(e) => count > 0 && offset + count > size && e@ == beyond_end(key, offset, count, size),
    }
}

/// The blocks that a read needs; none where it reads nothing.
pub fn read_span(key: &str, size: u64, block_size: u64, offset: u64, count: u64) -> (r: Result<
    Option<(u64, u64)>,
    String,
>)
    requires
        block_size > 0,
        offset + count <= u64::MAX,
    ensures
        is_span(r, key@, size as int, block_size as int, offset as int, count as int),
{
    if count == 0 {
        return Ok(None);
    }
    if offset + count > size {
        let mut e = "read beyond end of ".to_owned();
        e.append(key);
        e.append(": ");
        text::push_dec(&mut e, offset as u128);
        e.append("+");
        text::push_dec(&mut e, count as u128);
        e.append(" > ");
        text::push_dec(&mut e, size as u128);
        return Err(e);
    }
    let first: u64 = offset / block_size;
    let last: u64 = (offset + count - 1) / block_size;
    proof {
        lemma_div_is_ordered(offset as int, offset + count - 1, block_size as int);
    }
    Ok(Some((first, last)))
}

/// What a reader finds of a block in the cache.
#[derive(Debug, Clone, Copy, PartialEq, Eq, Structural)]
pub enum BlockState {
    /// It is there.
    Cached,
    /// Nobody is fetching it yet: the reader claims it.
    Free,
    /// Another reader is fetching it.
    Busy,
}

/// The blocks in the given state among those from `first` on, ascending.
pub open spec fn blocks_in_state(first: int, states: Seq<BlockState>, which: BlockState) -> Seq<int>
    decreases states.len(),
{
    if states.len() == 0 {
        Seq::empty()
    } else {
        let rest = blocks_in_state(first, states.drop_last(), which);
        if states.last() == which {
            rest.push(first + states.len() - 1)
        } else {
            rest
        }
    }
}

/// The list cut into its longest runs of consecutive numbers: the first and the
/// last number of each.
pub open spec fn runs(list: Seq<int>) -> Seq<(int, int)>
    decreases list.len(),
{
    if list.len() == 0 {
        Seq::empty()
    } else {
        let rest = runs(list.drop_last());
        let x = list.last();
        if rest.len() > 0 && rest.last().1 + 1 == x {
            rest.drop_last().push((rest.last().0, x))
        } else {
            rest.push((x, x))
        }
    }
}

/// What a reader does to have blocks cached: it fetches the runs of blocks that
/// it claims, one request each, and then waits for the blocks that others fetch.
#[derive(Debug)]
pub struct BlockPlan {
    /// First and last block of each run.
    pub runs: Vec<(u64, u64)>,
    pub awaited: Vec<u64>,
}

pub open spec fn run_ints(v: Seq<(u64, u64)>) -> Seq<(int, int)> {
    v.map_values(|p: (u64, u64)| (p.0 as int, p.1 as int))
}

pub open spec fn block_ints(v: Seq<u64>) -> Seq<int> {
    v.map_values(|p: u64| p as int)
}

/// The last run ends with the last number.
proof fn lemma_last_run(list: Seq<int>)
    ensures
        runs(list).len() == 0 <==> list.len() == 0,
        list.len() > 0 ==> runs(list).last().1 == list.last(),
    decreases list.len(),
{
    if list.len() > 0 {
        lemma_last_run(list.drop_last());
    }
}

/// Decide how blocks come into the cache, from what is found of the blocks from `first` on.
pub fn plan_blocks(first: u64, states: &[BlockState]) -> (r: BlockPlan)
    requires
        first + states@.len() <= u64::MAX,
    ensures
        run_ints(r.runs@) == runs(blocks_in_state(first as int, states@, BlockState::Free)),
        block_ints(r.awaited@) == blocks_in_state(first as int, states@, BlockState::Busy),
{
    let mut out: Vec<(u64, u64)> = Vec::new();
    let mut awaited: Vec<u64> = Vec::new();
    let mut i: usize = 0;
    assert(states@.take(0) == Seq::<BlockState>::empty());
    assert(run_ints(out@) == Seq::<(int, int)>::empty());
    assert(block_ints(awaited@) == Seq::<int>::empty());
    while i < states.len()
        invariant
            i <= states.len(),
            first + states@.len() <= u64::MAX,
            run_ints(out@) == runs(
                blocks_in_state(first as int, states@.take(i as int), BlockState::Free),
            ),
            block_ints(awaited@) == blocks_in_state(
                first as int,
                states@.take(i as int),
                BlockState::Busy,
            ),
        decreases states.len() - i,
    {
        let idx: u64 = first + i as u64;
        let ghost free = blocks_in_state(first as int, states@.take(i as int), BlockState::Free);
        let ghost before = out@;
        let ghost waiting = awaited@;
        assert(states@.take(i + 1).drop_last() == states@.take(i as int));
        match states[i] {
            BlockState::Cached => {},
            BlockState::Free => {
                let ghost now = free.push(idx as int);
                let n: usize = out.len();
                assert(now.drop_last() == free);
                assert(run_ints(before).len() == n);
                if n > 0 && out[n - 1].1 < idx && out[n - 1].1 + 1 == idx {
                    let a: u64 = out[n - 1].0;
                    out.set(n - 1, (a, idx));
                    assert(run_ints(out@) == run_ints(before).drop_last().push(
                        (a as int, idx as int),
                    ));
                } else {
                    out.push((idx, idx));
                    assert(run_ints(out@) == run_ints(before).push((idx as int, idx as int)));
                    assert(n > 0 ==> run_ints(before).last().1 + 1 != idx);
                }
                assert(run_ints(out@) == runs(now));
            },
            BlockState::Busy => {
                awaited.push(idx);
                assert(block_ints(awaited@) == block_ints(waiting).push(idx as int));
            },
        }
        i += 1;
    }
    assert(states@.take(i as int) == states@);
    BlockPlan { runs: out, awaited }
}

/// A block whose other fetch failed is fetched by the reader that waited for it.
pub fn after_wait(idx: u64, cached: bool) -> (r: Option<(u64, u64)>)
    ensures
        r == (if cached {
            None
        } else {
            Some((idx, idx))
        }),
{
    if cached {
        None
    } else {
        Some((idx, idx))
    }
}

/// The number lies in one of the runs.
pub open spec fn in_runs(rs: Seq<(int, int)>, x: int) -> bool {
    exists|k: int| 0 <= k < rs.len() && (#[trigger] rs[k]).0 <= x <= rs[k].1
}

proof fn lemma_blocks_in_state(first: int, states: Seq<BlockState>, which: BlockState, x: int)
    ensures
        blocks_in_state(first, states, which).contains(x) <==> first <= x < first + states.len()
            && states[x - first] == which,
        forall|i: int|
            0 <= i < blocks_in_state(first, states, which).len() ==> (#[trigger] blocks_in_state(
                first,
                states,
                which,
            )[i]) < first + states.len(),
        forall|i: int, j: int|
            0 <= i < j < blocks_in_state(first, states, which).len() ==> blocks_in_state(
                first,
                states,
                which,
            )[i] < blocks_in_state(first, states, which)[j],
    decreases states.len(),
{
    if states.len() > 0 {
        let part = states.drop_last();
        let rest = blocks_in_state(first, part, which);
        let all = blocks_in_state(first, states, which);
        lemma_blocks_in_state(first, part, which, x);
        if states.last() == which {
            assert(all == rest.push(first + states.len() - 1));
            if rest.contains(x) {
                let k = choose|k: int| 0 <= k < rest.len() && rest[k] == x;
                assert(all[k] == x);
            }
            assert(all[rest.len() as int] == first + states.len() - 1);
            if all.contains(x) && x != first + states.len() - 1 {
                let k = choose|k: int| 0 <= k < all.len() && all[k] == x;
                assert(rest[k] == x);
            }
            assert forall|i: int| 0 <= i < all.len() implies (#[trigger] all[i]) < first
                + states.len() by {
                if i < rest.len() {
                    assert(all[i] == rest[i]);
                }
            }
            assert forall|i: int, j: int| 0 <= i < j < all.len() implies all[i] < all[j] by {
                assert(all[i] == rest[i]);
                if j < rest.len() {
                    assert(all[j] == rest[j]);
                }
            }
        }
    }
}

proof fn lemma_runs_hold_the_list(list: Seq<int>, x: int)
    requires
        forall|i: int, j: int| 0 <= i < j < list.len() ==> list[i] < list[j],
    ensures
        in_runs(runs(list), x) <==> list.contains(x),
    decreases list.len(),
{
    if list.len() > 0 {
        let part = list.drop_last();
        let rest = runs(part);
        let all = runs(list);
        let last = list.last();
        lemma_runs_hold_the_list(part, x);
        lemma_last_run(part);
        if part.contains(x) {
            let k = choose|k: int| 0 <= k < part.len() && part[k] == x;
            assert(list[k] == x);
        }
        if list.contains(x) && x != last {
            let k = choose|k: int| 0 <= k < list.len() && list[k] == x;
            assert(part[k] == x);
        }
        assert(list[list.len() - 1] == last);
        if rest.len() > 0 && rest.last().1 + 1 == last {
            let n = rest.len() - 1;
            assert(all[n] == (rest.last().0, last));
            if in_runs(rest, x) {
                let k = choose|k: int| 0 <= k < rest.len() && (#[trigger] rest[k]).0 <= x
                    <= rest[k].1;
                assert(all[k].0 <= x <= all[k].1);
            }
            if x == last {
                lemma_run_in_order(part, n);
                assert(all[n].0 <= x <= all[n].1);
            }
            if in_runs(all, x) && x != last {
                let k = choose|k: int| 0 <= k < all.len() && (#[trigger] all[k]).0 <= x
                    <= all[k].1;
                assert(rest[k].0 <= x <= rest[k].1);
            }
        } else {
            let n = rest.len() as int;
            assert(all[n] == (last, last));
            if in_runs(rest, x) {
                let k = choose|k: int| 0 <= k < rest.len() && (#[trigger] rest[k]).0 <= x
                    <= rest[k].1;
                assert(all[k].0 <= x <= all[k].1);
            }
            if x == last {
                assert(all[n].0 <= x <= all[n].1);
            }
            if in_runs(all, x) && x != last {
                let k = choose|k: int| 0 <= k < all.len() && (#[trigger] all[k]).0 <= x
                    <= all[k].1;
                assert(rest[k].0 <= x <= rest[k].1);
            }
        }
    }
}

/// A run does not end before it starts.
proof fn lemma_run_in_order(list: Seq<int>, k: int)
    requires
        0 <= k < runs(list).len(),
    ensures
        runs(list)[k].0 <= runs(list)[k].1,
    decreases list.len(),
{
    if list.len() > 0 {
        let rest = runs(list.drop_last());
        if k < rest.len() {
            lemma_run_in_order(list.drop_last(), k);
        }
    }
}

/// Every block of a read is cached, fetched in one of the runs, or waited for,
/// and only one of the three.
pub proof fn law_every_block_comes_into_the_cache(first: int, states: Seq<BlockState>, x: int)
    requires
        first <= x < first + states.len(),
    ensures
        ({
            let fetched = in_runs(runs(blocks_in_state(first, states, BlockState::Free)), x);
            let awaited = blocks_in_state(first, states, BlockState::Busy).contains(x);
            match states[x - first] {
                BlockState::Cached => !fetched && !awaited,
                BlockState::Free => fetched && !awaited,
                BlockState::Busy => !fetched && awaited,
            }
        }),
{
    lemma_blocks_in_state(first, states, BlockState::Free, x);
    lemma_blocks_in_state(first, states, BlockState::Busy, x);
    lemma_runs_hold_the_list(blocks_in_state(first, states, BlockState::Free), x);
}

/// The byte range of the blocks `a` to `b`.
pub fn run_range(a: u64, b: u64, block_size: u64, size: u64) -> (r: (u64, u64))
    requires
        a <= b,
        (b + 1) * block_size <= u64::MAX,
        a * block_size <= size,
    ensures
        r.0 == a * block_size,
        r.1 == order::min((b + 1) * block_size, size as int),
        r.0 <= r.1,
{
    proof {
        lemma_mul_inequality(a as int, b + 1, block_size as int);
        lemma_mul_inequality(b as int, b + 1, block_size as int);
    }
    assert((b + 1) * block_size == b * block_size + block_size) by (nonlinear_arith);
    let offset: u64 = a * block_size;
    let full: u64 = b * block_size + block_size;
    let end: u64 = if full <= size {
        full
    } else {
        size
    };
    (offset, end)
}

/// A range request must give as many bytes as were asked for.
pub fn check_range_length(key: &str, offset: u64, count: u64, got: u64) -> (r: Result<(), String>)
    ensures
        match r {
            Ok(_) => got == count,
            Err(e) => got != count && e@ == "short range read for "@ + key@ + " @ "@ + text::dec(
                offset as nat,
            ) + "+"@ + text::dec(count as nat) + ": got "@ + text::dec(got as nat) + " bytes"@,
        },
{
    if got != count {
        let mut e = "short range read for ".to_owned();
        e.append(key);
        e.append(" @ ");
        text::push_dec(&mut e, offset as u128);
        e.append("+");
        text::push_dec(&mut e, count as u128);
        e.append(": got ");
        text::push_dec(&mut e, got as u128);
        e.append(" bytes");
        return Err(e);
    }
    Ok(())
}

/// The block `blk` out of the bytes of a run that starts with the block `a`.
pub fn cut_block(data: &Bytes, a: u64, blk: u64, block_size: u64) -> (r: Bytes)
    requires
        a <= blk,
        (blk - a) * block_size <= held(*data).len(),
        held(*data).len() + block_size <= u64::MAX,
    ensures
        held(r) == held(*data).subrange(
            (blk - a) * block_size,
            order::min((blk - a) * block_size + block_size, held(*data).len() as int),
        ),
{
    let n: usize = bytes_len(data);
    let s: u64 = (blk - a) * block_size;
    let full: u64 = s + block_size;
    let e: u64 = if full <= n as u64 {
        full
    } else {
        n as u64
    };
    bytes_slice(data, s as usize, e as usize)
}

/// A run of blocks cut out of the object gives the blocks of the object.
pub proof fn law_cut_blocks_are_the_blocks(
    object: Seq<u8>,
    block_size: int,
    a: int,
    b: int,
    blk: int,
)
    requires
        block_size > 0,
        0 <= a <= blk <= b,
        blk * block_size < object.len(),
    ensures
        ({
            let data = object.subrange(
                a * block_size,
                order::min((b + 1) * block_size, object.len() as int),
            );
            let s = (blk - a) * block_size;
            &&& 0 <= s <= data.len()
            &&& data.subrange(s, order::min(s + block_size, data.len() as int)) == block_of(
                object,
                block_size,
                blk,
            )
        }),
{
    lemma_mul_inequality(a, blk, block_size);
    lemma_mul_inequality(blk + 1, b + 1, block_size);
    lemma_mul_is_distributive_sub_other_way(block_size, blk, a);
    assert((blk + 1) * block_size == blk * block_size + block_size) by (nonlinear_arith);
    assert(0 <= a * block_size) by (nonlinear_arith)
        requires
            a >= 0,
            block_size > 0,
    ;
    let end = order::min((b + 1) * block_size, object.len() as int);
    let data = object.subrange(a * block_size, end);
    let s = (blk - a) * block_size;
    assert(s == blk * block_size - a * block_size);
    assert(data.subrange(s, order::min(s + block_size, data.len() as int)) == block_of(
        object,
        block_size,
        blk,
    ));
}

/// The part of the block `idx` with the bytes `data` that a read needs.
pub open spec fn piece(data: Seq<u8>, idx: int, block_size: int, offset: int, count: int) -> Seq<u8> {
    data.subrange(
        order::max(offset - idx * block_size, 0),
        order::min(offset + count - idx * block_size, data.len() as int),
    )
}

/// The parts of the blocks from `first` on, one behind the other.
pub open spec fn pieces(
    blocks: Seq<Seq<u8>>,
    first: int,
    block_size: int,
    offset: int,
    count: int,
) -> Seq<u8>
    decreases blocks.len(),
{
    if blocks.len() == 0 {
        Seq::empty()
    } else {
        pieces(blocks.drop_last(), first, block_size, offset, count) + piece(
            blocks.last(),
            first + blocks.len() - 1,
            block_size,
            offset,
            count,
        )
    }
}

/// What the blocks hold, where all are there.
pub open spec fn contents(blocks: Seq<Option<Bytes>>) -> Seq<Seq<u8>> {
    blocks.map_values(|b: Option<Bytes>| held(b->0))
}

pub open spec fn all_cached(blocks: Seq<Option<Bytes>>) -> bool {
    forall|i: int| 0 <= i < blocks.len() ==> #[trigger] blocks[i] is Some
}

/// These can be the blocks from the first to the last one that a read needs: a
/// read of nothing needs none, no block is longer than the block size, and the
/// first one reaches up to the read.
pub open spec fn can_assemble(
    blocks: Seq<Option<Bytes>>,
    block_size: int,
    offset: int,
    count: int,
) -> bool {
    &&& blocks.len() == (if count == 0 {
        0
    } else {
        span(offset, count, block_size).1 - span(offset, count, block_size).0 + 1
    })
    &&& forall|i: int|
        0 <= i < blocks.len() ==> (#[trigger] blocks[i] matches Some(b) ==> held(b).len()
            <= block_size)
    &&& count > 0 ==> (blocks[0] matches Some(b) ==> offset % block_size <= held(b).len())
}

/// The answer to a read is put together from the blocks.
pub open spec fn is_assembled(
    r: Result<Bytes, String>,
    blocks: Seq<Option<Bytes>>,
    block_size: int,
    offset: int,
    count: int,
) -> bool {
    match r {
        Ok(b) => all_cached(blocks) && held(b) == pieces(
            contents(blocks),
            offset / block_size,
            block_size,
            offset,
            count,
        ),
        Err(e) => !all_cached(blocks) && e@ == "block cache inconsistency"@,
    }
}

/// Answer a read of `count` bytes from `offset` on out of the cached blocks
/// from the first to the last one that it needs; a read of nothing needs none.
pub fn assemble(blocks: &[Option<Bytes>], block_size: u64, offset: u64, count: u64) -> (r: Result<
    Bytes,
    String,
>)
    requires
        block_size > 0,
        offset + count <= u64::MAX,
        can_assemble(blocks@, block_size as int, offset as int, count as int),
        // The answer can be allocated.
        blocks@.len() > 1 ==> count <= isize::MAX / 2,
    ensures
        is_assembled(r, blocks@, block_size as int, offset as int, count as int),
{
    if count == 0 {
        return Ok(no_bytes());
    }
    let first: u64 = offset / block_size;
    let end: u64 = offset + count;
    let ghost bs = block_size as int;
    let ghost last = (end - 1) / bs;
    let ghost all = contents(blocks@);
    proof {
        lemma_fundamental_div_mod(offset as int, bs);
        lemma_fundamental_div_mod(end - 1, bs);
        lemma_mul_is_commutative(bs, first as int);
        lemma_mul_is_commutative(bs, last);
        assert((first + 1) * bs == first * bs + bs) by (nonlinear_arith);
    }
    let mut out = empty_buffer();
    let mut i: usize = 0;
    assert(all.take(0) == Seq::<Seq<u8>>::empty());
    while i < blocks.len()
        invariant
            i <= blocks.len(),
            block_size > 0,
            count > 0,
            end == offset + count,
            bs == block_size,
            first == offset as int / bs,
            last == (end - 1) / bs,
            first * bs <= offset,
            offset == first * bs + offset as int % bs,
            last * bs < end,
            offset < (first + 1) * bs,
            blocks@.len() == last - first + 1,
            forall|k: int|
                0 <= k < blocks@.len() ==> (#[trigger] blocks@[k] matches Some(b) ==> held(b).len()
                    <= bs),
            blocks@[0] matches Some(b) ==> offset as int % bs <= held(b).len(),
            blocks@.len() > 1 ==> count <= isize::MAX / 2,
            all == contents(blocks@),
            forall|k: int| 0 <= k < i ==> #[trigger] blocks@[k] is Some,
            gathered(out) == pieces(
                all.take(i as int),
                first as int,
                bs,
                offset as int,
                count as int,
            ),
            gathered(out).len() <= order::max((first + i) * bs - offset, 0),
            gathered(out).len() <= count,
        decreases blocks.len() - i,
    {
        let ghost idx: int = first + i;
        proof {
            assert(all.take(i + 1).drop_last() == all.take(i as int));
            lemma_mul_inequality(idx, last, bs);
            assert((idx + 1) * bs == idx * bs + bs) by (nonlinear_arith);
            if i > 0 {
                lemma_mul_inequality(first + 1, idx, bs);
            }
        }
        let data = match &blocks[i] {
            Some(b) => b,
            None => {
                assert(!(blocks@[i as int] is Some));
                return Err("block cache inconsistency".to_owned());
            },
        };
        assert(0 <= idx * bs) by (nonlinear_arith)
            requires
                idx >= 0,
                bs > 0,
        ;
        let start: u64 = (first + i as u64) * block_size;
        let n: usize = bytes_len(data);
        let s: u64 = if offset > start {
            offset - start
        } else {
            0
        };
        let rest: u64 = end - start;
        let e: u64 = if rest <= n as u64 {
            rest
        } else {
            n as u64
        };
        let part = bytes_slice(data, s as usize, e as usize);
        proof {
            assert(all[i as int] == held(*data));
            assert(held(part) == piece(
                all[i as int],
                idx,
                bs,
                offset as int,
                count as int,
            ));
            assert(blocks@[i as int] matches Some(b) && held(b).len() <= bs);
            assert(start == idx * bs);
        }
        if blocks.len() == 1 {
            proof {
                assert(all.take(1) == all);
                assert(gathered(out) + held(part) == held(part));
            }
            return Ok(part);
        }
        append_bytes(&mut out, &part);
        i += 1;
    }
    assert(all.take(i as int) == all);
    Ok(freeze(out))
}

/// The blocks of an object from the first to the last one that a read needs.
pub open spec fn needed_blocks(object: Seq<u8>, block_size: int, offset: int, count: int) -> Seq<
    Seq<u8>,
> {
    let (first, last) = span(offset, count, block_size);
    Seq::new((last - first + 1) as nat, |i: int| block_of(object, block_size, first + i))
}

proof fn lemma_pieces_of_object(object: Seq<u8>, block_size: int, offset: int, count: int, n: int)
    requires
        block_size > 0,
        count > 0,
        0 <= offset,
        offset + count <= object.len(),
        0 < n <= needed_blocks(object, block_size, offset, count).len(),
    ensures
        ({
            let first = offset / block_size;
            pieces(
                needed_blocks(object, block_size, offset, count).take(n),
                first,
                block_size,
                offset,
                count,
            ) == object.subrange(offset, order::min(offset + count, (first + n) * block_size))
        }),
    decreases n,
{
    let bs = block_size;
    let all = needed_blocks(object, bs, offset, count);
    let (first, last) = span(offset, count, bs);
    let end = offset + count;
    let idx = first + n - 1;
    lemma_fundamental_div_mod(offset, bs);
    lemma_fundamental_div_mod(end - 1, bs);
    lemma_mul_is_commutative(bs, first);
    lemma_mul_is_commutative(bs, last);
    lemma_div_is_ordered(offset, end - 1, bs);
    lemma_mul_inequality(idx, last, bs);
    lemma_mul_inequality(first, idx, bs);
    assert((idx + 1) * bs == idx * bs + bs) by (nonlinear_arith);
    assert((first + 1) * bs == first * bs + bs) by (nonlinear_arith);
    assert(0 <= first * bs) by (nonlinear_arith)
        requires
            first >= 0,
            bs > 0,
    ;
    assert(first + n == idx + 1);
    let data = all[n - 1];
    assert(data == block_of(object, bs, idx));
    assert(all.take(n).last() == data);
    let upto = order::min(end, (idx + 1) * bs);
    let from = order::max(offset, idx * bs);
    assert(piece(data, idx, bs, offset, count) == object.subrange(from, upto));
    assert(all.take(n).drop_last() == all.take(n - 1));
    if n == 1 {
        assert(all.take(0).len() == 0);
        assert(pieces(all.take(0), first, bs, offset, count) == Seq::<u8>::empty());
        assert(from == offset);
        assert(pieces(all.take(1), first, bs, offset, count) == object.subrange(offset, upto));
    } else {
        lemma_mul_inequality(first + 1, idx, bs);
        lemma_pieces_of_object(object, bs, offset, count, n - 1);
        assert(from == idx * bs);
        assert(object.subrange(offset, idx * bs) + object.subrange(idx * bs, upto)
            == object.subrange(offset, upto));
    }
}

/// A read out of the cached blocks of an object gives the bytes of the object
/// at the place that was asked for.
pub proof fn law_read_gives_the_bytes_of_the_object(
    object: Seq<u8>,
    block_size: int,
    offset: int,
    count: int,
)
    requires
        block_size > 0,
        count > 0,
        0 <= offset,
        offset + count <= object.len(),
    ensures
        pieces(
            needed_blocks(object, block_size, offset, count),
            offset / block_size,
            block_size,
            offset,
            count,
        ) == object.subrange(offset, offset + count),
{
    let bs = block_size;
    let all = needed_blocks(object, bs, offset, count);
    let (first, last) = span(offset, count, bs);
    let end = offset + count;
    lemma_div_is_ordered(offset, end - 1, bs);
    lemma_fundamental_div_mod(end - 1, bs);
    lemma_mul_is_commutative(bs, last);
    assert((last + 1) * bs == last * bs + bs) by (nonlinear_arith);
    lemma_pieces_of_object(object, bs, offset, count, all.len() as int);
    assert(all.take(all.len() as int) == all);
    assert(first + all.len() == last + 1);
}

/// What a read of the object itself gives.
pub open spec fn object_answer(
    key: Seq<char>,
    object: Seq<u8>,
    offset: int,
    count: int,
) -> Result<Seq<u8>, Seq<char>> {
    if count == 0 {
        Ok(Seq::empty())
    } else if offset + count <= object.len() {
        Ok(object.subrange(offset, offset + count))
    } else {
        Err(beyond_end(key, offset, count, object.len() as int))
    }
}

/// Every cached block is the block of the object.
pub open spec fn is_cache_of(cache: Map<int, Seq<u8>>, object: Seq<u8>, block_size: int) -> bool {
    forall|x: int| #[trigger]
        cache.contains_key(x) ==> cache[x] == block_of(object, block_size, x)
}

/// What a reader that looks into the cache for the blocks from `first` on sees.
pub open spec fn is_seen(
    blocks: Seq<Option<Bytes>>,
    cache: Map<int, Seq<u8>>,
    first: int,
) -> bool {
    forall|i: int|
        0 <= i < blocks.len() ==> match #[trigger] blocks[i] {
            Some(b) => cache.contains_key(first + i) && cache[first + i] == held(b),
            None => !cache.contains_key(first + i),
        }
}

/// What the plan for blocks in the given states promises has happened: the
/// blocks that were cached still are, those of the runs have been fetched, and
/// those that were waited for have come.
pub open spec fn is_filled(
    cache: Map<int, Seq<u8>>,
    first: int,
    states: Seq<BlockState>,
) -> bool {
    &&& forall|i: int|
        0 <= i < states.len() && #[trigger] states[i] is Cached ==> cache.contains_key(first + i)
    &&& forall|x: int|
        in_runs(runs(blocks_in_state(first, states, BlockState::Free)), x)
            ==> #[trigger] cache.contains_key(x)
    &&& forall|x: int|
        blocks_in_state(first, states, BlockState::Busy).contains(x)
            ==> #[trigger] cache.contains_key(x)
}

/// The blocks that are cut out of the byte range of a run keep the cache one of
/// the object, whoever fetches them and whatever is cached already.
pub proof fn law_fetched_blocks_keep_the_cache(
    cache: Map<int, Seq<u8>>,
    object: Seq<u8>,
    block_size: int,
    a: int,
    b: int,
    blk: int,
)
    requires
        is_cache_of(cache, object, block_size),
        block_size > 0,
        0 <= a <= blk <= b,
        blk * block_size < object.len(),
    ensures
        ({
            let data = object.subrange(
                a * block_size,
                order::min((b + 1) * block_size, object.len() as int),
            );
            let s = (blk - a) * block_size;
            let cut = data.subrange(s, order::min(s + block_size, data.len() as int));
            is_cache_of(cache.insert(blk, cut), object, block_size)
        }),
{
    law_cut_blocks_are_the_blocks(object, block_size, a, b, blk);
}

/// The blocks of a read that lies within the object.
proof fn lemma_seen_blocks(
    object: Seq<u8>,
    block_size: int,
    offset: int,
    count: int,
    states: Seq<BlockState>,
    cache: Map<int, Seq<u8>>,
    blocks: Seq<Option<Bytes>>,
)
    requires
        block_size > 0,
        count > 0,
        0 <= offset,
        offset + count <= object.len(),
        blocks.len() == needed_blocks(object, block_size, offset, count).len(),
        states.len() == blocks.len(),
        is_cache_of(cache, object, block_size),
        is_filled(cache, span(offset, count, block_size).0, states),
        is_seen(blocks, cache, span(offset, count, block_size).0),
    ensures
        all_cached(blocks),
        contents(blocks) == needed_blocks(object, block_size, offset, count),
        can_assemble(blocks, block_size, offset, count),
{
    let bs = block_size;
    let (first, last) = span(offset, count, bs);
    let all = needed_blocks(object, bs, offset, count);
    let end = offset + count;
    lemma_div_is_ordered(offset, end - 1, bs);
    lemma_fundamental_div_mod(offset, bs);
    lemma_fundamental_div_mod(end - 1, bs);
    lemma_mul_is_commutative(bs, first);
    lemma_mul_is_commutative(bs, last);
    lemma_div_pos_is_pos(offset, bs);
    assert forall|i: int| 0 <= i < blocks.len() implies #[trigger] blocks[i] is Some && held(
        blocks[i]->0,
    ) == block_of(object, bs, first + i) && held(blocks[i]->0).len() <= bs by {
        let x = first + i;
        law_every_block_comes_into_the_cache(first, states, x);
        assert(states[x - first] == states[i]);
        match states[i] {
            BlockState::Cached => {},
            BlockState::Free => {},
            BlockState::Busy => {},
        }
        assert(cache.contains_key(x));
        assert(blocks[i] is Some);
        lemma_mul_inequality(x, last, bs);
        assert((x + 1) * bs == x * bs + bs) by (nonlinear_arith);
        assert(0 <= x * bs) by (nonlinear_arith)
            requires
                x >= 0,
                bs > 0,
        ;
    }
    assert(all_cached(blocks));
    assert(contents(blocks) == all);
    assert(blocks[0] is Some && held(blocks[0]->0) == block_of(object, bs, first + 0));
    assert((first + 1) * bs == first * bs + bs) by (nonlinear_arith);
    assert(offset % bs <= held(blocks[0]->0).len());
}

/// A read through the cache answers as the object itself does, whatever the
/// block size, whatever is cached already and whoever fetches the rest: with
/// nothing where nothing is asked for, even past the end; with the bytes of the
/// object where the read ends within it; and else with an error.
///
/// `states` is what the reader found of the blocks that it needs, `cache` what
/// is cached once the plan for them is carried out, and `blocks` what it then
/// sees. `found` and `answer` are what `read_span` and `assemble` give.
pub proof fn law_a_cached_read_answers_as_the_object(
    key: Seq<char>,
    object: Seq<u8>,
    block_size: int,
    offset: int,
    count: int,
    found: Result<Option<(u64, u64)>, String>,
    states: Seq<BlockState>,
    cache: Map<int, Seq<u8>>,
    blocks: Seq<Option<Bytes>>,
    answer: Result<Bytes, String>,
)
    requires
        block_size > 0,
        0 <= offset,
        0 <= count,
        is_span(found, key, object.len() as int, block_size, offset, count),
        is_cache_of(cache, object, block_size),
        found matches Ok(None) ==> blocks.len() == 0,
        found matches Ok(Some((first, last))) ==> {
            &&& states.len() == last - first + 1
            &&& is_filled(cache, first as int, states)
            &&& blocks.len() == last - first + 1
            &&& is_seen(blocks, cache, first as int)
        },
        found is Ok ==> is_assembled(answer, blocks, block_size, offset, count),
    ensures
        found is Ok ==> can_assemble(blocks, block_size, offset, count),
        object_answer(key, object, offset, count) == match found {
            Err(e) => Err::<Seq<u8>, Seq<char>>(e@),
            Ok(_) => match answer {
                Ok(b) => Ok(held(b)),
                Err(e) => Err(e@),
            },
        },
{
    match found {
        Ok(Some((first, last))) => {
            lemma_seen_blocks(object, block_size, offset, count, states, cache, blocks);
            law_read_gives_the_bytes_of_the_object(object, block_size, offset, count);
        },
        Ok(None) => {
            assert(contents(blocks).len() == 0);
        },
        Err(_) => {},
    }
}

/// Runs are as long as they can be: between two of them lies a block that is in
/// neither, so that neighbouring blocks come with one request.
pub proof fn law_runs_are_apart(list: Seq<int>, k: int)
    requires
        forall|i: int, j: int| 0 <= i < j < list.len() ==> list[i] < list[j],
        0 <= k,
        k + 1 < runs(list).len(),
    ensures
        runs(list)[k].1 + 1 < runs(list)[k + 1].0,
        runs(list)[k].0 <= runs(list)[k].1,
    decreases list.len(),
{
    let part = list.drop_last();
    let rest = runs(part);
    let all = runs(list);
    lemma_last_run(part);
    lemma_run_in_order(list, k);
    if k + 1 < rest.len() {
        law_runs_are_apart(part, k);
    } else {
        assert(part.len() > 0);
        assert(part.last() == list[list.len() - 2]);
        assert(rest.last() == rest[k]);
    }
}

} // verus!
