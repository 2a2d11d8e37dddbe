//! Decoding of the raw records that the in-kernel probes push to their rings.
use vstd::prelude::*;

verus! {

/// Little-endian value of the `n` bytes of `b` starting at `off`.
pub open spec fn le_value(b: Seq<u8>, off: int, n: nat) -> nat
    decreases n,
{
    if n == 0 {
        0
    } else {
        b[off] as nat + 256 * le_value(b, off + 1, (n - 1) as nat)
    }
}

/// Big-endian value of the `n` bytes of `b` starting at `off`.
pub open spec fn be_value(b: Seq<u8>, off: int, n: nat) -> nat
    decreases n,
{
    if n == 0 {
        0
    } else {
        be_value(b, off, (n - 1) as nat) * 256 + b[off + n - 1] as nat
    }
}

/// The `n` bytes at `off` read least significant first when `little`, most
/// significant first otherwise.
pub open spec fn word(b: Seq<u8>, off: int, n: nat, little: bool) -> nat {
    if little { le_value(b, off, n) } else { be_value(b, off, n) }
}

pub open spec fn u32_at(b: Seq<u8>, off: int, little: bool) -> u32 {
    word(b, off, 4, little) as u32
}

pub open spec fn u64_at(b: Seq<u8>, off: int, little: bool) -> u64 {
    word(b, off, 8, little) as u64
}

/// Relies on `u32::from_ne_bytes`: the four bytes read in the host's byte
/// order, which is little-endian or big-endian.
#[verifier::external_body]
fn native_u32(b: [u8; 4]) -> (r: u32)
    ensures
        r as nat == le_value(b@, 0, 4) || r as nat == be_value(b@, 0, 4),
{
    u32::from_ne_bytes(b)
}

/// Whether the host stores integers least significant byte first, as the
/// probes then write their records.
pub fn host_is_little_endian() -> (r: bool) {
    native_u32([1, 0, 0, 0]) == 1
}

/// Reads four bytes as a `u32` in the given byte order.
pub fn read_u32(b: &[u8], off: usize, little: bool) -> (r: u32)
    requires
        off + 4 <= b@.len(),
    ensures
        r as nat == word(b@, off as int, 4, little),
        r == u32_at(b@, off as int, little),
{
    reveal_with_fuel(le_value, 5);
    reveal_with_fuel(be_value, 5);
    let b0 = b[off] as u32;
    let b1 = b[off + 1] as u32;
    let b2 = b[off + 2] as u32;
    let b3 = b[off + 3] as u32;
    assert(b0 <= 255 && b1 <= 255 && b2 <= 255 && b3 <= 255);
    if little {
        b0 + 256 * (b1 + 256 * (b2 + 256 * b3))
    } else {
        b3 + 256 * (b2 + 256 * (b1 + 256 * b0))
    }
}

/// Reads eight bytes as a `u64` in the given byte order.
pub fn read_u64(b: &[u8], off: usize, little: bool) -> (r: u64)
    requires
        off + 8 <= b@.len(),
    ensures
        r as nat == word(b@, off as int, 8, little),
        r == u64_at(b@, off as int, little),
{
    let n = b.len();
    assert(off + 4 < n);
    let first = read_u32(b, off, little) as u64;
    let second = read_u32(b, off + 4, little) as u64;
    proof {
        lemma_split8(b@, off as int);
    }
    if little {
        first + 4294967296 * second
    } else {
        4294967296 * first + second
    }
}

proof fn lemma_split8(b: Seq<u8>, off: int)
    ensures
        le_value(b, off, 8) == le_value(b, off, 4) + 4294967296 * le_value(b, off + 4, 4),
        be_value(b, off, 8) == 4294967296 * be_value(b, off, 4) + be_value(b, off + 4, 4),
{
    reveal_with_fuel(le_value, 9);
    reveal_with_fuel(be_value, 9);
}

/// A record of the communication ring.
#[derive(Debug, Clone, Copy, PartialEq, Eq, Structural)]
pub enum CommEv {
    Wake { waker: u32, wakee: u32 },
    Futex { uaddr: u64, tid: u32, op: u32 },
}

/// A record of the tuner event ring.
#[derive(Debug, Clone, Copy, PartialEq, Eq, Structural)]
pub struct TunerEvent {
    pub pid: u32,
    pub kind: u32,
    pub val_us: u64,
    pub ts_ns: u64,
}

/// What a communication record decodes to: tag `1` is a wake (16 bytes at
/// least), tag `2` a futex call (24 bytes at least), anything else nothing.
pub open spec fn comm_event_of(b: Seq<u8>, little: bool) -> Option<CommEv> {
    if b.len() < 8 {
        None
    } else if u32_at(b, 0, little) == 1 {
        if b.len() < 16 {
            None
        } else {
            Some(CommEv::Wake { waker: u32_at(b, 8, little), wakee: u32_at(b, 12, little) })
        }
    } else if u32_at(b, 0, little) == 2 {
        if b.len() < 24 {
            None
        } else {
            Some(CommEv::Futex { uaddr: u64_at(b, 8, little), tid: u32_at(b, 16, little), op: u32_at(b, 20, little) })
        }
    } else {
        None
    }
}

/// What a tuner record decodes to: `(pid, kind, val_us, ts_ns)` in 24 bytes.
pub open spec fn tuner_event_of(b: Seq<u8>, little: bool) -> Option<TunerEvent> {
    if b.len() < 24 {
        None
    } else {
        Some(
            TunerEvent {
                pid: u32_at(b, 0, little),
                kind: u32_at(b, 4, little),
                val_us: u64_at(b, 8, little),
                ts_ns: u64_at(b, 16, little),
            },
        )
    }
}

/// Decodes a communication record in the host's byte order.
pub fn parse_comm_event(data: &[u8]) -> (r: Option<CommEv>)
    ensures
        r == comm_event_of(data@, true) || r == comm_event_of(data@, false),
{
    parse_comm_event_in(data, host_is_little_endian())
}

/// Decodes a communication record in the given byte order.
pub fn parse_comm_event_in(data: &[u8], little: bool) -> (r: Option<CommEv>)
    ensures
        r == comm_event_of(data@, little),
{
    if data.len() < 8 {
        return None;
    }
    let typ = read_u32(data, 0, little);
    if typ == 1 {
        if data.len() < 16 {
            return None;
        }
        let waker = read_u32(data, 8, little);
        let wakee = read_u32(data, 12, little);
        Some(CommEv::Wake { waker, wakee })
    } else if typ == 2 {
        if data.len() < 24 {
            return None;
        }
        let uaddr = read_u64(data, 8, little);
        let tid = read_u32(data, 16, little);
        let op = read_u32(data, 20, little);
        Some(CommEv::Futex { uaddr, tid, op })
    } else {
        None
    }
}

/// Decodes a tuner record in the host's byte order.
pub fn parse_tuner_event(data: &[u8]) -> (r: Option<TunerEvent>)
    ensures
        r == tuner_event_of(data@, true) || r == tuner_event_of(data@, false),
{
    parse_tuner_event_in(data, host_is_little_endian())
}

/// Decodes a tuner record in the given byte order.
pub fn parse_tuner_event_in(data: &[u8], little: bool) -> (r: Option<TunerEvent>)
    ensures
        r == tuner_event_of(data@, little),
{
    if data.len() < 24 {
        return None;
    }
    let pid = read_u32(data, 0, little);
    let kind = read_u32(data, 4, little);
    let val_us = read_u64(data, 8, little);
    let ts_ns = read_u64(data, 16, little);
    Some(TunerEvent { pid, kind, val_us, ts_ns })
}

/// A page-fault record of the prefetch ring.
#[derive(Debug, Clone, Copy, PartialEq, Eq, Structural)]
pub struct PrefetchEvt {
    pub tgid: u32,
    pub pid: u32,
    pub ts_ns: u64,
    pub sb_dev: u64,
    pub ino: u64,
    pub pgoff: u64,
}

/// Size of a prefetch record: `u32 tgid, u32 pid, u64 ts_ns, u64 sb_dev, u64 ino, u64 pgoff`.
pub const PREFETCH_EVT_SIZE: usize = 40;

pub open spec fn prefetch_evt_of(b: Seq<u8>, little: bool) -> Option<PrefetchEvt> {
    if b.len() < PREFETCH_EVT_SIZE {
        None
    } else {
        Some(
            PrefetchEvt {
                tgid: u32_at(b, 0, little),
                pid: u32_at(b, 4, little),
                ts_ns: u64_at(b, 8, little),
                sb_dev: u64_at(b, 16, little),
                ino: u64_at(b, 24, little),
                pgoff: u64_at(b, 32, little),
            },
        )
    }
}

/// Decodes a prefetch record in the host's byte order.
pub fn parse_prefetch_evt(data: &[u8]) -> (r: Option<PrefetchEvt>)
    ensures
        r == prefetch_evt_of(data@, true) || r == prefetch_evt_of(data@, false),
{
    parse_prefetch_evt_in(data, host_is_little_endian())
}

/// Decodes a prefetch record in the given byte order.
pub fn parse_prefetch_evt_in(data: &[u8], little: bool) -> (r: Option<PrefetchEvt>)
    ensures
        r == prefetch_evt_of(data@, little),
{
    if data.len() < PREFETCH_EVT_SIZE {
        return None;
    }
    Some(
        PrefetchEvt {
            tgid: read_u32(data, 0, little),
            pid: read_u32(data, 4, little),
            ts_ns: read_u64(data, 8, little),
            sb_dev: read_u64(data, 16, little),
            ino: read_u64(data, 24, little),
            pgoff: read_u64(data, 32, little),
        },
    )
}

/// One CPU's shard of the aggregate counters: `u64 futex_us, u64 page_faults`.
#[derive(Debug, Clone, Copy, PartialEq, Eq, Structural, Default)]
pub struct Agg {
    pub futex_us: u64,
    pub page_faults: u64,
}

/// Size of one shard.
pub const AGG_SIZE: usize = 16;

/// A zeroed shard, written back to reset the counters.
pub fn zero_blob() -> (r: Vec<u8>)
    ensures
        r@.len() == AGG_SIZE,
        forall|i: int| 0 <= i < AGG_SIZE ==> #[trigger] r@[i] == 0,
{
    let mut v: Vec<u8> = Vec::new();
    let mut i: usize = 0;
    while i < AGG_SIZE
        invariant
            i <= AGG_SIZE,
            v@.len() == i,
            forall|j: int| 0 <= j < i ==> #[trigger] v@[j] == 0,
        decreases AGG_SIZE - i,
    {
        v.push(0);
        i += 1;
    }
    v
}

pub open spec fn sat_add(a: u64, b: u64) -> u64 {
    if a + b > u64::MAX { u64::MAX } else { (a + b) as u64 }
}

/// The sum of the shards' counters (saturating), shards shorter than a shard
/// counting nothing.
pub open spec fn agg_sum(shards: Seq<Seq<u8>>, little: bool) -> Agg
    decreases shards.len(),
{
    if shards.len() == 0 {
        Agg { futex_us: 0, page_faults: 0 }
    } else {
        let prev = agg_sum(shards.drop_last(), little);
        let b = shards.last();
        if b.len() < AGG_SIZE {
            prev
        } else {
            Agg { futex_us: sat_add(prev.futex_us, u64_at(b, 0, little)), page_faults: sat_add(prev.page_faults, u64_at(b, 8, little)) }
        }
    }
}

/// Sums the per-CPU shards of the aggregate map, read in the host's byte order.
pub fn sum_shards(shards: &Vec<Vec<u8>>) -> (r: Agg)
    ensures
        r == agg_sum(shards@.map_values(|v: Vec<u8>| v@), true) || r == agg_sum(
            shards@.map_values(|v: Vec<u8>| v@),
            false,
        ),
{
    sum_shards_in(shards, host_is_little_endian())
}

/// Sums the per-CPU shards of the aggregate map, read in the given byte order.
pub fn sum_shards_in(shards: &Vec<Vec<u8>>, little: bool) -> (r: Agg)
    ensures
        r == agg_sum(shards@.map_values(|v: Vec<u8>| v@), little),
{
    let ghost views = shards@.map_values(|v: Vec<u8>| v@);
    let mut acc = Agg { futex_us: 0, page_faults: 0 };
    let mut i: usize = 0;
    while i < shards.len()
        invariant
            i <= shards@.len(),
            views == shards@.map_values(|v: Vec<u8>| v@),
            acc == agg_sum(views.take(i as int), little),
        decreases shards@.len() - i,
    {
        let b = &shards[i];
        assert(views.take(i as int + 1).drop_last() =~= views.take(i as int));
        assert(views.take(i as int + 1).last() == b@);
        if b.len() >= AGG_SIZE {
            let f = read_u64(b.as_slice(), 0, little);
            let p = read_u64(b.as_slice(), 8, little);
            acc = Agg { futex_us: acc.futex_us.saturating_add(f), page_faults: acc.page_faults.saturating_add(p) };
        }
        i += 1;
    }
    assert(views.take(i as int) =~= views);
    acc
}

} // verus!
