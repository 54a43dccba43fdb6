//! The subscriber side of the session latency benchmark: the session and
//! message handlers, and the reading of one probe.
//!
//! A probe payload starts with the sequence number, 8 bytes little-endian,
//! and the publisher's send time in nanoseconds, 16 bytes little-endian.
use vstd::prelude::*;

verus! {

/// The session handler of the benchmark peer.
pub struct MySH;

/// The message handler of the benchmark peer.
pub struct MyMH;

impl MySH {
    pub fn new() -> (h: Self) {
        MySH
    }
}

impl MyMH {
    pub fn new() -> (h: Self) {
        MyMH
    }
}

/// What one probe says.
#[derive(Debug, Clone, Copy, PartialEq, Eq)]
pub struct Probe {
    /// The sequence number of the probe.
    pub seq: u64,
    /// When the publisher sent it, in nanoseconds since the epoch.
    pub sent_at: u128,
    /// The payload bytes that follow the header.
    pub remaining: usize,
}

/// The value of little-endian bytes.
pub open spec fn le_value(bytes: Seq<u8>) -> nat
    decreases bytes.len(),
{
    if bytes.len() == 0 {
        0
    } else {
        bytes[0] as nat + 256 * le_value(bytes.drop_first())
    }
}

/// `256` to the power `n`.
pub open spec fn pow256(n: nat) -> nat
    decreases n,
{
    if n == 0 {
        1
    } else {
        256 * pow256((n - 1) as nat)
    }
}

proof fn lemma_le_value_bound(bytes: Seq<u8>)
    ensures
        le_value(bytes) < pow256(bytes.len()),
    decreases bytes.len(),
{
    if bytes.len() > 0 {
        lemma_le_value_bound(bytes.drop_first());
        assert(pow256(bytes.len()) == 256 * pow256(bytes.drop_first().len()));
    }
}

/// The value of `bytes[start..start + n]`, read from the top byte down.
fn read_le(bytes: &[u8], start: usize, n: usize) -> (v: u128)
    requires
        n <= 16,
        start + n <= bytes@.len(),
    ensures
        v as nat == le_value(bytes@.subrange(start as int, start + n)),
{
    let mut acc: u128 = 0;
    let mut i: usize = n;
    proof {
        assert(bytes@.subrange(start + n, start + n) =~= Seq::<u8>::empty());
    }
    while i > 0
        invariant
            i <= n <= 16,
            start + n <= bytes.len(),
            acc as nat == le_value(bytes@.subrange(start + i, start + n)),
        decreases i,
    {
        let ghost tail = bytes@.subrange(start + i, start + n);
        let ghost longer = bytes@.subrange(start + i - 1, start + n);
        proof {
            assert(longer.drop_first() =~= tail);
            lemma_le_value_bound(longer);
            lemma_pow256_values();
            lemma_pow256_monotone(longer.len(), 16);
        }
        let b = bytes[start + i - 1];
        acc = acc * 256 + b as u128;
        i = i - 1;
    }
    acc
}

proof fn lemma_pow256_values()
    ensures
        pow256(8) == 0x1_0000_0000_0000_0000,
        pow256(16) == 0x1_0000_0000_0000_0000_0000_0000_0000_0000,
{
    reveal_with_fuel(pow256, 17);
}

proof fn lemma_pow256_monotone(a: nat, b: nat)
    requires
        a <= b,
    ensures
        pow256(a) <= pow256(b),
    decreases b,
{
    if a < b {
        lemma_pow256_monotone(a, (b - 1) as nat);
    }
}

/// Read the header of a probe payload: the sequence number, the send time,
/// and how many bytes remain after them.
pub fn read_probe(payload: &[u8]) -> (p: Probe)
    requires
        payload@.len() >= 24,
    ensures
        p.seq as nat == le_value(payload@.subrange(0, 8)),
        p.sent_at as nat == le_value(payload@.subrange(8, 24)),
        p.remaining == payload@.len() - 24,
{
    let seq_wide = read_le(payload, 0, 8);
    proof {
        lemma_le_value_bound(payload@.subrange(0, 8));
        lemma_pow256_values();
    }
    let sent_at = read_le(payload, 8, 16);
    Probe { seq: seq_wide as u64, sent_at, remaining: payload.len() - 24 }
}

/// The time a probe spent in flight, in nanoseconds, truncated to 64 bits as
/// the report prints it.
pub fn flight_time_nanos(now: u128, sent_at: u128) -> (t: u64)
    requires
        sent_at <= now,
    ensures
        t as int == (now - sent_at) % 0x1_0000_0000_0000_0000,
{
    let d = now - sent_at;
    (d % 0x1_0000_0000_0000_0000u128) as u64
}

} // verus!
