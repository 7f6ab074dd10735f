//! Decoding of 433 MHz remote-control bursts.
//!
//! A burst is a sequence of symbols, each a HIGH pulse and a LOW pulse. A
//! protocol gives its timing in multiples of a base period T:
//!
//! - sync: HIGH for `sync_high` T, LOW for `sync_low` T
//! - bit 0: HIGH for `zero_high` T, LOW for `zero_low` T
//! - bit 1: HIGH for `one_high` T, LOW for `one_low` T
//!
//! The decoder takes T from the length of the sync symbol and holds it to the
//! protocol's range. Protocols are tried in the order of the table.
use vstd::arithmetic::power2::pow2;
use vstd::prelude::*;

use crate::number::{decimal, hex, to_decimal, to_hex};
use crate::text::{join, join3, pad, padded, same};

verus! {

// ── Pulses ──────────────────────────────────────────────────────────────────

/// The level of the data pin.
#[derive(Debug, Clone, Copy, PartialEq, Eq, Structural)]
pub enum PinState {
    Low,
    High,
}

/// A level and how long it was held, in microseconds.
#[derive(Debug, Clone, Copy, PartialEq, Eq, Structural)]
pub struct Pulse {
    pub pin_state: PinState,
    pub ticks: u16,
}

/// Two pulses in a row.
#[derive(Debug, Clone, Copy, PartialEq, Eq, Structural)]
pub struct Symbol {
    pub level0: Pulse,
    pub level1: Pulse,
}

/// A decoded code with its protocol.
#[derive(Debug, Clone)]
pub struct RfCode {
    pub code: u64,
    pub bit_count: u8,
    pub protocol: &'static str,
}

// ── Protocol table ──────────────────────────────────────────────────────────

/// The longest that a symbol can take, in microseconds: two pulses of 65535.
pub const LONGEST_SYMBOL: u32 = 131070;

/// The timing of a protocol.
#[derive(Debug, Clone)]
pub struct Protocol {
    pub name: &'static str,
    pub sync_high: u32,
    pub sync_low: u32,
    pub zero_high: u32,
    pub zero_low: u32,
    pub one_high: u32,
    pub one_low: u32,
    pub bit_count: u8,
    pub t_min: u32,
    pub t_max: u32,
}

impl Protocol {
    /// With base period `t` the pulses of the bits can be worked out in 32 bits.
    pub open spec fn computes(self, t: int) -> bool {
        &&& t * 3 <= u32::MAX
        &&& t * self.one_high <= u32::MAX
        &&& t * self.one_low <= u32::MAX
        &&& t * self.zero_high <= u32::MAX
        &&& t * self.zero_low <= u32::MAX
    }

    /// The longest base period that a sync symbol can have.
    pub open spec fn longest(self) -> int {
        let t = (LONGEST_SYMBOL as int) / (self.sync_high + self.sync_low);
        if t <= self.t_max {
            t
        } else {
            self.t_max as int
        }
    }

    /// Every base period in the range that a sync symbol can have can be worked
    /// with in 32 bits.
    pub open spec fn wf(self) -> bool {
        &&& 0 < self.sync_high + self.sync_low <= u32::MAX
        &&& self.t_min <= self.longest() ==> self.computes(self.longest())
    }

    /// The symbols of a frame: the sync and the bits.
    pub open spec fn needed(self) -> int {
        1 + self.bit_count
    }
}

/// A protocol by its timing; `sync`, `zero` and `one` are pairs of HIGH and LOW.
pub open spec fn timing(
    name: &'static str,
    sync: (u32, u32),
    zero: (u32, u32),
    one: (u32, u32),
    bit_count: u8,
    t: (u32, u32),
) -> Protocol {
    Protocol {
        name,
        sync_high: sync.0,
        sync_low: sync.1,
        zero_high: zero.0,
        zero_low: zero.1,
        one_high: one.0,
        one_low: one.1,
        bit_count,
        t_min: t.0,
        t_max: t.1,
    }
}

/// The protocols, the most common and most distinctive first.
pub open spec fn table() -> Seq<Protocol> {
    seq![
        // 24 bits: sensors, motion detectors, remotes.
        timing("EV1527", (1, 31), (1, 3), (3, 1), 24, (80, 800)),
        // High-resolution variant: some smoke and gas sensors.
        timing("EV1527-HR", (1, 71), (4, 11), (9, 6), 24, (50, 400)),
        // Long-HIGH sync: standalone motion sensors.
        timing("HS2303", (36, 1), (1, 2), (2, 1), 24, (50, 500)),
        // Some branded door, window and motion sensors.
        timing("PT2262v2", (1, 10), (1, 2), (2, 1), 24, (200, 1200)),
        // Older alarm panels, key fobs.
        timing("SC2262", (1, 10), (1, 3), (3, 1), 24, (100, 700)),
        // Medium sync: Kerui and Sonoff-compatible sensors.
        timing("Kerui", (1, 23), (1, 2), (2, 1), 24, (150, 900)),
        // Short sync: some inexpensive security kits.
        timing("ShortSync", (1, 6), (1, 3), (3, 1), 24, (100, 800)),
        // 28 bits: Sonoff and eWeLink remotes.
        timing("HT6P20B", (10, 40), (1, 5), (3, 3), 28, (100, 900)),
        // 12 bits: gate and garage remotes.
        timing("NiceFLO", (1, 36), (1, 3), (3, 1), 12, (200, 900)),
        // 12 bits: keypads, simple remotes.
        timing("HT12E", (1, 36), (1, 2), (2, 1), 12, (100, 600)),
        // 12 bits: gate and barrier remotes.
        timing("CAME", (1, 18), (1, 3), (3, 1), 12, (200, 700)),
    ]
}

/// Every protocol of the table can be worked with, and has a code of at most 28 bits.
pub proof fn table_is_well_formed(k: int)
    requires
        0 <= k < table().len(),
    ensures
        table()[k].wf(),
        table()[k].computes(table()[k].t_max as int),
        0 < table()[k].bit_count <= 28,
        0 < table()[k].t_min <= table()[k].t_max,
{
    let p = table()[k];
    if p.t_min <= p.longest() {
        lemma_computes(p, p.longest(), p.t_max as int);
    }
}

fn with_timing(
    name: &'static str,
    sync: (u32, u32),
    zero: (u32, u32),
    one: (u32, u32),
    bit_count: u8,
    t: (u32, u32),
) -> (p: Protocol)
    ensures
        p == timing(name, sync, zero, one, bit_count, t),
{
    Protocol {
        name,
        sync_high: sync.0,
        sync_low: sync.1,
        zero_high: zero.0,
        zero_low: zero.1,
        one_high: one.0,
        one_low: one.1,
        bit_count,
        t_min: t.0,
        t_max: t.1,
    }
}

/// The table of protocols.
pub fn protocols() -> (v: Vec<Protocol>)
    ensures
        v@ == table(),
{
    let mut v: Vec<Protocol> = Vec::new();
    v.push(with_timing("EV1527", (1, 31), (1, 3), (3, 1), 24, (80, 800)));
    v.push(with_timing("EV1527-HR", (1, 71), (4, 11), (9, 6), 24, (50, 400)));
    v.push(with_timing("HS2303", (36, 1), (1, 2), (2, 1), 24, (50, 500)));
    v.push(with_timing("PT2262v2", (1, 10), (1, 2), (2, 1), 24, (200, 1200)));
    v.push(with_timing("SC2262", (1, 10), (1, 3), (3, 1), 24, (100, 700)));
    v.push(with_timing("Kerui", (1, 23), (1, 2), (2, 1), 24, (150, 900)));
    v.push(with_timing("ShortSync", (1, 6), (1, 3), (3, 1), 24, (100, 800)));
    v.push(with_timing("HT6P20B", (10, 40), (1, 5), (3, 3), 28, (100, 900)));
    v.push(with_timing("NiceFLO", (1, 36), (1, 3), (3, 1), 12, (200, 900)));
    v.push(with_timing("HT12E", (1, 36), (1, 2), (2, 1), 12, (100, 600)));
    v.push(with_timing("CAME", (1, 18), (1, 3), (3, 1), 12, (200, 700)));
    v
}

// ── Decoding ────────────────────────────────────────────────────────────────

/// `val` is within `tolerance` of `expected`.
pub open spec fn is_near(val: int, expected: int, tolerance: int) -> bool {
    expected - tolerance <= val <= expected + tolerance
}

pub open spec fn max(a: int, b: int) -> int {
    if a >= b {
        a
    } else {
        b
    }
}

/// The base period T that `sync` has as a sync symbol of `p`, where it is one.
pub open spec fn period_of(sync: Symbol, p: Protocol) -> Option<int> {
    let high = sync.level0.ticks as int;
    let low = sync.level1.ticks as int;
    let t = (high + low) / (p.sync_high + p.sync_low);
    let tolerance = max(2 * t, 100);
    if sync.level0.pin_state is High && sync.level1.pin_state is Low && p.t_min <= t <= p.t_max
        && is_near(high, t * p.sync_high, tolerance) && is_near(low, t * p.sync_low, tolerance) {
        Some(t)
    } else {
        None
    }
}

/// The bit that `sym` stands for in `p` with base period `t`.
pub open spec fn bit_of(sym: Symbol, t: int, p: Protocol) -> Option<nat> {
    let high = sym.level0.ticks as int;
    let low = sym.level1.ticks as int;
    let tolerance = max(t * 3 / 4, 80);
    if is_near(high, t * p.one_high, tolerance) && is_near(low, t * p.one_low, tolerance) {
        Some(1)
    } else if is_near(high, t * p.zero_high, tolerance) && is_near(low, t * p.zero_low, tolerance) {
        Some(0)
    } else {
        None
    }
}

/// The number that the `n` symbols from `offset` on stand for, the first bit
/// the most significant.
pub open spec fn bits_of(symbols: Seq<Symbol>, offset: int, n: nat, t: int, p: Protocol) -> Option<
    nat,
>
    decreases n,
{
    if n == 0 {
        Some(0)
    } else {
        match (
            bits_of(symbols, offset, (n - 1) as nat, t, p),
            bit_of(symbols[offset + n - 1], t, p),
        ) {
            (Some(v), Some(b)) => Some(2 * v + b),
            _ => None,
        }
    }
}

/// The code of the frame of `p` that begins at `start`, where there is one.
pub open spec fn frame_at(symbols: Seq<Symbol>, start: int, p: Protocol) -> Option<nat> {
    match period_of(symbols[start], p) {
        Some(t) => bits_of(symbols, start + 1, p.bit_count as nat, t, p),
        None => None,
    }
}

/// The code of the first frame of `p` at or after `start` that is followed by
/// at least one more symbol.
pub open spec fn first_frame(symbols: Seq<Symbol>, p: Protocol, start: int) -> Option<nat>
    decreases symbols.len() - start,
{
    if start < 0 || start + p.needed() >= symbols.len() {
        None
    } else {
        match frame_at(symbols, start, p) {
            Some(code) => Some(code),
            None => first_frame(symbols, p, start + 1),
        }
    }
}

/// The first protocol of the table from the `k`-th on that has a frame in
/// `symbols`, and the frame's code.
pub open spec fn decoded_from(symbols: Seq<Symbol>, k: int) -> Option<(int, nat)>
    decreases table().len() - k,
{
    if k < 0 || k >= table().len() {
        None
    } else {
        match first_frame(symbols, table()[k], 0) {
            Some(code) => Some((k, code)),
            None => decoded_from(symbols, k + 1),
        }
    }
}

/// The protocol and the code of a burst.
pub open spec fn decoded(symbols: Seq<Symbol>) -> Option<(int, nat)> {
    decoded_from(symbols, 0)
}

/// Whether `val` is within `tolerance` of `expected`.
pub fn near(val: u32, expected: u32, tolerance: u32) -> (r: bool)
    ensures
        r == is_near(val as int, expected as int, tolerance as int),
{
    if val >= expected {
        val - expected <= tolerance
    } else {
        expected - val <= tolerance
    }
}

fn at_least(a: u32, b: u32) -> (r: u32)
    ensures
        r == max(a as int, b as int),
{
    if a >= b {
        a
    } else {
        b
    }
}

fn times(t: u32, factor: u32) -> (r: u32)
    requires
        t * factor <= u32::MAX,
    ensures
        r == t * factor,
{
    assert(t * factor >= 0) by (nonlinear_arith);
    t * factor
}

/// A shorter base period can be worked with where a longer one can.
proof fn lemma_computes(p: Protocol, t: int, longer: int)
    requires
        0 <= t <= longer,
        p.computes(longer),
    ensures
        p.computes(t),
{
    assert(t * p.one_high <= longer * p.one_high && t * p.one_low <= longer * p.one_low && t
        * p.zero_high <= longer * p.zero_high && t * p.zero_low <= longer * p.zero_low)
        by (nonlinear_arith)
        requires
            t <= longer,
    ;
}

/// The base period of a sync symbol is no longer than the longest, and its parts
/// are no longer than the symbol.
proof fn lemma_period(p: Protocol, ticks: int, t: int)
    requires
        0 < p.sync_high + p.sync_low,
        0 <= ticks <= LONGEST_SYMBOL,
        t == ticks / (p.sync_high + p.sync_low),
    ensures
        0 <= t <= (LONGEST_SYMBOL as int) / (p.sync_high + p.sync_low),
        t <= LONGEST_SYMBOL,
        0 <= t * p.sync_high <= LONGEST_SYMBOL,
        0 <= t * p.sync_low <= LONGEST_SYMBOL,
{
    let units = p.sync_high + p.sync_low;
    assert(0 <= t <= (LONGEST_SYMBOL as int) / units && t * units <= ticks && t <= t * units) by (
        nonlinear_arith)
        requires
            units > 0,
            0 <= ticks <= LONGEST_SYMBOL,
            t == ticks / units,
    ;
    assert(t * p.sync_high + t * p.sync_low == t * units && t * p.sync_high >= 0 && t * p.sync_low
        >= 0) by (nonlinear_arith)
        requires
            units == p.sync_high + p.sync_low,
            t >= 0,
    ;
}

proof fn lemma_bits_small(symbols: Seq<Symbol>, offset: int, n: nat, t: int, p: Protocol)
    ensures
        bits_of(symbols, offset, n, t, p) matches Some(v) ==> v < pow2(n),
    decreases n,
{
    vstd::arithmetic::power2::lemma2_to64();
    if n > 0 {
        lemma_bits_small(symbols, offset, (n - 1) as nat, t, p);
        vstd::arithmetic::power2::lemma_pow2_unfold(n);
    }
}

/// A number of at most 64 bits is its own 64 lowest bits.
proof fn lemma_bits_fit(symbols: Seq<Symbol>, offset: int, n: nat, t: int, p: Protocol)
    ensures
        n <= 64 ==> (bits_of(symbols, offset, n, t, p) matches Some(v) ==> low_64(v) == v),
{
    lemma_bits_small(symbols, offset, n, t, p);
    vstd::arithmetic::power2::lemma2_to64_rest();
    if n < 64 {
        vstd::arithmetic::power2::lemma_pow2_strictly_increases(n, 64);
    }
}

/// A failure to read a bit is a failure to read any longer run of bits.
proof fn lemma_bits_fail(symbols: Seq<Symbol>, offset: int, i: nat, n: nat, t: int, p: Protocol)
    requires
        i <= n,
        bits_of(symbols, offset, i, t, p) is None,
    ensures
        bits_of(symbols, offset, n, t, p) is None,
    decreases n,
{
    if i < n {
        lemma_bits_fail(symbols, offset, i, (n - 1) as nat, t, p);
    }
}

/// The 64 lowest bits of a number.
pub open spec fn low_64(v: nat) -> nat {
    v % 0x1_0000_0000_0000_0000
}

/// Reads `num_bits` bits from `offset` on. Of more than 64 bits the last 64 are
/// kept.
pub fn decode_bits(
    symbols: &[Symbol],
    offset: usize,
    num_bits: usize,
    t: u32,
    proto: &Protocol,
) -> (r: Option<u64>)
    requires
        proto.computes(t as int),
    ensures
        offset + num_bits > symbols@.len() ==> r is None,
        offset + num_bits <= symbols@.len() ==> match (
            bits_of(symbols@, offset as int, num_bits as nat, t as int, *proto),
            r,
        ) {
            (Some(v), Some(code)) => code == low_64(v) && (num_bits <= 64 ==> code == v),
            (None, None) => true,
            _ => false,
        },
{
    let n = symbols.len();
    if offset > n || num_bits > n - offset {
        return None;
    }
    let tol = at_least(times(t, 3) / 4, 80);
    let mut code: u64 = 0;
    let mut i: usize = 0;
    while i < num_bits
        invariant
            i <= num_bits,
            offset + num_bits <= symbols@.len() == n,
            proto.computes(t as int),
            tol == max(t * 3 / 4, 80),
            bits_of(symbols@, offset as int, i as nat, t as int, *proto) matches Some(v) && code
                == low_64(v),
        decreases num_bits - i,
    {
        let sym = symbols[offset + i];
        let bh = sym.level0.ticks as u32;
        let bl = sym.level1.ticks as u32;
        let shifted: u64 = (code % 0x8000_0000_0000_0000) * 2;
        if near(bh, times(t, proto.one_high), tol) && near(bl, times(t, proto.one_low), tol) {
            code = shifted + 1;
        } else if near(bh, times(t, proto.zero_high), tol) && near(
            bl,
            times(t, proto.zero_low),
            tol,
        ) {
            code = shifted;
        } else {
            proof {
                assert(bits_of(symbols@, offset as int, (i + 1) as nat, t as int, *proto) is None);
                lemma_bits_fail(
                    symbols@,
                    offset as int,
                    (i + 1) as nat,
                    num_bits as nat,
                    t as int,
                    *proto,
                );
            }
            return None;
        }
        i = i + 1;
    }
    proof {
        lemma_bits_fit(symbols@, offset as int, num_bits as nat, t as int, *proto);
    }
    Some(code)
}

/// Looks for a frame of one protocol. Of a code of more than 64 bits the last 64
/// are kept.
pub fn try_protocol(symbols: &[Symbol], proto: &Protocol) -> (r: Option<RfCode>)
    requires
        proto.wf(),
    ensures
        match (first_frame(symbols@, *proto, 0), r) {
            (Some(v), Some(rc)) => {
                &&& rc.code == low_64(v)
                &&& proto.bit_count <= 64 ==> rc.code == v
                &&& rc.bit_count == proto.bit_count
                &&& rc.protocol == proto.name
            },
            (None, None) => true,
            _ => false,
        },
{
    let needed: usize = 1 + proto.bit_count as usize;
    let limit = symbols.len().saturating_sub(needed);
    let mut start: usize = 0;
    while start < limit
        invariant
            proto.wf(),
            needed == proto.needed(),
            limit <= symbols@.len(),
            limit == (if symbols@.len() >= needed {
                symbols@.len() - needed
            } else {
                0
            }),
            start <= limit,
            first_frame(symbols@, *proto, start as int) == first_frame(symbols@, *proto, 0),
        decreases limit - start,
    {
        let sync = symbols[start];
        let ht = sync.level0.ticks as u32;
        let lt = sync.level1.ticks as u32;
        let sync_units = proto.sync_high + proto.sync_low;
        let t = (ht + lt) / sync_units;
        proof {
            lemma_period(*proto, ht + lt, t as int);
        }
        if sync.level0.pin_state == PinState::High && sync.level1.pin_state == PinState::Low
            && proto.t_min <= t && t <= proto.t_max {
            proof {
                lemma_computes(*proto, t as int, proto.longest());
            }
            let sync_tol = at_least(times(t, 2), 100);
            if near(ht, times(t, proto.sync_high), sync_tol) && near(
                lt,
                times(t, proto.sync_low),
                sync_tol,
            ) {
                if let Some(code) = decode_bits(
                    symbols,
                    start + 1,
                    proto.bit_count as usize,
                    t,
                    proto,
                ) {
                    return Some(
                        RfCode { code, bit_count: proto.bit_count, protocol: proto.name },
                    );
                }
            }
        }
        start = start + 1;
    }
    None
}

/// Decodes a burst: the first protocol of the table that has a frame in it.
pub fn decode_rc(symbols: &[Symbol]) -> (r: Option<RfCode>)
    ensures
        match decoded(symbols@) {
            Some((k, code)) => r is Some && r->0.code == code && r->0.bit_count
                == table()[k].bit_count && r->0.protocol == table()[k].name,
            None => r is None,
        },
{
    let protos = protocols();
    let mut k: usize = 0;
    while k < protos.len()
        invariant
            protos@ == table(),
            k <= protos@.len(),
            decoded_from(symbols@, k as int) == decoded(symbols@),
        decreases protos@.len() - k,
    {
        proof {
            table_is_well_formed(k as int);
        }
        let found = try_protocol(symbols, &protos[k]);
        if found.is_some() {
            return found;
        }
        k = k + 1;
    }
    None
}

// ── Laws of the decoder ─────────────────────────────────────────────────────

/// A HIGH pulse and a LOW pulse of the given lengths.
pub open spec fn pulses(high: int, low: int) -> Symbol {
    Symbol {
        level0: Pulse { pin_state: PinState::High, ticks: high as u16 },
        level1: Pulse { pin_state: PinState::Low, ticks: low as u16 },
    }
}

/// The `i`-th bit of the `n` bits of `code`, the most significant first.
pub open spec fn bit_at(code: nat, n: nat, i: int) -> nat {
    (code / pow2((n - 1 - i) as nat)) % 2
}

/// What a transmitter of `p` with base period `t` sends for `code`.
pub open spec fn sent_frame(code: nat, t: int, p: Protocol) -> Seq<Symbol> {
    Seq::new(
        p.needed() as nat,
        |i: int|
            if i == 0 {
                pulses(t * p.sync_high, t * p.sync_low)
            } else if bit_at(code, p.bit_count as nat, i - 1) == 1 {
                pulses(t * p.one_high, t * p.one_low)
            } else {
                pulses(t * p.zero_high, t * p.zero_low)
            },
    )
}

/// With base period `t` a 0 of `p` is out of the tolerance of a 1.
pub open spec fn tells_bits_apart(p: Protocol, t: int) -> bool {
    let tolerance = max(t * 3 / 4, 80);
    !(is_near(t * p.zero_high, t * p.one_high, tolerance) && is_near(
        t * p.zero_low,
        t * p.one_low,
        tolerance,
    ))
}

/// Over its whole range of base periods each protocol tells its bits apart, but
/// for HS2303 with a base period of at most 80 microseconds.
pub proof fn table_tells_bits_apart(k: int, t: int)
    requires
        0 <= k < table().len(),
        table()[k].t_min <= t <= table()[k].t_max,
    ensures
        tells_bits_apart(table()[k], t) <==> !(k == 2 && t <= 80),
{
    let p = table()[k];
    assert(t * 1 == t && t * 2 == t + t && t * 3 == 3 * t && t * 4 == 4 * t && t * 5 == 5 * t && t
        * 6 == 6 * t && t * 9 == 9 * t && t * 11 == 11 * t);
}

proof fn lemma_sent_bits(symbols: Seq<Symbol>, code: nat, t: int, k: int, m: nat)
    requires
        0 <= k < table().len(),
        table()[k].t_min <= t <= table()[k].t_max,
        tells_bits_apart(table()[k], t),
        code < pow2(table()[k].bit_count as nat),
        symbols.len() > table()[k].needed(),
        symbols.take(table()[k].needed()) == sent_frame(code, t, table()[k]),
        m <= table()[k].bit_count,
    ensures
        bits_of(symbols, 1, m, t, table()[k]) == Some(
            code / pow2((table()[k].bit_count - m) as nat),
        ),
    decreases m,
{
    let p = table()[k];
    let n = p.bit_count as nat;
    vstd::arithmetic::power2::lemma_pow2_pos((n - m) as nat);
    if m == 0 {
        vstd::arithmetic::div_mod::lemma_basic_div(code as int, pow2(n) as int);
    } else {
        lemma_sent_bits(symbols, code, t, k, (m - 1) as nat);
        let low = pow2((n - m) as nat);
        vstd::arithmetic::power2::lemma_pow2_unfold((n - m + 1) as nat);
        assert(code / (2 * low) == (code / low) / 2) by {
            vstd::arithmetic::div_mod::lemma_div_denominator(code as int, low as int, 2);
            assert(low * 2 == 2 * low);
        }
        let sym = symbols[m as int];
        assert(sym == symbols.take(p.needed())[m as int]);
        assert(sym == sent_frame(code, t, p)[m as int]);
        let b = bit_at(code, n, m - 1);
        assert(b == (code / low) % 2);
        assert(t * 1 == t && t * 2 == t + t && t * 3 == 3 * t && t * 4 == 4 * t && t * 5 == 5 * t
            && t * 6 == 6 * t && t * 9 == 9 * t && t * 11 == 11 * t);
        assert(bit_of(sym, t, p) == Some(b));
        assert(symbols[1 + m - 1] == sym);
    }
}

/// What a transmitter sends is decoded: a burst that begins with the frame of
/// `code`, in any protocol of the table and with any base period of its range
/// that tells the bits apart, holds `code` for that protocol.
pub proof fn sent_frame_is_found(symbols: Seq<Symbol>, code: nat, t: int, k: int)
    requires
        0 <= k < table().len(),
        table()[k].t_min <= t <= table()[k].t_max,
        !(k == 2 && t <= 80),
        code < pow2(table()[k].bit_count as nat),
        symbols.len() > table()[k].needed(),
        symbols.take(table()[k].needed()) == sent_frame(code, t, table()[k]),
    ensures
        first_frame(symbols, table()[k], 0) == Some(code),
{
    let p = table()[k];
    let n = p.bit_count as nat;
    table_tells_bits_apart(k, t);
    lemma_sent_bits(symbols, code, t, k, n);
    vstd::arithmetic::power2::lemma2_to64();
    assert(symbols[0] == symbols.take(p.needed())[0]);
    assert(symbols[0] == sent_frame(code, t, p)[0]);
    let units = p.sync_high + p.sync_low;
    assert(t * p.sync_high + t * p.sync_low == t * units) by (nonlinear_arith)
        requires
            units == p.sync_high + p.sync_low,
    ;
    assert(0 <= t * p.sync_high <= 0xffff && 0 <= t * p.sync_low <= 0xffff) by {
        assert(t * 1 == t && t * 31 == 31 * t && t * 71 == 71 * t && t * 36 == 36 * t && t * 10
            == 10 * t && t * 23 == 23 * t && t * 6 == 6 * t && t * 40 == 40 * t && t * 18 == 18
            * t);
    }
    vstd::arithmetic::div_mod::lemma_div_multiples_vanish(t, units);
    assert(units * t == t * units) by (nonlinear_arith);
    assert(period_of(symbols[0], p) == Some(t));
    assert(code / 1 == code);
}

/// The frame of an EV1527 transmitter, the first protocol of the table, decodes
/// to the code that was sent.
pub proof fn ev1527_frame_decodes(symbols: Seq<Symbol>, code: nat, t: int)
    requires
        80 <= t <= 800,
        code < pow2(24),
        symbols.len() > 25,
        symbols.take(25) == sent_frame(code, t, table()[0]),
    ensures
        decoded(symbols) == Some((0int, code)),
{
    sent_frame_is_found(symbols, code, t, 0);
}

proof fn lemma_first_frame(symbols: Seq<Symbol>, p: Protocol, from: int, start: int)
    requires
        0 <= from <= start,
        start + p.needed() < symbols.len(),
        frame_at(symbols, start, p) is Some,
    ensures
        first_frame(symbols, p, from) is Some,
    decreases start - from,
{
    if from < start {
        lemma_first_frame(symbols, p, from + 1, start);
    }
}

proof fn lemma_decoded_from(symbols: Seq<Symbol>, from: int, k: int)
    requires
        0 <= from <= k < table().len(),
        first_frame(symbols, table()[k], 0) is Some,
    ensures
        decoded_from(symbols, from) is Some,
        (decoded_from(symbols, from)->0).0 <= k,
    decreases k - from,
{
    if from < k && first_frame(symbols, table()[from], 0) is None {
        lemma_decoded_from(symbols, from + 1, k);
    }
}

/// No frame is missed: a burst in which any protocol of the table has a frame
/// with one more symbol behind it is decoded, by that protocol or an earlier one.
pub proof fn frames_are_not_missed(symbols: Seq<Symbol>, k: int, start: int)
    requires
        0 <= k < table().len(),
        0 <= start,
        start + table()[k].needed() < symbols.len(),
        frame_at(symbols, start, table()[k]) is Some,
    ensures
        decoded(symbols) is Some,
        (decoded(symbols)->0).0 <= k,
{
    lemma_first_frame(symbols, table()[k], 0, start);
    lemma_decoded_from(symbols, 0, k);
}

proof fn lemma_frame_exists(symbols: Seq<Symbol>, p: Protocol, from: int)
    requires
        0 <= from,
        first_frame(symbols, p, from) is Some,
    ensures
        exists|start: int|
            from <= start && start + p.needed() < symbols.len() && #[trigger] frame_at(
                symbols,
                start,
                p,
            ) == first_frame(symbols, p, from),
    decreases symbols.len() - from,
{
    if frame_at(symbols, from, p) is None {
        lemma_frame_exists(symbols, p, from + 1);
    }
}

proof fn lemma_decoded_is_found(symbols: Seq<Symbol>, from: int)
    requires
        0 <= from,
        decoded_from(symbols, from) is Some,
    ensures
        ({
            let (k, code) = decoded_from(symbols, from)->0;
            from <= k < table().len() && first_frame(symbols, table()[k], 0) == Some(code)
        }),
    decreases table().len() - from,
{
    if first_frame(symbols, table()[from], 0) is None {
        lemma_decoded_is_found(symbols, from + 1);
    }
}

/// Nothing is made up: a decoded code stands in the burst as a frame of its
/// protocol, and fits the protocol's number of bits.
pub proof fn decoded_code_was_received(symbols: Seq<Symbol>)
    requires
        decoded(symbols) is Some,
    ensures
        ({
            let (k, code) = decoded(symbols)->0;
            &&& 0 <= k < table().len()
            &&& code < pow2(table()[k].bit_count as nat)
            &&& exists|start: int|
                0 <= start && start + table()[k].needed() < symbols.len() && #[trigger] frame_at(
                    symbols,
                    start,
                    table()[k],
                ) == Some(code)
        }),
{
    lemma_decoded_is_found(symbols, 0);
    let (k, code) = decoded(symbols)->0;
    let p = table()[k];
    lemma_frame_exists(symbols, p, 0);
    let start = choose|start: int|
        0 <= start && start + p.needed() < symbols.len() && #[trigger] frame_at(symbols, start, p)
            == first_frame(symbols, p, 0);
    let t = period_of(symbols[start], p)->0;
    lemma_bits_small(symbols, start + 1, p.bit_count as nat, t, p);
}

// ── Laws of the decoder, pulse by pulse ─────────────────────────────────────

/// The pulses of `sym` are `high` and `low` microseconds long, each to within
/// three quarters of `t` or 80 microseconds, whichever is more.
pub open spec fn about(sym: Symbol, high: int, low: int, t: int) -> bool {
    let slack = if 3 * t >= 320 {
        (3 * t) / 4
    } else {
        80
    };
    &&& high <= sym.level0.ticks + slack && sym.level0.ticks <= high + slack
    &&& low <= sym.level1.ticks + slack && sym.level1.ticks <= low + slack
}

/// The `n` symbols from `offset` on are about those of the bits of `code`, the most
/// significant first, with base period `t`; what is about a 1 is no 0.
pub open spec fn carries(
    symbols: Seq<Symbol>,
    offset: int,
    n: nat,
    t: int,
    p: Protocol,
    code: nat,
) -> bool {
    forall|i: int|
        0 <= i < n ==> {
            let sym = #[trigger] symbols[offset + i];
            if bit_at(code, n, i) == 1 {
                about(sym, t * p.one_high, t * p.one_low, t)
            } else {
                about(sym, t * p.zero_high, t * p.zero_low, t) && !about(
                    sym,
                    t * p.one_high,
                    t * p.one_low,
                    t,
                )
            }
        }
}

/// `sync` is a sync symbol of `p` with base period `t`: a HIGH and a LOW pulse that
/// together last `t` times the units of the sync, less than one more each, and each
/// within two periods or 100 microseconds, whichever is more, of its own length.
pub open spec fn opens(sync: Symbol, p: Protocol, t: int) -> bool {
    let high = sync.level0.ticks as int;
    let low = sync.level1.ticks as int;
    let units = p.sync_high + p.sync_low;
    let slack = if t >= 50 {
        t + t
    } else {
        100
    };
    &&& sync.level0.pin_state is High && sync.level1.pin_state is Low
    &&& p.t_min <= t <= p.t_max
    &&& t * units <= high + low < t * units + units
    &&& high <= t * p.sync_high + slack && t * p.sync_high <= high + slack
    &&& low <= t * p.sync_low + slack && t * p.sync_low <= low + slack
}

proof fn lemma_bit_of(sym: Symbol, t: int, p: Protocol)
    ensures
        bit_of(sym, t, p) == Some(1nat) <==> about(sym, t * p.one_high, t * p.one_low, t),
        bit_of(sym, t, p) == Some(0nat) <==> about(sym, t * p.zero_high, t * p.zero_low, t)
            && !about(sym, t * p.one_high, t * p.one_low, t),
        bit_of(sym, t, p) matches Some(b) ==> b <= 1,
{
    assert(t * 3 == 3 * t);
}

proof fn lemma_opens(sync: Symbol, p: Protocol, t: int)
    requires
        p.sync_high + p.sync_low > 0,
    ensures
        period_of(sync, p) == Some(t) <==> opens(sync, p, t),
{
    let ticks = sync.level0.ticks + sync.level1.ticks;
    let units = p.sync_high + p.sync_low;
    assert(ticks / units == t <==> t * units <= ticks < t * units + units) by (nonlinear_arith)
        requires
            units > 0,
    ;
}

proof fn lemma_bit_above(v: nat, n: nat, i: int)
    requires
        0 <= i < n - 1,
    ensures
        bit_at(v, n, i) == bit_at(v / 2, (n - 1) as nat, i),
{
    let low = pow2((n - 2 - i) as nat);
    vstd::arithmetic::power2::lemma_pow2_pos((n - 2 - i) as nat);
    vstd::arithmetic::power2::lemma_pow2_unfold((n - 1 - i) as nat);
    vstd::arithmetic::div_mod::lemma_div_denominator(v as int, 2, low as int);
    assert(v / (2 * low) == (v / 2) / low);
}

proof fn lemma_bit_last(v: nat, n: nat)
    requires
        n > 0,
    ensures
        bit_at(v, n, n - 1) == v % 2,
{
    vstd::arithmetic::power2::lemma2_to64();
    assert(v / 1 == v);
}

/// What jitters within the tolerance is read: symbols that are about those of the
/// bits of a code, in any protocol and with any base period, give that code.
pub proof fn jittering_bits_are_read(
    symbols: Seq<Symbol>,
    offset: int,
    n: nat,
    t: int,
    p: Protocol,
    code: nat,
)
    requires
        code < pow2(n),
        carries(symbols, offset, n, t, p, code),
    ensures
        bits_of(symbols, offset, n, t, p) == Some(code),
    decreases n,
{
    if n == 0 {
        vstd::arithmetic::power2::lemma2_to64();
    } else {
        let m = (n - 1) as nat;
        vstd::arithmetic::power2::lemma_pow2_unfold(n);
        assert forall|i: int| 0 <= i < m implies bit_at(code / 2, m, i) == #[trigger] bit_at(
            code,
            n,
            i,
        ) by {
            lemma_bit_above(code, n, i);
        }
        assert(carries(symbols, offset, m, t, p, code / 2)) by {
            assert forall|i: int| 0 <= i < m implies {
                let sym = #[trigger] symbols[offset + i];
                if bit_at(code / 2, m, i) == 1 {
                    about(sym, t * p.one_high, t * p.one_low, t)
                } else {
                    about(sym, t * p.zero_high, t * p.zero_low, t) && !about(
                        sym,
                        t * p.one_high,
                        t * p.one_low,
                        t,
                    )
                }
            } by {
                assert(bit_at(code / 2, m, i) == bit_at(code, n, i));
            }
        }
        jittering_bits_are_read(symbols, offset, m, t, p, code / 2);
        lemma_bit_last(code, n);
        lemma_bit_of(symbols[offset + m], t, p);
        assert(symbols[offset + n - 1] == symbols[offset + m]);
    }
}

/// What is read was received: the symbols that give a code are about those of its
/// bits.
pub proof fn read_bits_were_received(
    symbols: Seq<Symbol>,
    offset: int,
    n: nat,
    t: int,
    p: Protocol,
    code: nat,
)
    requires
        bits_of(symbols, offset, n, t, p) == Some(code),
    ensures
        code < pow2(n),
        carries(symbols, offset, n, t, p, code),
    decreases n,
{
    lemma_bits_small(symbols, offset, n, t, p);
    if n > 0 {
        let m = (n - 1) as nat;
        lemma_bit_of(symbols[offset + n - 1], t, p);
        let before = bits_of(symbols, offset, m, t, p)->0;
        let b = bit_of(symbols[offset + n - 1], t, p)->0;
        assert(code == 2 * before + b);
        assert(code / 2 == before && code % 2 == b);
        read_bits_were_received(symbols, offset, m, t, p, before);
        assert forall|i: int| 0 <= i < n implies {
            let sym = #[trigger] symbols[offset + i];
            if bit_at(code, n, i) == 1 {
                about(sym, t * p.one_high, t * p.one_low, t)
            } else {
                about(sym, t * p.zero_high, t * p.zero_low, t) && !about(
                    sym,
                    t * p.one_high,
                    t * p.one_low,
                    t,
                )
            }
        } by {
            if i < m {
                lemma_bit_above(code, n, i);
                assert(bit_at(before, m, i) == bit_at(code, n, i));
            } else {
                lemma_bit_last(code, n);
            }
        }
    }
}

/// Of a code of more than 64 bits the last 64 are kept, one bit behind the other.
pub proof fn the_last_64_bits_are_kept(v: nat, b: nat)
    requires
        b <= 1,
    ensures
        v < 0x1_0000_0000_0000_0000 ==> low_64(v) == v,
        low_64(2 * v + b) == 2 * (low_64(v) % 0x8000_0000_0000_0000) + b,
{
}

/// A frame with jitter is read where it stands: a sync symbol that gives the base
/// period, and behind it symbols about those of the bits of a code, are the frame of
/// that code, in each protocol of the table and with each base period of its range.
/// At the beginning of a burst it is the frame that the protocol finds, and with the
/// first protocol, EV1527, it is what the burst decodes to.
pub proof fn a_jittering_frame_is_decoded(
    symbols: Seq<Symbol>,
    start: int,
    k: int,
    t: int,
    code: nat,
)
    requires
        0 <= k < table().len(),
        0 <= start,
        start + 1 + table()[k].bit_count < symbols.len(),
        code < pow2(table()[k].bit_count as nat),
        opens(symbols[start], table()[k], t),
        carries(symbols, start + 1, table()[k].bit_count as nat, t, table()[k], code),
    ensures
        frame_at(symbols, start, table()[k]) == Some(code),
        start == 0 ==> first_frame(symbols, table()[k], 0) == Some(code),
        start == 0 && k == 0 ==> decoded(symbols) == Some((0int, code)),
        decoded(symbols) is Some,
        (decoded(symbols)->0).0 <= k,
{
    let p = table()[k];
    table_is_well_formed(k);
    lemma_opens(symbols[start], p, t);
    jittering_bits_are_read(symbols, start + 1, p.bit_count as nat, t, p, code);
    frames_are_not_missed(symbols, k, start);
}

/// A decoded code was sent: the burst holds a sync symbol of its protocol, behind it
/// symbols about those of the bits of the code, and behind these another symbol.
pub proof fn a_decoded_code_was_sent(symbols: Seq<Symbol>)
    requires
        decoded(symbols) is Some,
    ensures
        ({
            let (k, code) = decoded(symbols)->0;
            let p = table()[k];
            &&& 0 <= k < table().len()
            &&& exists|start: int, t: int|
                0 <= start && start + 1 + p.bit_count < symbols.len() && #[trigger] opens(
                    symbols[start],
                    p,
                    t,
                ) && carries(symbols, start + 1, p.bit_count as nat, t, p, code)
        }),
{
    decoded_code_was_received(symbols);
    let (k, code) = decoded(symbols)->0;
    let p = table()[k];
    let start = choose|start: int|
        0 <= start && start + p.needed() < symbols.len() && #[trigger] frame_at(symbols, start, p)
            == Some(code);
    let t = period_of(symbols[start], p)->0;
    table_is_well_formed(k);
    lemma_opens(symbols[start], p, t);
    read_bits_were_received(symbols, start + 1, p.bit_count as nat, t, p, code);
}

proof fn lemma_first_is_first(symbols: Seq<Symbol>, p: Protocol, from: int, start: int)
    requires
        0 <= from <= start,
        start + p.needed() < symbols.len(),
        frame_at(symbols, start, p) is Some,
        forall|s: int| from <= s < start ==> #[trigger] frame_at(symbols, s, p) is None,
    ensures
        first_frame(symbols, p, from) == frame_at(symbols, start, p),
    decreases start - from,
{
    if from < start {
        assert(frame_at(symbols, from, p) is None);
        lemma_first_is_first(symbols, p, from + 1, start);
    }
}

/// The first frame of a burst counts: noise before it, that is symbols that open no
/// frame of the protocol, does not matter.
pub proof fn noise_before_a_frame_is_skipped(
    symbols: Seq<Symbol>,
    start: int,
    k: int,
    t: int,
    code: nat,
)
    requires
        0 <= k < table().len(),
        0 <= start,
        start + 1 + table()[k].bit_count < symbols.len(),
        code < pow2(table()[k].bit_count as nat),
        opens(symbols[start], table()[k], t),
        carries(symbols, start + 1, table()[k].bit_count as nat, t, table()[k], code),
        forall|s: int, u: int| 0 <= s < start ==> !#[trigger] opens(symbols[s], table()[k], u),
    ensures
        first_frame(symbols, table()[k], 0) == Some(code),
{
    let p = table()[k];
    a_jittering_frame_is_decoded(symbols, start, k, t, code);
    table_is_well_formed(k);
    assert forall|s: int| 0 <= s < start implies #[trigger] frame_at(symbols, s, p) is None by {
        if let Some(u) = period_of(symbols[s], p) {
            lemma_opens(symbols[s], p, u);
        }
    }
    lemma_first_is_first(symbols, p, 0, start);
}

/// The timing that a transmitter of each protocol sends with, in base periods.
pub proof fn the_protocols_are_these(k: int)
    requires
        0 <= k < table().len(),
    ensures
        table().len() == 11,
        ({
            let p = table()[k];
            let sync = (p.sync_high as int, p.sync_low as int);
            let range = (p.t_min as int, p.t_max as int);
            &&& p.bit_count == (if k == 7 {
                28int
            } else if k >= 8 {
                12
            } else {
                24
            })
            &&& sync == (if k == 0 {
                (1int, 31int)
            } else if k == 1 {
                (1, 71)
            } else if k == 2 {
                (36, 1)
            } else if k == 3 || k == 4 {
                (1, 10)
            } else if k == 5 {
                (1, 23)
            } else if k == 6 {
                (1, 6)
            } else if k == 7 {
                (10, 40)
            } else if k == 10 {
                (1, 18)
            } else {
                (1, 36)
            })
            &&& range == (if k == 0 {
                (80int, 800int)
            } else if k == 1 {
                (50, 400)
            } else if k == 2 {
                (50, 500)
            } else if k == 3 {
                (200, 1200)
            } else if k == 4 {
                (100, 700)
            } else if k == 5 {
                (150, 900)
            } else if k == 6 {
                (100, 800)
            } else if k == 7 {
                (100, 900)
            } else if k == 8 {
                (200, 900)
            } else if k == 9 {
                (100, 600)
            } else {
                (200, 700)
            })
            &&& k != 1 && k != 7 ==> p.zero_high == p.one_low && p.zero_low == p.one_high
                && p.zero_high == 1 && p.zero_low == (if k == 2 || k == 3 || k == 5 || k == 9 {
                2int
            } else {
                3
            })
            &&& k == 1 ==> p.zero_high == 4 && p.zero_low == 11 && p.one_high == 9 && p.one_low
                == 6
            &&& k == 7 ==> p.zero_high == 1 && p.zero_low == 5 && p.one_high == 3 && p.one_low == 3
        }),
{
}

// ── Listening ───────────────────────────────────────────────────────────────

/// A burst of fewer symbols holds no frame.
pub const MIN_SYMBOLS: usize = 13;

/// How long the same code counts as the same press, in nanoseconds.
pub const REPEAT_WINDOW_NS: u64 = 400_000_000;

/// The pause after a receive error, in milliseconds.
pub const ERROR_PAUSE_MS: u64 = 100;

/// What the receive call came back with.
pub enum RxEvent {
    /// A burst, which may be empty.
    Burst(Vec<Symbol>),
    /// Nothing came in time.
    Timeout,
    /// The call failed.
    Failed,
}

/// What is to be done about it.
pub enum RxAction {
    /// A new press: pass the code on and log the line.
    Report(RfCode, String),
    /// The code of the press before, again.
    Repeat,
    /// A burst that no protocol knows.
    Unknown(Vec<Symbol>),
    /// A burst too short to hold a frame.
    ShortBurst(usize),
    /// Nothing.
    Idle,
    /// Wait for `ERROR_PAUSE_MS` before the next call.
    Pause,
}

/// The line that reports a code.
pub open spec fn report_line(code: nat, bit_count: nat, protocol: Seq<char>) -> Seq<char> {
    "RF ["@ + protocol + "] code=0x"@ + padded(hex(code), (bit_count + 3) / 4, '0') + " (dec="@
        + decimal(code) + ", "@ + decimal(bit_count) + "bit)"@
}

/// The line that reports a code.
pub fn describe(rc: &RfCode) -> (r: String)
    ensures
        r@ == report_line(rc.code as nat, rc.bit_count as nat, rc.protocol@),
{
    let digits = pad(to_hex(rc.code).as_str(), ((rc.bit_count as usize) + 3) / 4, '0');
    let mut r = "RF [".to_owned();
    r.append(rc.protocol);
    r.append("] code=0x");
    r.append(digits.as_str());
    r.append(" (dec=");
    r.append(to_decimal(rc.code).as_str());
    r.append(", ");
    r.append(to_decimal(rc.bit_count as u64).as_str());
    r.append("bit)");
    r
}

/// The line for one symbol of an unknown burst.
pub open spec fn symbol_line(i: nat, s: Symbol) -> Seq<char> {
    "\n  ["@ + padded(decimal(i), 3, ' ') + "] H:"@ + padded(
        decimal(s.level0.ticks as nat),
        5,
        ' ',
    ) + "us L:"@ + padded(decimal(s.level1.ticks as nat), 5, ' ') + "us"@
}

/// The lines for the first `n` symbols of an unknown burst.
pub open spec fn symbol_lines(symbols: Seq<Symbol>, n: nat) -> Seq<char>
    decreases n,
{
    if n == 0 {
        Seq::empty()
    } else {
        symbol_lines(symbols, (n - 1) as nat) + symbol_line((n - 1) as nat, symbols[n - 1])
    }
}

/// The dump of an unknown burst, for the debug log.
pub fn dump_symbols(symbols: &[Symbol]) -> (r: String)
    ensures
        r@ == "RF raw symbols ("@ + decimal(symbols@.len()) + " total):"@ + symbol_lines(
            symbols@,
            symbols@.len(),
        ),
{
    let mut lines = String::new();
    let mut i: usize = 0;
    while i < symbols.len()
        invariant
            i <= symbols@.len(),
            lines@ == symbol_lines(symbols@, i as nat),
        decreases symbols@.len() - i,
    {
        let mut line = join3("\n  [", pad(to_decimal(i as u64).as_str(), 3, ' ').as_str(), "] H:");
        line.append(pad(to_decimal(symbols[i].level0.ticks as u64).as_str(), 5, ' ').as_str());
        line.append("us L:");
        line.append(pad(to_decimal(symbols[i].level1.ticks as u64).as_str(), 5, ' ').as_str());
        line.append("us");
        lines.append(line.as_str());
        i = i + 1;
    }
    let head = join3("RF raw symbols (", to_decimal(symbols.len() as u64).as_str(), " total):");
    join(head.as_str(), lines.as_str())
}

impl RxEvent {
    /// The symbols that came: none but in a burst.
    pub open spec fn symbols(self) -> Seq<Symbol> {
        match self {
            RxEvent::Burst(symbols) => symbols@,
            _ => Seq::empty(),
        }
    }
}

/// The protocol and the code of the frame that symbols are recognised as; those
/// of a burst that is too short are not looked at.
pub open spec fn recognised(symbols: Seq<Symbol>) -> Option<(int, nat)> {
    if symbols.len() >= MIN_SYMBOLS {
        decoded(symbols)
    } else {
        None
    }
}

/// A code as it is reported, with its protocol and when it was heard, in
/// nanoseconds.
pub ghost struct Report {
    pub code: nat,
    pub protocol: Seq<char>,
    pub now: u64,
}

/// What came at a time.
pub ghost struct Reception {
    pub symbols: Seq<Symbol>,
    pub now: u64,
}

impl Reception {
    /// What there is to report of it.
    pub open spec fn heard(self) -> Option<Report> {
        match recognised(self.symbols) {
            Some((k, code)) => Some(Report { code, protocol: table()[k].name@, now: self.now }),
            None => None,
        }
    }
}

/// Two reports of the same code and protocol.
pub open spec fn same_code(a: Report, b: Report) -> bool {
    a.code == b.code && a.protocol == b.protocol
}

/// The listener's memory: the code that it reported last, and when.
pub struct Listener {
    prev_code: u64,
    prev_proto: &'static str,
    prev_time: u64,
}

impl View for Listener {
    type V = Report;

    /// The last report; before the first one the code is 0, the protocol is
    /// empty, and the time is that of the start.
    closed spec fn view(&self) -> Report {
        Report { code: self.prev_code as nat, protocol: self.prev_proto@, now: self.prev_time }
    }
}

impl Report {
    /// What was heard comes from the press that was reported last.
    pub open spec fn repeated_by(self, heard: Report) -> bool {
        same_code(self, heard) && heard.now - self.now < REPEAT_WINDOW_NS
    }

    /// The last report after something, or nothing, was heard.
    pub open spec fn after(self, heard: Option<Report>) -> Report {
        match heard {
            Some(h) if !self.repeated_by(h) => h,
            _ => self,
        }
    }

    /// The last report after all that was heard.
    pub open spec fn after_all(self, hs: Seq<Option<Report>>) -> Report
        decreases hs.len(),
    {
        if hs.len() == 0 {
            self
        } else {
            self.after_all(hs.drop_last()).after(hs.last())
        }
    }

    /// The reports that all that was heard leads to.
    pub open spec fn reports(self, hs: Seq<Option<Report>>) -> Seq<Report>
        decreases hs.len(),
    {
        if hs.len() == 0 {
            Seq::empty()
        } else {
            let before = self.reports(hs.drop_last());
            match hs.last() {
                Some(h) if !self.after_all(hs.drop_last()).repeated_by(h) => before.push(h),
                _ => before,
            }
        }
    }
}

/// What was heard in a series of receptions.
pub open spec fn all_heard(rs: Seq<Reception>) -> Seq<Option<Report>> {
    rs.map_values(|r: Reception| r.heard())
}

impl Listener {
    /// A listener that starts at `now`, in nanoseconds of a clock that never goes back.
    pub fn new(now: u64) -> (l: Self)
        ensures
            l@ == (Report { code: 0, protocol: Seq::empty(), now }),
    {
        proof {
            reveal_strlit("");
            assert(""@ =~= Seq::<char>::empty());
        }
        Listener { prev_code: 0, prev_proto: "", prev_time: now }
    }

    /// Takes what the receive call came back with, at time `now`.
    pub fn step(&mut self, event: RxEvent, now: u64) -> (action: RxAction)
        ensures
            final(self)@ == old(self)@.after(
                (Reception { symbols: event.symbols(), now }).heard(),
            ),
            match event {
                RxEvent::Burst(symbols) => match recognised(symbols@) {
                    Some((k, code)) => if old(self)@.repeated_by(
                        Report { code, protocol: table()[k].name@, now },
                    ) {
                        action is Repeat
                    } else {
                        action matches RxAction::Report(rc, line) && rc.code == code && rc.bit_count
                            == table()[k].bit_count && rc.protocol == table()[k].name && line@
                            == report_line(
                            code,
                            table()[k].bit_count as nat,
                            table()[k].name@,
                        )
                    },
                    None => action == (if symbols@.len() >= MIN_SYMBOLS {
                        RxAction::Unknown(symbols)
                    } else if symbols@.len() > 0 {
                        RxAction::ShortBurst(symbols@.len() as usize)
                    } else {
                        RxAction::Idle
                    }),
                },
                RxEvent::Timeout => action is Idle,
                RxEvent::Failed => action is Pause,
            },
    {
        match event {
            RxEvent::Burst(symbols) => {
                let n = symbols.len();
                if n >= MIN_SYMBOLS {
                    match decode_rc(symbols.as_slice()) {
                        Some(rc) => {
                            let is_repeat = rc.code == self.prev_code && same(
                                rc.protocol,
                                self.prev_proto,
                            ) && now.saturating_sub(self.prev_time) < REPEAT_WINDOW_NS;
                            if is_repeat {
                                RxAction::Repeat
                            } else {
                                self.prev_code = rc.code;
                                self.prev_proto = rc.protocol;
                                self.prev_time = now;
                                let line = describe(&rc);
                                RxAction::Report(rc, line)
                            }
                        },
                        None => RxAction::Unknown(symbols),
                    }
                } else if n > 0 {
                    RxAction::ShortBurst(n)
                } else {
                    RxAction::Idle
                }
            },
            RxEvent::Timeout => RxAction::Idle,
            RxEvent::Failed => RxAction::Pause,
        }
    }
}

// ── Laws of the listener ────────────────────────────────────────────────────

proof fn lemma_names()
    ensures
        forall|k: int| 0 <= k < table().len() ==> (#[trigger] table()[k]).name@.len() > 0,
{
    reveal_strlit("EV1527");
    reveal_strlit("EV1527-HR");
    reveal_strlit("HS2303");
    reveal_strlit("PT2262v2");
    reveal_strlit("SC2262");
    reveal_strlit("Kerui");
    reveal_strlit("ShortSync");
    reveal_strlit("HT6P20B");
    reveal_strlit("NiceFLO");
    reveal_strlit("HT12E");
    reveal_strlit("CAME");
}

/// What the listener remembers is its last report, or its start before the first;
/// and a report is of something that was heard.
proof fn lemma_last_report(start: Report, hs: Seq<Option<Report>>)
    ensures
        start.after_all(hs) == (if start.reports(hs).len() > 0 {
            start.reports(hs).last()
        } else {
            start
        }),
        start.reports(hs).len() > 0 ==> hs.contains(Some(start.reports(hs).last())),
    decreases hs.len(),
{
    if hs.len() > 0 {
        let init = hs.drop_last();
        lemma_last_report(start, init);
        let told = start.reports(hs);
        if told.len() > 0 {
            if told.len() > start.reports(init).len() {
                assert(hs[hs.len() - 1] == Some(told.last()));
            } else {
                let m = choose|m: int| 0 <= m < init.len() && init[m] == Some(told.last());
                assert(hs[m] == Some(told.last()));
            }
        }
    }
}

/// What was heard has a protocol, and comes in the order of time.
spec fn in_order(hs: Seq<Option<Report>>) -> bool {
    &&& forall|i: int|
        0 <= i < hs.len() ==> (#[trigger] hs[i] matches Some(h) ==> h.protocol.len() > 0)
    &&& forall|i: int, j: int|
        0 <= i <= j < hs.len() && (#[trigger] hs[i]) is Some && (#[trigger] hs[j]) is Some
            ==> hs[i]->0.now <= hs[j]->0.now
}

/// There is a report of what was heard, and it is less than 400 ms old.
pub open spec fn is_reported(told: Seq<Report>, h: Report) -> bool {
    exists|j: int|
        0 <= j < told.len() && same_code(#[trigger] told[j], h) && 0 <= h.now - told[j].now
            < REPEAT_WINDOW_NS
}

/// Two reports in a row of the same code and protocol are at least 400 ms apart.
pub open spec fn are_apart(told: Seq<Report>) -> bool {
    forall|i: int, j: int|
        0 <= i && j == i + 1 && j < told.len() && same_code(#[trigger] told[i], #[trigger] told[j])
            ==> told[j].now - told[i].now >= REPEAT_WINDOW_NS
}

proof fn lemma_reported(start: Report, hs: Seq<Option<Report>>)
    requires
        start.protocol.len() == 0,
        in_order(hs),
    ensures
        forall|i: int|
            0 <= i < hs.len() && (#[trigger] hs[i]) is Some ==> is_reported(
                start.reports(hs),
                hs[i]->0,
            ),
        are_apart(start.reports(hs)),
    decreases hs.len(),
{
    if hs.len() > 0 {
        let init = hs.drop_last();
        assert(forall|i: int| 0 <= i < init.len() ==> init[i] == hs[i]);
        lemma_reported(start, init);
        lemma_last_report(start, init);
        let before = start.reports(init);
        let told = start.reports(hs);
        let last = hs.len() - 1;
        assert(forall|j: int| 0 <= j < before.len() ==> told[j] == before[j]);
        assert forall|i: int| 0 <= i < hs.len() && (#[trigger] hs[i]) is Some implies is_reported(
            told,
            hs[i]->0,
        ) by {
            let h = hs[i]->0;
            if i < last {
                assert(init[i] == hs[i]);
                let j = choose|j: int|
                    0 <= j < before.len() && same_code(#[trigger] before[j], h) && 0 <= h.now
                        - before[j].now < REPEAT_WINDOW_NS;
                assert(told[j] == before[j]);
            } else if start.after_all(init).repeated_by(h) {
                let j = before.len() - 1;
                assert(told[j] == before[j]);
                let m = choose|m: int| 0 <= m < init.len() && init[m] == Some(before[j]);
                assert(hs[m] == Some(before[j]));
            } else {
                assert(told[told.len() - 1] == h);
            }
        }
        assert forall|i: int, j: int|
            0 <= i && j == i + 1 && j < told.len() && same_code(
                #[trigger] told[i],
                #[trigger] told[j],
            ) implies told[j].now - told[i].now >= REPEAT_WINDOW_NS by {
            if j < before.len() {
                assert(told[i] == before[i] && told[j] == before[j]);
            } else {
                assert(told[i] == before.last());
            }
        }
    }
}

proof fn lemma_heard(r: Reception)
    ensures
        r.heard() matches Some(h) ==> h.protocol.len() > 0 && h.now == r.now,
{
    if recognised(r.symbols) is Some {
        lemma_decoded_is_found(r.symbols, 0);
        lemma_names();
    }
}

/// A press is reported, and reported once. From its start on, whatever a
/// listener receives: to every frame that is recognised there is a report of its
/// code and protocol that is less than 400 ms old, and two reports in a row of
/// the same code and protocol are at least 400 ms apart.
pub proof fn a_press_is_reported_once(start: Report, rs: Seq<Reception>)
    requires
        start.protocol.len() == 0,
        forall|i: int, j: int|
            0 <= i <= j < rs.len() ==> (#[trigger] rs[i]).now <= (#[trigger] rs[j]).now,
    ensures
        forall|i: int|
            0 <= i < rs.len() && (#[trigger] rs[i]).heard() is Some ==> is_reported(
                start.reports(all_heard(rs)),
                rs[i].heard()->0,
            ),
        are_apart(start.reports(all_heard(rs))),
{
    let hs = all_heard(rs);
    assert forall|i: int| 0 <= i < hs.len() implies (#[trigger] hs[i] matches Some(h)
        ==> h.protocol.len() > 0 && h.now == rs[i].now) by {
        lemma_heard(rs[i]);
    }
    lemma_reported(start, hs);
    assert forall|i: int| 0 <= i < rs.len() && (#[trigger] rs[i]).heard() is Some implies is_reported(
        start.reports(hs),
        rs[i].heard()->0,
    ) by {
        assert(hs[i] == rs[i].heard());
    }
}

/// A press is reported once, whatever else is heard: to every frame that is heard
/// there is a report with its code and its protocol that came less than 400 ms
/// before; two reports in a row with the same code and the same protocol are 400 ms
/// or more apart; and each report is of a frame that was heard.
pub proof fn reports_follow_what_is_heard(start: Report, rs: Seq<Reception>)
    requires
        start.protocol.len() == 0,
        forall|i: int, j: int|
            0 <= i <= j < rs.len() ==> (#[trigger] rs[i]).now <= (#[trigger] rs[j]).now,
    ensures
        ({
            let told = start.reports(all_heard(rs));
            &&& forall|i: int|
                0 <= i < rs.len() && (#[trigger] rs[i]).heard() is Some ==> exists|j: int|
                    0 <= j < told.len() && (#[trigger] told[j]).code == rs[i].heard()->0.code
                        && told[j].protocol == rs[i].heard()->0.protocol && told[j].now
                        <= rs[i].now < told[j].now + 400_000_000
            &&& forall|j: int|
                0 < j < told.len() && (#[trigger] told[j]).code == told[j - 1].code
                    && told[j].protocol == told[j - 1].protocol ==> told[j].now >= told[j - 1].now
                    + 400_000_000
            &&& forall|j: int|
                0 <= j < told.len() ==> exists|i: int|
                    0 <= i < rs.len() && (#[trigger] rs[i]).heard() == Some(#[trigger] told[j])
        }),
{
    a_press_is_reported_once(start, rs);
    let hs = all_heard(rs);
    let told = start.reports(hs);
    assert forall|i: int| 0 <= i < rs.len() && (#[trigger] rs[i]).heard() is Some implies exists|
        j: int,
    |
        0 <= j < told.len() && (#[trigger] told[j]).code == rs[i].heard()->0.code
            && told[j].protocol == rs[i].heard()->0.protocol && told[j].now <= rs[i].now
            < told[j].now + 400_000_000 by {
        lemma_heard(rs[i]);
        let h = rs[i].heard()->0;
        assert(is_reported(told, h));
        let j = choose|j: int|
            0 <= j < told.len() && same_code(#[trigger] told[j], h) && 0 <= h.now - told[j].now
                < REPEAT_WINDOW_NS;
        assert(told[j].code == h.code);
    }
    assert forall|j: int|
        0 < j < told.len() && (#[trigger] told[j]).code == told[j - 1].code && told[j].protocol
            == told[j - 1].protocol implies told[j].now >= told[j - 1].now + 400_000_000 by {
        assert(same_code(told[j - 1], told[j]));
    }
    assert forall|j: int| 0 <= j < told.len() implies exists|i: int|
        0 <= i < rs.len() && (#[trigger] rs[i]).heard() == Some(#[trigger] told[j]) by {
        lemma_told_was_heard(start, hs, j);
        let i = choose|i: int| 0 <= i < hs.len() && hs[i] == Some(told[j]);
        assert(rs[i].heard() == Some(told[j]));
    }
}

proof fn lemma_told_was_heard(start: Report, hs: Seq<Option<Report>>, j: int)
    requires
        0 <= j < start.reports(hs).len(),
    ensures
        hs.contains(Some(start.reports(hs)[j])),
    decreases hs.len(),
{
    if hs.len() > 0 {
        let init = hs.drop_last();
        let before = start.reports(init);
        if j < before.len() {
            lemma_told_was_heard(start, init, j);
            let i = choose|i: int| 0 <= i < init.len() && init[i] == Some(before[j]);
            assert(hs[i] == Some(before[j]));
        } else {
            assert(hs[hs.len() - 1] == Some(start.reports(hs)[j]));
        }
    }
}

/// What is heard of a reception is what its symbols decode to: the code, the name of
/// its protocol and the time. Twelve symbols or fewer hold no frame.
pub proof fn what_is_heard_was_decoded(r: Reception)
    ensures
        r.symbols.len() <= 12 ==> r.heard() is None,
        r.symbols.len() > 12 ==> (r.heard() is Some <==> decoded(r.symbols) is Some),
        r.symbols.len() <= 12 ==> decoded(r.symbols) is None,
        r.heard() matches Some(h) ==> {
            &&& h.now == r.now
            &&& h.code == (decoded(r.symbols)->0).1
            &&& h.protocol == table()[(decoded(r.symbols)->0).0].name@
        },
{
    if r.symbols.len() <= 12 && decoded(r.symbols) is Some {
        decoded_code_was_received(r.symbols);
        let (k, code) = decoded(r.symbols)->0;
        the_protocols_are_these(k);
    }
}

proof fn lemma_zeros_add_nothing(s: Seq<char>, n: nat)
    ensures
        crate::number::value(crate::text::repeated('0', n) + s, 16) == crate::number::value(s, 16),
    decreases s.len() + n,
{
    let z = crate::text::repeated('0', n);
    if s.len() > 0 {
        assert((z + s).drop_last() =~= z + s.drop_last());
        lemma_zeros_add_nothing(s.drop_last(), n);
    } else if n > 0 {
        let shorter = crate::text::repeated('0', (n - 1) as nat);
        assert((z + s).drop_last() =~= shorter + s);
        assert((z + s).last() == '0');
        lemma_zeros_add_nothing(s, (n - 1) as nat);
    } else {
        assert(z + s =~= s);
    }
}

/// The line that reports a code names its protocol, the code in hexadecimal digits,
/// one for each four bits or part of four, the code in decimal, and its bits.
pub proof fn a_report_shows_the_code(code: nat, bits: nat, protocol: Seq<char>) -> (digits: Seq<
    char,
>)
    ensures
        report_line(code, bits, protocol) == "RF ["@ + protocol + "] code=0x"@ + digits + " (dec="@
            + decimal(code) + ", "@ + decimal(bits) + "bit)"@,
        crate::number::value(digits, 16) == code,
        digits.len() * 4 >= bits,
        hex(code).len() * 4 < bits + 4 ==> digits.len() * 4 < bits + 4,
{
    crate::number::numeral_reads_back(code, 16);
    let width = (bits + 3) / 4;
    let digits = padded(hex(code), width, '0');
    if hex(code).len() < width {
        lemma_zeros_add_nothing(hex(code), (width - hex(code).len()) as nat);
    }
    digits
}

/// The dump of a burst has a line for each symbol, in their order.
pub proof fn a_dump_shows_each_symbol(symbols: Seq<Symbol>, n: nat)
    ensures
        symbol_lines(symbols, 0).len() == 0,
        symbol_lines(symbols, n + 1) == symbol_lines(symbols, n) + "\n  ["@ + padded(
            decimal(n),
            3,
            ' ',
        ) + "] H:"@ + padded(decimal(symbols[n as int].level0.ticks as nat), 5, ' ') + "us L:"@
            + padded(decimal(symbols[n as int].level1.ticks as nat), 5, ' ') + "us"@,
{
    assert(symbol_lines(symbols, n + 1) =~= symbol_lines(symbols, n) + "\n  ["@ + padded(
        decimal(n),
        3,
        ' ',
    ) + "] H:"@ + padded(decimal(symbols[n as int].level0.ticks as nat), 5, ' ') + "us L:"@
        + padded(decimal(symbols[n as int].level1.ticks as nat), 5, ' ') + "us"@);
}

} // verus!
