//! Synthetic traffic, so that the testbed has something to defend.
//!
//! Shaped like browsing rather than like a benchmark: short bursts with long idle gaps between
//! them, and far more downstream than upstream. That asymmetry matters: most of the
//! website-fingerprinting signal is in the traffic coming *back*, which is exactly why the defense
//! needs a server side, and a flat request and response loop would hide it.

use vstd::arithmetic::div_mod::*;
use vstd::prelude::*;

use crate::measure;
use crate::measure::Packet;
use crate::session::Source;
use crate::time::{Duration, Instant};

verus! {

/// The state behind `s` in the sequence of a linear congruential generator modulo 2^64.
pub open spec fn lcg(s: u64) -> u64 {
    ((s * 6364136223846793005 + 1442695040888963407) % 0x1_0000_0000_0000_0000) as u64
}

/// The number that the generator puts out when it moves to state `s`: the upper 31 bits.
pub open spec fn drawn(s: u64) -> u64 {
    s / 0x2_0000_0000
}

/// The number from `lo` to `hi` that is drawn when the generator moves to state `s`.
pub open spec fn drawn_in(s: u64, lo: usize, hi: usize) -> usize {
    (lo + drawn(s) as int % (hi - lo + 1)) as usize
}

/// Deterministic, so that two runs are comparable. Not for anything but traffic shape.
#[derive(Clone, Copy, Debug)]
pub struct Lcg(pub u64);

impl Lcg {
    fn next(&mut self) -> (n: u64)
        ensures
            final(self).0 == lcg(old(self).0),
            n == drawn(final(self).0),
            n < 0x8000_0000,
    {
        let ghost s = self.0;
        self.0 = self.0.wrapping_mul(6364136223846793005).wrapping_add(1442695040888963407);
        proof {
            let r: int = 0x1_0000_0000_0000_0000;
            let p = s * 6364136223846793005;
            let m = p % r;
            lemma_fundamental_div_mod(p, r);
            lemma_mod_multiples_vanish(p / r, m + 1442695040888963407, r);
            assert((p + 1442695040888963407) % r == (m + 1442695040888963407) % r);
        }
        let n: u64 = self.0 >> 33;
        let ghost after = self.0;
        assert(after >> 33 == after / 0x2_0000_0000) by (bit_vector);
        n
    }

    fn range(&mut self, lo: usize, hi: usize) -> (n: usize)
        requires
            lo <= hi < usize::MAX,
        ensures
            final(self).0 == lcg(old(self).0),
            n == drawn_in(final(self).0, lo, hi),
            lo <= n <= hi,
    {
        let n: usize = self.next() as usize;
        proof {
            lemma_mod_bound(n as int, hi - lo + 1);
        }
        lo + n % (hi - lo + 1)
    }
}

#[derive(Clone, Copy, Debug, PartialEq, Eq, Structural)]
pub struct RealPacket {
    pub at: Duration,
    pub sent: bool,
    pub bytes: usize,
}

/// The bytes of a packet of length `len` that holds nothing but `fill`.
pub open spec fn filled(fill: u8, len: nat) -> Seq<u8> {
    Seq::new(len, |i: int| fill)
}

fn packet_of(fill: u8, len: usize) -> (p: Vec<u8>)
    ensures
        p@ == filled(fill, len as nat),
{
    let mut p: Vec<u8> = Vec::new();
    let mut i: usize = 0;
    while i < len
        invariant
            i <= len,
            p@ =~= filled(fill, i as nat),
        decreases len - i,
    {
        p.push(fill);
        i += 1;
    }
    p
}

/// Milliseconds in nanoseconds.
pub open spec fn millis(n: nat) -> Duration {
    Duration { nanos: (n * 1_000_000) as u128 }
}

/// A client that loads a page every few seconds and is idle in between.
pub struct Browsing {
    pub start: Instant,
    pub rng: Lcg,
    pub next_page: Instant,
    pub burst_left: usize,
    pub next_packet: Instant,
    pub page_every: Duration,
    pub real: Vec<RealPacket>,
}

/// Where a page load stands.
pub struct PageLoad {
    pub rng: u64,
    pub next_page: Instant,
    pub burst_left: int,
    pub next_packet: Instant,
}

impl PageLoad {
    /// A page load begins at `now` where none is under way and it is time for one: 3 to 7
    /// requests.
    pub open spec fn begun(self, now: Instant, page_every: Duration) -> PageLoad {
        if self.burst_left == 0 && now.nanos >= self.next_page.nanos {
            PageLoad {
                rng: lcg(self.rng),
                next_page: now.spec_after(page_every),
                burst_left: drawn_in(lcg(self.rng), 3, 7) as int,
                next_packet: now,
            }
        } else {
            self
        }
    }

    /// Whether a request goes out at `now`.
    pub open spec fn due(self, now: Instant) -> bool {
        self.burst_left != 0 && now.nanos >= self.next_packet.nanos
    }

    /// Once a request has gone out: 8 to 40 ms until the next.
    pub open spec fn sent(self, now: Instant) -> PageLoad {
        let gap = lcg(self.rng);
        PageLoad {
            rng: lcg(gap),
            burst_left: self.burst_left - 1,
            next_packet: now.spec_after(millis(drawn_in(gap, 8, 40) as nat)),
            ..self
        }
    }

    /// The length of the request that goes out: 120 to 700 bytes. Small and variable, the size
    /// signal that a constant-size transport erases.
    pub open spec fn request_len(self) -> usize {
        drawn_in(lcg(lcg(self.rng)), 120, 700)
    }
}

impl Browsing {
    pub open spec fn page_load(self) -> PageLoad {
        PageLoad {
            rng: self.rng.0,
            next_page: self.next_page,
            burst_left: self.burst_left as int,
            next_packet: self.next_packet,
        }
    }

    pub fn new(now: Instant, page_every: Duration) -> (b: Browsing)
        requires
            now.nanos + 400_000_000 <= u128::MAX,
        ensures
            b.start == now,
            b.page_every == page_every,
            b.real@.len() == 0,
            b.page_load() == (PageLoad {
                rng: 0x5EED_1234,
                next_page: now.spec_after(millis(400)),
                burst_left: 0,
                next_packet: now,
            }),
    {
        Browsing {
            start: now,
            rng: Lcg(0x5EED_1234),
            next_page: now.after(Duration::from_millis(400)),
            burst_left: 0,
            next_packet: now,
            page_every,
            real: Vec::new(),
        }
    }
}

impl Source for Browsing {
    open spec fn ready(&self, now: Instant) -> bool {
        now.can_advance(self.page_every) && now.nanos + 40_000_000 <= u128::MAX
    }

    fn packets(&mut self, now: Instant) -> (out: Vec<Vec<u8>>)
        ensures
            final(self).start == old(self).start,
            final(self).page_every == old(self).page_every,
            ({
                let load = old(self).page_load().begun(now, old(self).page_every);
                if load.due(now) {
                    &&& final(self).page_load() == load.sent(now)
                    &&& out@.len() == 1
                    &&& out@[0]@ == filled(0x41, load.request_len() as nat)
                    &&& final(self).real@ == old(self).real@.push(
                        (RealPacket {
                            at: now.spec_since(old(self).start),
                            sent: true,
                            bytes: load.request_len(),
                        }),
                    )
                } else {
                    &&& final(self).page_load() == load
                    &&& out@.len() == 0
                    &&& final(self).real@ == old(self).real@
                }
            }),
    {
        let mut out: Vec<Vec<u8>> = Vec::new();
        if self.burst_left == 0 {
            if now.before(self.next_page) {
                return out;
            }
            // A page load: a handful of requests.
            self.burst_left = self.rng.range(3, 7);
            self.next_page = now.after(self.page_every);
            self.next_packet = now;
        }
        if now.before(self.next_packet) {
            return out;
        }
        self.burst_left = self.burst_left - 1;
        let gap: usize = self.rng.range(8, 40);
        self.next_packet = now.after(Duration::from_millis(gap as u64));
        let len: usize = self.rng.range(120, 700);
        self.real.push(
            RealPacket { at: now.duration_since(self.start), sent: true, bytes: len },
        );
        out.push(packet_of(0x41, len));
        out
    }

    fn on_received(&mut self, payload: &[u8], now: Instant)
        ensures
            final(self).page_load() == old(self).page_load(),
            final(self).start == old(self).start,
            final(self).page_every == old(self).page_every,
            final(self).real@ == old(self).real@.push(
                (RealPacket {
                    at: now.spec_since(old(self).start),
                    sent: false,
                    bytes: payload@.len() as usize,
                }),
            ),
    {
        self.real.push(
            RealPacket { at: now.duration_since(self.start), sent: false, bytes: payload.len() },
        );
    }
}

/// A server that answers each request with a burst of response packets.
pub struct Responder {
    pub start: Instant,
    pub rng: Lcg,
    pub queue: Vec<usize>,
    pub next_packet: Instant,
    pub real: Vec<RealPacket>,
}

/// How many packets answer a request, the generator being in state `rng`: 8 to 26.
pub open spec fn reply_len(rng: u64) -> usize {
    drawn_in(lcg(rng), 8, 26)
}

/// The lengths of the packets that answer a request: full-size segments and one short tail of 60
/// to 400 bytes, the burst shape that a fingerprinting classifier keys on.
pub open spec fn reply(rng: u64) -> Seq<usize> {
    Seq::new(
        reply_len(rng) as nat,
        |i: int|
            if i + 1 == reply_len(rng) {
                drawn_in(lcg(lcg(rng)), 60, 400)
            } else {
                1100
            },
    )
}

impl Responder {
    pub fn new(now: Instant) -> (r: Responder)
        ensures
            r.start == now,
            r.rng.0 == 0xC0FF_EE01,
            r.queue@.len() == 0,
            r.next_packet == now,
            r.real@.len() == 0,
    {
        Responder {
            start: now,
            rng: Lcg(0xC0FF_EE01),
            queue: Vec::new(),
            next_packet: now,
            real: Vec::new(),
        }
    }
}

impl Source for Responder {
    open spec fn ready(&self, now: Instant) -> bool {
        now.nanos + 6_000_000 <= u128::MAX
    }

    fn packets(&mut self, now: Instant) -> (out: Vec<Vec<u8>>)
        ensures
            final(self).start == old(self).start,
            if old(self).queue@.len() > 0 && now.nanos >= old(self).next_packet.nanos {
                &&& final(self).rng.0 == lcg(old(self).rng.0)
                &&& final(self).queue@ == old(self).queue@.skip(1)
                &&& final(self).next_packet == now.spec_after(
                    millis(drawn_in(lcg(old(self).rng.0), 1, 6) as nat),
                )
                &&& out@.len() == 1
                &&& out@[0]@ == filled(0x42, old(self).queue@[0] as nat)
                &&& final(self).real@ == old(self).real@.push(
                    (RealPacket {
                        at: now.spec_since(old(self).start),
                        sent: true,
                        bytes: old(self).queue@[0],
                    }),
                )
            } else {
                &&& *final(self) == *old(self)
                &&& out@.len() == 0
            },
    {
        let mut out: Vec<Vec<u8>> = Vec::new();
        if self.queue.len() == 0 || now.before(self.next_packet) {
            return out;
        }
        let len: usize = self.queue.remove(0);
        assert(self.queue@ =~= old(self).queue@.skip(1));
        let gap: usize = self.rng.range(1, 6);
        self.next_packet = now.after(Duration::from_millis(gap as u64));
        self.real.push(
            RealPacket { at: now.duration_since(self.start), sent: true, bytes: len },
        );
        out.push(packet_of(0x42, len));
        out
    }

    fn on_received(&mut self, payload: &[u8], now: Instant)
        ensures
            final(self).start == old(self).start,
            final(self).next_packet == old(self).next_packet,
            final(self).rng.0 == lcg(lcg(old(self).rng.0)),
            final(self).queue@ == old(self).queue@ + reply(old(self).rng.0),
            final(self).real@ == old(self).real@.push(
                (RealPacket {
                    at: now.spec_since(old(self).start),
                    sent: false,
                    bytes: payload@.len() as usize,
                }),
            ),
    {
        self.real.push(
            RealPacket { at: now.duration_since(self.start), sent: false, bytes: payload.len() },
        );
        let ghost seed = self.rng.0;
        let ghost before = self.queue@;
        // Downstream is heavier than upstream.
        let n: usize = self.rng.range(8, 26);
        let mut i: usize = 0;
        while i < n
            invariant
                i <= n == reply_len(seed),
                8 <= n,
                self.start == old(self).start,
                self.next_packet == old(self).next_packet,
                self.real@ == old(self).real@.push(
                    (RealPacket {
                        at: now.spec_since(old(self).start),
                        sent: false,
                        bytes: payload@.len() as usize,
                    }),
                ),
                self.rng.0 == if i == n {
                    lcg(lcg(seed))
                } else {
                    lcg(seed)
                },
                self.queue@ =~= before + reply(seed).take(i as int),
            decreases n - i,
        {
            let len: usize = if i + 1 == n {
                self.rng.range(60, 400)
            } else {
                1100
            };
            self.queue.push(len);
            i += 1;
        }
        assert(reply(seed).take(i as int) =~= reply(seed));
    }
}

/// The real packets as an observer of the inner traffic would see them.
pub open spec fn observed(packets: Seq<RealPacket>) -> Seq<Packet> {
    packets.map_values(
        |p: RealPacket| Packet { nanos: p.at.nanos, sent: p.sent, bytes: p.bytes },
    )
}

/// The trace of the real packets: time in nanoseconds, direction, bytes.
pub fn trace_csv(packets: &[RealPacket]) -> (s: String)
    ensures
        s@ == measure::csv(observed(packets@)),
{
    let mut list: Vec<Packet> = Vec::new();
    let mut i: usize = 0;
    while i < packets.len()
        invariant
            i <= packets@.len(),
            list@ =~= observed(packets@.take(i as int)),
        decreases packets@.len() - i,
    {
        let p = packets[i];
        list.push(Packet { nanos: p.at.nanos, sent: p.sent, bytes: p.bytes });
        i += 1;
    }
    assert(packets@.take(i as int) =~= packets@);
    measure::to_csv(&list)
}

/// Every packet that the workload originates fits in a frame.
pub proof fn law_workload_packets_fit(rng: u64, load: PageLoad, i: int)
    requires
        0 <= i < reply(rng).len(),
    ensures
        120 <= load.request_len() <= 700,
        8 <= reply(rng).len() <= 26,
        60 <= reply(rng)[i] <= 1100,
        load.request_len() <= crate::wire::MAX_PAYLOAD,
        reply(rng)[i] <= crate::wire::MAX_PAYLOAD,
{
    lemma_drawn_in(lcg(lcg(load.rng)), 120, 700);
    lemma_drawn_in(lcg(rng), 8, 26);
    lemma_drawn_in(lcg(lcg(rng)), 60, 400);
}

proof fn lemma_drawn_in(s: u64, lo: usize, hi: usize)
    requires
        lo <= hi < usize::MAX,
    ensures
        lo <= drawn_in(s, lo, hi) <= hi,
{
    lemma_mod_bound(drawn(s) as int, hi - lo + 1);
}

/// The generator's step: a multiple of 2^64 below the state times the multiplier plus the
/// increment.
pub proof fn law_generator_step(s: u64)
    ensures
        (s * 6364136223846793005 + 1442695040888963407 - lcg(s)) % 0x1_0000_0000_0000_0000 == 0,
{
    let x = s * 6364136223846793005 + 1442695040888963407;
    let r: int = 0x1_0000_0000_0000_0000;
    lemma_fundamental_div_mod(x, r);
    lemma_mod_bound(x, r);
    lemma_mod_multiples_basic(x / r, r);
}

/// What is drawn is the upper 31 bits of the state, and within a range it is the remainder by the
/// size of the range, counted from its lower end.
pub proof fn law_drawing(s: u64, lo: usize, hi: usize)
    requires
        lo <= hi < usize::MAX,
    ensures
        drawn(s) * 0x2_0000_0000 <= s < (drawn(s) + 1) * 0x2_0000_0000,
        lo <= drawn_in(s, lo, hi) <= hi,
        (drawn(s) - (drawn_in(s, lo, hi) - lo)) % (hi - lo + 1) == 0,
{
    lemma_drawn_in(s, lo, hi);
    let d = drawn(s) as int;
    let n = hi - lo + 1;
    lemma_fundamental_div_mod(d, n);
    lemma_mod_multiples_basic(d / n, n);
    assert(d - d % n == n * (d / n));
    assert(n * (d / n) == (d / n) * n) by (nonlinear_arith);
}

/// A page load begins only where none is under way and its time has come, and has 3 to 7 requests;
/// requests go out only while some are left and their time has come, 8 to 40 ms apart, and each is
/// 120 to 700 bytes long.
pub proof fn law_page_loads(load: PageLoad, now: Instant, every: Duration)
    requires
        now.can_advance(every),
        now.nanos + 40_000_000 <= u128::MAX,
    ensures
        ({
            let b = load.begun(now, every);
            &&& load.burst_left != 0 || now.nanos < load.next_page.nanos ==> b == load
            &&& load.burst_left == 0 && now.nanos >= load.next_page.nanos ==> {
                &&& 3 <= b.burst_left <= 7
                &&& b.next_page.nanos == now.nanos + every.nanos
                &&& b.next_packet == now
                &&& b.due(now)
            }
        }),
        load.due(now) <==> load.burst_left != 0 && now.nanos >= load.next_packet.nanos,
        load.sent(now).burst_left == load.burst_left - 1,
        now.nanos + 8_000_000 <= load.sent(now).next_packet.nanos <= now.nanos + 40_000_000,
        load.sent(now).next_page == load.next_page,
        120 <= load.request_len() <= 700,
{
    lemma_drawn_in(lcg(load.rng), 3, 7);
    lemma_drawn_in(lcg(load.rng), 8, 40);
    lemma_drawn_in(lcg(lcg(load.rng)), 120, 700);
}

/// A request is answered by 8 to 26 packets, all of 1100 bytes but the last, which has 60 to 400.
pub proof fn law_replies(rng: u64, i: int)
    requires
        0 <= i < reply(rng).len(),
    ensures
        8 <= reply(rng).len() <= 26,
        i < reply(rng).len() - 1 ==> reply(rng)[i] == 1100,
        i == reply(rng).len() - 1 ==> 60 <= reply(rng)[i] <= 400,
{
    lemma_drawn_in(lcg(rng), 8, 26);
    lemma_drawn_in(lcg(lcg(rng)), 60, 400);
}

/// What is written down of the real packets: each one's time, direction and size, in order.
pub proof fn law_observed_packets(packets: Seq<RealPacket>, i: int)
    requires
        0 <= i < packets.len(),
    ensures
        observed(packets).len() == packets.len(),
        observed(packets)[i].nanos == packets[i].at.nanos,
        observed(packets)[i].sent == packets[i].sent,
        observed(packets)[i].bytes == packets[i].bytes,
{
}

/// A packet is filled with one byte.
pub proof fn law_filled_packets(fill: u8, len: nat, i: int)
    requires
        0 <= i < len,
    ensures
        filled(fill, len).len() == len,
        filled(fill, len)[i] == fill,
{
}

} // verus!
