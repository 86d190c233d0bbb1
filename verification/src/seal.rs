//! Datagram sealing.
//!
//! There is no key agreement here, and there should not be: take the keys from a reviewed
//! handshake. What *is* here is the part the defense depends on: sealing that adds a
//! **constant** number of bytes, so that a sealed frame is the same size as every other sealed
//! frame.

use vstd::prelude::*;

use crate::bytes;
use crate::crypto;
use crate::transport::TransportError;
use crate::wire::FRAME_LEN;

verus! {

/// Bytes that a sealed datagram adds over the frame: 8 of counter and 16 of Poly1305 tag.
pub const SEAL_OVERHEAD: usize = 8 + 16;

/// The size of every datagram this transport puts on the wire. Every one.
pub const DATAGRAM_LEN: usize = FRAME_LEN + SEAL_OVERHEAD;

/// How many counters, from the highest one down, the replay window can tell apart.
pub const WINDOW: u64 = 64;

/// Which direction a key protects. Used as nonce domain separation, so that the two directions
/// can share a key derivation without ever colliding on a nonce.
#[derive(Clone, Copy, Debug, PartialEq, Eq, Structural)]
pub enum Direction {
    ClientToServer,
    ServerToClient,
}

impl Direction {
    pub open spec fn code(self) -> nat {
        match self {
            Direction::ClientToServer => 1,
            Direction::ServerToClient => 2,
        }
    }

    pub open spec fn other(self) -> Direction {
        match self {
            Direction::ClientToServer => Direction::ServerToClient,
            Direction::ServerToClient => Direction::ClientToServer,
        }
    }

    fn opposite(self) -> (d: Direction)
        ensures
            d == self.other(),
    {
        match self {
            Direction::ClientToServer => Direction::ServerToClient,
            Direction::ServerToClient => Direction::ClientToServer,
        }
    }

    fn number(self) -> (n: u64)
        ensures
            n == self.code(),
    {
        match self {
            Direction::ClientToServer => 1,
            Direction::ServerToClient => 2,
        }
    }
}

/// A 64-packet sliding replay window.
///
/// Strict monotonicity would be simpler and wrong: UDP reorders, and dropping every reordered
/// packet would make the transport look lossy in exactly the bursty conditions that the defense
/// is trying to shape.
#[derive(Clone, Copy, Debug)]
pub struct ReplayWindow {
    highest: u64,
    bitmap: u64,
}

/// Whether `counter` is too far behind `top` to prove that it is not a replay.
pub open spec fn too_old(counter: u64, top: u64) -> bool {
    counter + WINDOW <= top
}

impl ReplayWindow {
    /// The highest counter accepted so far, and 0 before the first.
    pub closed spec fn top(self) -> u64 {
        self.highest
    }

    /// Whether the window will not accept `counter`.
    pub closed spec fn refuses(self, counter: u64) -> bool {
        counter <= self.highest && (self.highest - counter >= WINDOW || self.bitmap & (1u64 << (
        (self.highest - counter) as u64)) != 0)
    }

    /// Whether `self` is what `before` becomes when it is offered `counter`.
    pub open spec fn follows(self, before: ReplayWindow, counter: u64) -> bool {
        &&& before.refuses(counter) ==> self == before
        &&& !before.refuses(counter) ==> self.top() == if counter > before.top() {
            counter
        } else {
            before.top()
        }
        &&& forall|d: u64| #[trigger]
            self.refuses(d) <==> before.refuses(d) || d == counter || too_old(d, self.top())
    }

    /// Whether nothing has been accepted yet.
    pub open spec fn fresh(self) -> bool {
        &&& self.top() == 0
        &&& forall|d: u64| !#[trigger] self.refuses(d)
    }

    /// Accepts a counter that it has not accepted before and that lies inside the window, and
    /// remembers it.
    pub fn accept(&mut self, counter: u64) -> (accepted: bool)
        ensures
            accepted == !old(self).refuses(counter),
            final(self).follows(*old(self), counter),
    {
        let ghost before = *self;
        let ghost h = self.highest;
        let ghost m = self.bitmap;
        if counter > self.highest {
            let shift: u64 = counter - self.highest;
            let moved: u64 = if shift >= WINDOW {
                0
            } else {
                self.bitmap << shift
            };
            self.bitmap = moved | 1;
            self.highest = counter;
            proof {
                assert forall|d: u64| #[trigger]
                    self.refuses(d) <==> before.refuses(d) || d == counter || too_old(
                        d,
                        counter,
                    ) by {
                    if d <= counter && counter - d < WINDOW {
                        let back = (counter - d) as u64;
                        assert(back == 0 ==> (moved | 1) & (1u64 << back) != 0) by (bit_vector);
                        assert(0 < back < 64 ==> ((moved | 1) & (1u64 << back) != 0 <==> moved & (
                        1u64 << back) != 0)) by (bit_vector);
                        if shift >= WINDOW {
                            assert(0u64 & (1u64 << back) == 0) by (bit_vector);
                        } else if d <= h {
                            let old_back = (h - d) as u64;
                            assert(((m << shift) & (1u64 << back) != 0) == (m & (1u64 << old_back)
                                != 0)) by (bit_vector)
                                requires
                                    0 < shift < 64,
                                    back < 64,
                                    back == old_back + shift,
                            ;
                        } else {
                            assert((m << shift) & (1u64 << back) == 0) by (bit_vector)
                                requires
                                    back < shift < 64,
                            ;
                        }
                    }
                }
            }
            true
        } else {
            let back: u64 = self.highest - counter;
            if back >= WINDOW {
                return false;
            }
            let bit: u64 = 1u64 << back;
            if self.bitmap & bit != 0 {
                return false;
            }
            self.bitmap = self.bitmap | bit;
            proof {
                assert forall|d: u64| #[trigger]
                    self.refuses(d) <==> before.refuses(d) || d == counter || too_old(d, h) by {
                    if d <= h && h - d < WINDOW {
                        let b = (h - d) as u64;
                        assert((m | (1u64 << back)) & (1u64 << b) != 0 <==> b == back || m & (1u64
                            << b) != 0) by (bit_vector)
                            requires
                                b < 64,
                                back < 64,
                        ;
                    }
                }
            }
            true
        }
    }
}

impl Default for ReplayWindow {
    fn default() -> (w: ReplayWindow)
        ensures
            w.fresh(),
    {
        let w = ReplayWindow { highest: 0, bitmap: 0 };
        assert forall|d: u64| !#[trigger] w.refuses(d) by {
            assert(0u64 & (1u64 << 0u64) == 0) by (bit_vector);
        }
        w
    }
}

/// The largest of `offered` and `top`.
pub open spec fn highest_of(top: u64, offered: Seq<u64>) -> u64
    decreases offered.len(),
{
    if offered.len() == 0 {
        top
    } else {
        let before = highest_of(top, offered.drop_last());
        if offered.last() > before {
            offered.last()
        } else {
            before
        }
    }
}

/// Whether `windows` are the states that a window passes through, from its first state on, when
/// the counters `offered` are offered to it one after the other.
pub open spec fn window_run(windows: Seq<ReplayWindow>, offered: Seq<u64>) -> bool {
    &&& windows.len() == offered.len() + 1
    &&& windows[0].fresh()
    &&& forall|i: int|
        #![trigger offered[i]]
        0 <= i < offered.len() ==> windows[i + 1].follows(windows[i], offered[i])
}

/// After any run the window refuses exactly the counters that were offered to it before and
/// those that are 64 or more behind the highest one. So no counter is accepted twice, and a
/// reordered one is still accepted as long as it is fresh and inside the window.
pub proof fn law_window_refuses_seen_and_old(
    windows: Seq<ReplayWindow>,
    offered: Seq<u64>,
    counter: u64,
)
    requires
        window_run(windows, offered),
    ensures
        windows.last().top() == highest_of(0, offered),
        windows.last().refuses(counter) <==> offered.contains(counter) || too_old(
            counter,
            highest_of(0, offered),
        ),
    decreases offered.len(),
{
    if offered.len() > 0 {
        let w = windows.drop_last();
        let o = offered.drop_last();
        let c = offered.last();
        assert forall|i: int| #![trigger o[i]] 0 <= i < o.len() implies w[i + 1].follows(
            w[i],
            o[i],
        ) by {
            assert(offered[i] == o[i]);
        }
        assert(window_run(w, o));
        law_window_refuses_seen_and_old(w, o, counter);
        law_window_refuses_seen_and_old(w, o, c);
        assert(windows.last().follows(w.last(), offered[offered.len() - 1]));
        assert(offered =~= o.push(c));
        assert(offered.contains(counter) <==> o.contains(counter) || counter == c) by {
            if o.contains(counter) {
                let k = choose|k: int| 0 <= k < o.len() && o[k] == counter;
                assert(offered[k] == counter);
            }
            if counter == c {
                assert(offered[offered.len() - 1] == counter);
            }
        }
    }
}

/// A counter above every one accepted so far is not refused.
pub proof fn lemma_higher_is_not_refused(w: ReplayWindow, counter: u64)
    requires
        counter > w.top(),
    ensures
        !w.refuses(counter),
{
}

/// The nonce of the datagram with number `counter` that goes in direction `dir`: four bytes of
/// direction, eight of counter. The direction bytes are never transmitted; both ends know which
/// side they are.
pub open spec fn nonce_bytes(dir: Direction, counter: u64) -> Seq<u8> {
    bytes::be_bytes(dir.code(), 4) + bytes::be_bytes(counter as nat, 8)
}

/// Two datagrams have the same nonce only if they go in the same direction under the same
/// counter.
pub proof fn law_nonces_are_distinct(d1: Direction, c1: u64, d2: Direction, c2: u64)
    ensures
        nonce_bytes(d1, c1).len() == 12,
        nonce_bytes(d1, c1) == nonce_bytes(d2, c2) <==> d1 == d2 && c1 == c2,
{
    bytes::lemma_be_spans();
    bytes::lemma_be_bytes_len(d1.code(), 4);
    bytes::lemma_be_bytes_len(d2.code(), 4);
    bytes::lemma_be_bytes_len(c1 as nat, 8);
    bytes::lemma_be_bytes_len(c2 as nat, 8);
    bytes::lemma_be_value_of_bytes(d1.code(), 4);
    bytes::lemma_be_value_of_bytes(d2.code(), 4);
    bytes::lemma_be_value_of_bytes(c1 as nat, 8);
    bytes::lemma_be_value_of_bytes(c2 as nat, 8);
    let (n1, n2) = (nonce_bytes(d1, c1), nonce_bytes(d2, c2));
    assert(n1.take(4) =~= bytes::be_bytes(d1.code(), 4));
    assert(n2.take(4) =~= bytes::be_bytes(d2.code(), 4));
    assert(n1.skip(4) =~= bytes::be_bytes(c1 as nat, 8));
    assert(n2.skip(4) =~= bytes::be_bytes(c2 as nat, 8));
}

/// Seals and opens datagrams.
pub trait Seal: Sized {
    /// Whether sealing `frame` may take `before` to `after` and have the outcome `r`: the
    /// datagram, or the reason why there is none.
    spec fn seals(
        before: Self,
        frame: Seq<u8>,
        after: Self,
        r: Result<Seq<u8>, TransportError>,
    ) -> bool;

    /// Whether opening `datagram` may take `before` to `after` and have the outcome `r`: the
    /// frame, or the reason to drop the datagram.
    spec fn opens(
        before: Self,
        datagram: Seq<u8>,
        after: Self,
        r: Result<Seq<u8>, TransportError>,
    ) -> bool;

    /// Seals `frame`. The datagram replaces what `out` held; where there is none, `out` is left
    /// as it is.
    fn seal(&mut self, frame: &[u8; FRAME_LEN], out: &mut Vec<u8>) -> (r: Result<
        (),
        TransportError,
    >)
        ensures
            Self::seals(
                *old(self),
                frame@,
                *final(self),
                match r {
                    Ok(()) => Ok(final(out)@),
                    Err(e) => Err(e),
                },
            ),
            r is Ok ==> final(out)@.len() == DATAGRAM_LEN,
            r is Err ==> final(out)@ == old(out)@,
    ;

    /// Opens `datagram`. The frame replaces what `out` held; where there is none, `out` is left
    /// as it is.
    fn open(&mut self, datagram: &[u8], out: &mut [u8; FRAME_LEN]) -> (r: Result<
        (),
        TransportError,
    >)
        ensures
            Self::opens(
                *old(self),
                datagram@,
                *final(self),
                match r {
                    Ok(()) => Ok(final(out)@),
                    Err(e) => Err(e),
                },
            ),
            r is Err ==> *final(out) == *old(out),
    ;
}

/// ChaCha20-Poly1305 with one key and one counter for each direction.
pub struct ChaChaSeal {
    send: [u8; 32],
    recv: [u8; 32],
    send_dir: Direction,
    recv_dir: Direction,
    counter: u64,
    replay: ReplayWindow,
}

impl ChaChaSeal {
    pub closed spec fn send_key(self) -> Seq<u8> {
        self.send@
    }

    pub closed spec fn recv_key(self) -> Seq<u8> {
        self.recv@
    }

    pub closed spec fn sends(self) -> Direction {
        self.send_dir
    }

    pub closed spec fn receives(self) -> Direction {
        self.recv_dir
    }

    /// How many datagrams have been sealed.
    pub closed spec fn sent(self) -> u64 {
        self.counter
    }

    pub closed spec fn window(self) -> ReplayWindow {
        self.replay
    }

    /// Whether keys and directions are the same as in `other`.
    pub open spec fn keyed_as(self, other: ChaChaSeal) -> bool {
        &&& self.send_key() == other.send_key()
        &&& self.recv_key() == other.recv_key()
        &&& self.sends() == other.sends()
        &&& self.receives() == other.receives()
    }

    /// The datagram with number `counter`: the number in eight bytes, then the sealed frame.
    pub open spec fn datagram(self, counter: u64, frame: Seq<u8>) -> Seq<u8> {
        bytes::be_bytes(counter as nat, 8) + crypto::chacha20poly1305_sealed(
            self.send_key(),
            nonce_bytes(self.sends(), counter),
            frame,
        )
    }

    /// The number that a datagram claims.
    pub open spec fn claimed(datagram: Seq<u8>) -> u64 {
        bytes::be_value(datagram.take(8)) as u64
    }

    /// Whether `datagram` is what the other end makes of `frame` under the number it claims.
    pub open spec fn authentic(self, datagram: Seq<u8>, frame: Seq<u8>) -> bool {
        &&& frame.len() == FRAME_LEN
        &&& crypto::chacha20poly1305_sealed(
            self.recv_key(),
            nonce_bytes(self.receives(), ChaChaSeal::claimed(datagram)),
            frame,
        ) == datagram.skip(8)
    }

    /// `send_key` and `recv_key` must come from a real key exchange, and must differ.
    pub fn new(send_key: &[u8; 32], recv_key: &[u8; 32], send_dir: Direction) -> (s: ChaChaSeal)
        ensures
            s.send_key() == send_key@,
            s.recv_key() == recv_key@,
            s.sends() == send_dir,
            s.receives() == send_dir.other(),
            s.sent() == 0,
            s.window().fresh(),
    {
        ChaChaSeal {
            send: *send_key,
            recv: *recv_key,
            send_dir,
            recv_dir: send_dir.opposite(),
            counter: 0,
            replay: ReplayWindow::default(),
        }
    }

    fn nonce(dir: Direction, counter: u64) -> (n: [u8; 12])
        ensures
            n@ == nonce_bytes(dir, counter),
    {
        let mut all = bytes::be_encode(dir.number(), 4);
        let tail = bytes::be_encode(counter, 8);
        bytes::extend(&mut all, &tail);
        let mut n = [0u8; 12];
        let mut i: usize = 0;
        while i < 12
            invariant
                i <= 12,
                all@.len() == 12,
                forall|j: int| 0 <= j < i ==> n@[j] == all@[j],
            decreases 12 - i,
        {
            n[i] = all[i];
            i += 1;
        }
        assert(n@ =~= all@);
        n
    }
}

impl Seal for ChaChaSeal {
    open spec fn seals(
        before: ChaChaSeal,
        frame: Seq<u8>,
        after: ChaChaSeal,
        r: Result<Seq<u8>, TransportError>,
    ) -> bool {
        if before.sent() == u64::MAX {
            r == Err::<Seq<u8>, TransportError>(TransportError::CounterExhausted) && after == before
        } else {
            &&& after.keyed_as(before)
            &&& after.window() == before.window()
            &&& after.sent() == before.sent() + 1
            &&& r is Ok
            &&& r->Ok_0 == before.datagram(after.sent(), frame)
            &&& r->Ok_0.len() == DATAGRAM_LEN
        }
    }

    open spec fn opens(
        before: ChaChaSeal,
        datagram: Seq<u8>,
        after: ChaChaSeal,
        r: Result<Seq<u8>, TransportError>,
    ) -> bool {
        let counter = ChaChaSeal::claimed(datagram);
        &&& after.keyed_as(before)
        &&& after.sent() == before.sent()
        &&& r is Err ==> after == before
        &&& if datagram.len() != DATAGRAM_LEN {
            r == Err::<Seq<u8>, TransportError>(
                TransportError::WrongDatagramLength { got: datagram.len() as usize },
            )
        } else if forall|frame: Seq<u8>| !#[trigger] before.authentic(datagram, frame) {
            r == Err::<Seq<u8>, TransportError>(TransportError::OpenFailed)
        } else if before.window().refuses(counter) {
            r == Err::<Seq<u8>, TransportError>(TransportError::Replay { counter })
        } else {
            &&& r is Ok
            &&& before.authentic(datagram, r->Ok_0)
            &&& forall|frame: Seq<u8>| #[trigger]
                before.authentic(datagram, frame) ==> r->Ok_0 == frame
            &&& after.window().follows(before.window(), counter)
        }
    }

    fn seal(&mut self, frame: &[u8; FRAME_LEN], out: &mut Vec<u8>) -> (r: Result<
        (),
        TransportError,
    >) {
        // Nonce reuse with a counter AEAD is catastrophic, not degraded: refuse rather than wrap.
        if self.counter == u64::MAX {
            return Err(TransportError::CounterExhausted);
        }
        let counter: u64 = self.counter + 1;
        self.counter = counter;
        let nonce = ChaChaSeal::nonce(self.send_dir, counter);
        let sealed = match crypto::aead_encrypt(&self.send, &nonce, frame) {
            Ok(sealed) => sealed,
            Err(_) => return Err(TransportError::SealFailed),
        };
        let number = bytes::be_encode(counter, 8);
        out.clear();
        bytes::extend(out, &number);
        bytes::extend(out, &sealed);
        assert(out@ =~= self.datagram(counter, frame@));
        Ok(())
    }

    fn open(&mut self, datagram: &[u8], out: &mut [u8; FRAME_LEN]) -> (r: Result<
        (),
        TransportError,
    >) {
        // A datagram of the wrong length cannot be ours.
        if datagram.len() != DATAGRAM_LEN {
            return Err(TransportError::WrongDatagramLength { got: datagram.len() });
        }
        let counter: u64 = bytes::be_decode(&datagram[0..8]);
        assert(datagram@.subrange(0, 8) =~= datagram@.take(8));
        let nonce = ChaChaSeal::nonce(self.recv_dir, counter);
        let sealed = &datagram[8..DATAGRAM_LEN];
        assert(sealed@ =~= datagram@.skip(8));
        let plain = match crypto::aead_decrypt(&self.recv, &nonce, sealed) {
            Ok(plain) => plain,
            Err(_) => {
                assert forall|frame: Seq<u8>| !#[trigger] self.authentic(datagram@, frame) by {}
                return Err(TransportError::OpenFailed);
            },
        };
        assert(self.authentic(datagram@, plain@));
        // Replay is checked only after authentication, so a forged counter cannot poison the
        // window.
        if !self.replay.accept(counter) {
            return Err(TransportError::Replay { counter });
        }
        let mut i: usize = 0;
        while i < FRAME_LEN
            invariant
                i <= FRAME_LEN == plain@.len(),
                forall|j: int| 0 <= j < i ==> out@[j] == plain@[j],
            decreases FRAME_LEN - i,
        {
            out[i] = plain[i];
            i += 1;
        }
        assert(out@ =~= plain@);
        Ok(())
    }
}

/// The datagram with number `counter` claims that number.
pub proof fn lemma_claimed_number(sender: ChaChaSeal, counter: u64, datagram: Seq<u8>)
    requires
        exists|frame: Seq<u8>| datagram == #[trigger] sender.datagram(counter, frame),
    ensures
        ChaChaSeal::claimed(datagram) == counter,
{
    bytes::lemma_be_spans();
    bytes::lemma_be_bytes_len(counter as nat, 8);
    bytes::lemma_be_value_of_bytes(counter as nat, 8);
    assert(datagram.take(8) =~= bytes::be_bytes(counter as nat, 8));
}

/// What one end seals, the other end opens to the same frame, whatever either has sealed or
/// opened before, unless the receiver's window has moved past the datagram's number.
pub proof fn law_open_gives_back_what_was_sealed(
    sender: ChaChaSeal,
    sender_after: ChaChaSeal,
    frame: Seq<u8>,
    datagram: Seq<u8>,
    receiver: ChaChaSeal,
    receiver_after: ChaChaSeal,
    opened: Result<Seq<u8>, TransportError>,
)
    requires
        frame.len() == FRAME_LEN,
        ChaChaSeal::seals(sender, frame, sender_after, Ok(datagram)),
        receiver.recv_key() == sender.send_key(),
        receiver.receives() == sender.sends(),
        !receiver.window().refuses(sender_after.sent()),
        ChaChaSeal::opens(receiver, datagram, receiver_after, opened),
    ensures
        opened == Ok::<Seq<u8>, TransportError>(frame),
{
    let n = sender_after.sent();
    lemma_claimed_number(sender, n, datagram);
    bytes::lemma_be_bytes_len(n as nat, 8);
    assert(datagram.skip(8) =~= crypto::chacha20poly1305_sealed(
        sender.send_key(),
        nonce_bytes(sender.sends(), n),
        frame,
    ));
    assert(receiver.authentic(datagram, frame));
}

/// A datagram that has been opened is not opened a second time.
pub proof fn law_opened_datagram_is_not_opened_again(
    before: ChaChaSeal,
    datagram: Seq<u8>,
    between: ChaChaSeal,
    frame: Seq<u8>,
    after: ChaChaSeal,
    again: Result<Seq<u8>, TransportError>,
)
    requires
        ChaChaSeal::opens(before, datagram, between, Ok(frame)),
        ChaChaSeal::opens(between, datagram, after, again),
    ensures
        again == Err::<Seq<u8>, TransportError>(
            TransportError::Replay { counter: ChaChaSeal::claimed(datagram) },
        ),
{
    assert(between.authentic(datagram, frame));
    assert(between.window().refuses(ChaChaSeal::claimed(datagram)));
}

/// No datagram changes the receiver's state unless it is authentic: a forged counter cannot
/// poison the window.
pub proof fn law_forgery_changes_nothing(
    before: ChaChaSeal,
    datagram: Seq<u8>,
    after: ChaChaSeal,
    r: Result<Seq<u8>, TransportError>,
)
    requires
        ChaChaSeal::opens(before, datagram, after, r),
        forall|frame: Seq<u8>| !#[trigger] before.authentic(datagram, frame),
    ensures
        r is Err,
        after == before,
{
}

/// Whether `states` are the states of an end that has sealed once between each two.
pub open spec fn sealing_run(states: Seq<ChaChaSeal>, frames: Seq<Seq<u8>>) -> bool {
    &&& states.len() == frames.len() + 1
    &&& forall|i: int|
        #![trigger frames[i]]
        0 <= i < frames.len() ==> exists|d: Seq<u8>| #[trigger]
            ChaChaSeal::seals(states[i], frames[i], states[i + 1], Ok(d))
}

/// One end never seals two datagrams under the same nonce, however many it seals.
pub proof fn law_nonces_never_repeat(
    states: Seq<ChaChaSeal>,
    frames: Seq<Seq<u8>>,
    i: int,
    j: int,
)
    requires
        sealing_run(states, frames),
        0 <= i < j < frames.len(),
    ensures
        states[i].keyed_as(states[j]),
        nonce_bytes(states[i].sends(), states[i + 1].sent()) != nonce_bytes(
            states[j].sends(),
            states[j + 1].sent(),
        ),
{
    lemma_sent_grows(states, frames, i, j);
    let fj = frames[j];
    let fi = frames[i];
    law_nonces_are_distinct(
        states[i].sends(),
        states[i + 1].sent(),
        states[j].sends(),
        states[j + 1].sent(),
    );
}

proof fn lemma_sent_grows(states: Seq<ChaChaSeal>, frames: Seq<Seq<u8>>, i: int, j: int)
    requires
        sealing_run(states, frames),
        0 <= i <= j <= frames.len(),
    ensures
        states[i].keyed_as(states[j]),
        states[j].sent() == states[i].sent() + (j - i),
    decreases j - i,
{
    if i < j {
        lemma_sent_grows(states, frames, i, j - 1);
        let f = frames[j - 1];
    }
}

/// After any run the window refuses a counter exactly where it was offered before, or where one
/// was offered that is 64 or more ahead of it.
pub proof fn law_window_is_64_wide(
    windows: Seq<ReplayWindow>,
    offered: Seq<u64>,
    counter: u64,
)
    requires
        window_run(windows, offered),
    ensures
        windows.last().refuses(counter) <==> offered.contains(counter) || exists|k: int|
            0 <= k < offered.len() && #[trigger] offered[k] >= counter + 64,
{
    law_window_refuses_seen_and_old(windows, offered, counter);
    lemma_highest_of(offered, (counter + 64) as int);
}

proof fn lemma_highest_of(offered: Seq<u64>, bound: int)
    requires
        bound > 0,
    ensures
        highest_of(0, offered) >= bound <==> exists|k: int|
            0 <= k < offered.len() && #[trigger] offered[k] >= bound,
    decreases offered.len(),
{
    if offered.len() > 0 {
        let rest = offered.drop_last();
        let n = offered.len() - 1;
        lemma_highest_of(rest, bound);
        if exists|k: int| 0 <= k < rest.len() && #[trigger] rest[k] >= bound {
            let k = choose|k: int| 0 <= k < rest.len() && #[trigger] rest[k] >= bound;
            assert(offered[k] >= bound);
        }
        if exists|k: int| 0 <= k < offered.len() && #[trigger] offered[k] >= bound {
            let k = choose|k: int| 0 <= k < offered.len() && #[trigger] offered[k] >= bound;
            if k < n {
                assert(rest[k] >= bound);
            }
        }
        if offered.last() >= bound {
            assert(offered[n] >= bound);
        }
    }
}

/// The two directions are each other's opposite.
pub proof fn law_directions(d: Direction)
    ensures
        d.other() != d,
        d.other().other() == d,
{
}

/// The byte of a nonce that tells the directions apart.
pub open spec fn direction_byte(d: Direction) -> u8 {
    if d == Direction::ClientToServer {
        1
    } else {
        2
    }
}

/// A nonce, byte by byte: three zeros, the byte of the direction, the counter in eight bytes.
pub proof fn law_nonce_layout(dir: Direction, counter: u64)
    ensures
        nonce_bytes(dir, counter).len() == 12,
        nonce_bytes(dir, counter).take(4) == seq![0u8, 0u8, 0u8, direction_byte(dir)],
        bytes::be_value(nonce_bytes(dir, counter).skip(4)) == counter,
{
    bytes::lemma_be_spans();
    bytes::lemma_be_bytes_len(dir.code(), 4);
    bytes::lemma_be_bytes_len(counter as nat, 8);
    bytes::lemma_be_value_of_bytes(counter as nat, 8);
    let n = nonce_bytes(dir, counter);
    reveal_with_fuel(bytes::be_bytes, 5);
    assert(n.take(4) =~= seq![0u8, 0u8, 0u8, direction_byte(dir)]);
    assert(n.skip(4) =~= bytes::be_bytes(counter as nat, 8));
}

/// Whether `datagram` is `frame`, sealed under `key` for direction `dir` with the number that the
/// datagram starts with.
pub open spec fn carries_sealed(
    key: Seq<u8>,
    dir: Direction,
    datagram: Seq<u8>,
    frame: Seq<u8>,
) -> bool {
    &&& frame.len() == 1200
    &&& datagram.skip(8) == crypto::chacha20poly1305_sealed(
        key,
        seq![0u8, 0u8, 0u8, direction_byte(dir)] + datagram.take(8),
        frame,
    )
}

/// What sealing makes of a frame: 1224 bytes, the number of the datagram in the first eight, one
/// more than the number before, and behind it the frame, sealed under the sender's key for the
/// sender's direction with that number. It fails only once no number is left.
pub proof fn law_sealing(
    before: ChaChaSeal,
    frame: Seq<u8>,
    after: ChaChaSeal,
    r: Result<Seq<u8>, TransportError>,
)
    requires
        frame.len() == 1200,
        ChaChaSeal::seals(before, frame, after, r),
    ensures
        r is Err <==> before.sent() == 0xffff_ffff_ffff_ffff,
        r is Err ==> r->Err_0 == TransportError::CounterExhausted && after == before,
        r matches Ok(d) ==> {
            &&& d.len() == 1224
            &&& bytes::be_value(d.take(8)) == before.sent() + 1
            &&& carries_sealed(before.send_key(), before.sends(), d, frame)
            &&& after.sent() == before.sent() + 1
            &&& after.window() == before.window()
            &&& after.send_key() == before.send_key() && after.recv_key() == before.recv_key()
            &&& after.sends() == before.sends() && after.receives() == before.receives()
        },
{
    if r is Ok {
        let d = r->Ok_0;
        let n = after.sent();
        lemma_claimed_number(before, n, d);
        bytes::lemma_be_bytes_len(n as nat, 8);
        bytes::lemma_be_spans();
        bytes::lemma_be_value_of_bytes(n as nat, 8);
        assert(d.take(8) =~= bytes::be_bytes(n as nat, 8));
        lemma_nonce_parts(before.sends(), d);
        assert(d.skip(8) =~= crypto::chacha20poly1305_sealed(
            before.send_key(),
            nonce_bytes(before.sends(), n),
            frame,
        ));
    }
}

/// The nonce of a datagram is made of the direction and the bytes that the datagram starts with.
proof fn lemma_nonce_parts(dir: Direction, datagram: Seq<u8>)
    requires
        datagram.len() >= 8,
    ensures
        nonce_bytes(dir, ChaChaSeal::claimed(datagram)) == seq![
            0u8,
            0u8,
            0u8,
            direction_byte(dir),
        ] + datagram.take(8),
{
    let c = ChaChaSeal::claimed(datagram);
    bytes::law_bytes_and_numbers(datagram.take(8));
    bytes::lemma_be_spans();
    law_nonce_layout(dir, c);
    bytes::lemma_be_bytes_len(dir.code(), 4);
    let n = nonce_bytes(dir, c);
    assert(n.skip(4) =~= bytes::be_bytes(c as nat, 8));
    assert(n =~= n.take(4) + n.skip(4));
}

/// What opening makes of a datagram. One that is not 1224 bytes long, or that was not sealed under
/// the receiver's key for the direction it receives, or whose number the window refuses, is
/// dropped for that reason, in this order, and changes nothing; any other opens to the frame that
/// was sealed, and its number is remembered.
pub proof fn law_opening(
    before: ChaChaSeal,
    datagram: Seq<u8>,
    after: ChaChaSeal,
    r: Result<Seq<u8>, TransportError>,
    frame: Seq<u8>,
)
    requires
        ChaChaSeal::opens(before, datagram, after, r),
    ensures
        ({
            let number = ChaChaSeal::claimed(datagram);
            &&& datagram.len() != 1224 ==> r == Err::<Seq<u8>, TransportError>(
                TransportError::WrongDatagramLength { got: datagram.len() as usize },
            )
            &&& r is Err ==> after == before
            &&& datagram.len() == 1224 && carries_sealed(
                before.recv_key(),
                before.receives(),
                datagram,
                frame,
            ) && !before.window().refuses(number) ==> r == Ok::<Seq<u8>, TransportError>(frame)
            &&& datagram.len() == 1224 && carries_sealed(
                before.recv_key(),
                before.receives(),
                datagram,
                frame,
            ) && before.window().refuses(number) ==> r == Err::<Seq<u8>, TransportError>(
                TransportError::Replay { counter: number },
            )
            &&& r matches Ok(f) ==> {
                &&& datagram.len() == 1224
                &&& carries_sealed(before.recv_key(), before.receives(), datagram, f)
                &&& number == bytes::be_value(datagram.take(8))
                &&& after.window().refuses(number)
                &&& after.sent() == before.sent()
                &&& after.send_key() == before.send_key() && after.recv_key() == before.recv_key()
                &&& after.sends() == before.sends() && after.receives() == before.receives()
            }
            &&& r matches Err(TransportError::OpenFailed) ==> !carries_sealed(
                before.recv_key(),
                before.receives(),
                datagram,
                frame,
            )
            &&& r matches Err(e) ==> e is WrongDatagramLength || e is OpenFailed || e is Replay
        }),
{
    if datagram.len() == 1224 {
        lemma_nonce_parts(before.receives(), datagram);
        bytes::lemma_be_value_bound(datagram.take(8));
        bytes::lemma_be_spans();
        assert(before.authentic(datagram, frame) <==> carries_sealed(
            before.recv_key(),
            before.receives(),
            datagram,
            frame,
        ));
        if r is Ok {
            assert(before.authentic(datagram, r->Ok_0));
        }
    }
}

} // verus!
