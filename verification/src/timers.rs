//! Per-machine timers.
//!
//! Maybenot allows one pending action timer per machine, and a new action for that machine
//! replaces the pending one. Keeping them in a map keyed by machine, rather than in a list of
//! pending actions, is what makes the replacement automatic instead of a rule that somebody has
//! to remember.

use std::collections::HashMap;

use vstd::prelude::*;

use crate::time::{Duration, Instant};

verus! {

#[derive(Clone, Copy, Debug, PartialEq, Eq, Structural)]
pub struct Padding {
    pub at: Instant,
    pub bypass: bool,
    pub replace: bool,
}

#[derive(Clone, Copy, Debug, PartialEq, Eq, Structural)]
pub struct Block {
    pub at: Instant,
    pub duration: Duration,
    pub bypass: bool,
}

/// What becomes due at some time.
pub trait Due: Copy {
    spec fn due_at(self) -> Instant;

    fn at(&self) -> (t: Instant)
        ensures
            t == self.due_at(),
    ;
}

impl Due for Padding {
    open spec fn due_at(self) -> Instant {
        self.at
    }

    fn at(&self) -> (t: Instant) {
        self.at
    }
}

impl Due for Block {
    open spec fn due_at(self) -> Instant {
        self.at
    }

    fn at(&self) -> (t: Instant) {
        self.at
    }
}

impl Due for Instant {
    open spec fn due_at(self) -> Instant {
        self
    }

    fn at(&self) -> (t: Instant) {
        *self
    }
}

/// The entries of `m` that are not due at `now`.
pub open spec fn remaining<T: Due>(m: Map<usize, T>, now: Instant) -> Map<usize, T> {
    m.restrict(Set::new(|k: usize| m.contains_key(k) && m[k].due_at().nanos > now.nanos))
}

/// Whether `list` holds the entries of `m` that are due at `now`, each once, in some order.
pub open spec fn lists_due<T: Due>(list: Seq<(usize, T)>, m: Map<usize, T>, now: Instant) -> bool {
    &&& forall|i: int|
        0 <= i < list.len() ==> {
            let e = #[trigger] list[i];
            m.contains_key(e.0) && m[e.0] == e.1 && e.1.due_at().nanos <= now.nanos
        }
    &&& forall|i: int, j: int|
        0 <= i < j < list.len() ==> (#[trigger] list[i]).0 != (#[trigger] list[j]).0
    &&& forall|k: usize| #[trigger]
        m.contains_key(k) && m[k].due_at().nanos <= now.nanos ==> exists|i: int|
            0 <= i < list.len() && (#[trigger] list[i]).0 == k
}

/// Whether `k` is among the first `n` of the keys `s`.
spec fn walked(s: Seq<&usize>, n: int, k: usize) -> bool {
    exists|j: int| 0 <= j < n && *(#[trigger] s[j]) == k
}

/// Takes the entries that are due out of `map`. The order is that in which a hash map is walked,
/// which is left open.
fn drain_due<T: Due>(map: &mut HashMap<usize, T>, now: Instant) -> (out: Vec<(usize, T)>)
    ensures
        lists_due(out@, old(map)@, now),
        final(map)@ == remaining(old(map)@, now),
{
    broadcast use vstd::std_specs::hash::group_hash_axioms;

    let ghost before = map@;
    let mut ready: Vec<usize> = Vec::new();
    for k in it: map.keys()
        invariant
            map@ == before,
            it.seq().unref().to_set() == before.dom(),
            it.seq().no_duplicates(),
            forall|i: int|
                0 <= i < ready@.len() ==> before.contains_key(#[trigger] ready@[i])
                    && before[ready@[i]].due_at().nanos <= now.nanos,
            forall|i: int|
                0 <= i < ready@.len() ==> walked(it.seq(), it.index(), #[trigger] ready@[i]),
            ready@.no_duplicates(),
            forall|j: int|
                0 <= j < it.index() && before[*(#[trigger] it.seq()[j])].due_at().nanos
                    <= now.nanos ==> ready@.contains(*it.seq()[j]),
    {
        proof {
            assert(it.seq().unref()[it.index()] == *k);
            assert(it.seq().unref().contains(*k));
            assert(before.dom().contains(*k));
        }
        let ghost r0 = ready@;
        match map.get(k) {
            Some(v) => {
                if v.at().nanos <= now.nanos {
                    assert(!ready@.contains(*k)) by {
                        if ready@.contains(*k) {
                            let i = choose|i: int| 0 <= i < ready@.len() && ready@[i] == *k;
                            assert(walked(it.seq(), it.index(), ready@[i]));
                            let j = choose|j: int|
                                0 <= j < it.index() && *(#[trigger] it.seq()[j]) == ready@[i];
                            assert(it.seq()[j] == it.seq()[it.index()]);
                        }
                    }
                    ready.push(*k);
                    assert(ready@[r0.len() as int] == *k);
                }
            },
            None => {},
        }
        proof {
            assert forall|i: int| 0 <= i < ready@.len() implies walked(
                it.seq(),
                it.index() + 1,
                #[trigger] ready@[i],
            ) by {
                if i < r0.len() {
                    assert(walked(it.seq(), it.index(), r0[i]));
                } else {
                    assert(*it.seq()[it.index()] == ready@[i]);
                }
            }
            assert forall|j: int|
                0 <= j < it.index() + 1 && before[*(#[trigger] it.seq()[j])].due_at().nanos
                    <= now.nanos implies ready@.contains(*it.seq()[j]) by {
                if j < it.index() {
                    let i = choose|i: int| 0 <= i < r0.len() && r0[i] == *it.seq()[j];
                    assert(ready@[i] == *it.seq()[j]);
                }
            }
        }
    }
    proof {
        assert forall|k: usize| #[trigger]
            before.contains_key(k) && before[k].due_at().nanos <= now.nanos implies ready@.contains(
            k,
        ) by {
            assert(before.dom().contains(k));
        }
    }
    let mut out: Vec<(usize, T)> = Vec::new();
    let mut i: usize = 0;
    while i < ready.len()
        invariant
            i <= ready@.len(),
            ready@.no_duplicates(),
            forall|i: int|
                0 <= i < ready@.len() ==> before.contains_key(#[trigger] ready@[i])
                    && before[ready@[i]].due_at().nanos <= now.nanos,
            out@.len() == i,
            forall|j: int|
                0 <= j < i ==> (#[trigger] out@[j]).0 == ready@[j] && out@[j].1
                    == before[ready@[j]],
            map@ == before.remove_keys(ready@.take(i as int).to_set()),
        decreases ready@.len() - i,
    {
        let k: usize = ready[i];
        proof {
            assert(!ready@.take(i as int).contains(k)) by {
                if ready@.take(i as int).contains(k) {
                    let j = choose|j: int| 0 <= j < i && ready@.take(i as int)[j] == k;
                    assert(ready@[j] == ready@[i as int]);
                }
            }
            assert(map@.contains_key(k));
            assert(ready@.take(i + 1) =~= ready@.take(i as int).push(k));
            ready@.take(i as int).lemma_push_to_set_commute(k);
        }
        match map.remove(&k) {
            Some(v) => out.push((k, v)),
            None => {},
        }
        assert(map@ =~= before.remove_keys(ready@.take(i + 1).to_set()));
        i += 1;
    }
    proof {
        assert(ready@.take(i as int) =~= ready@);
        assert forall|k: usize| #[trigger]
            before.contains_key(k) && before[k].due_at().nanos <= now.nanos implies exists|i: int|
            0 <= i < out@.len() && (#[trigger] out@[i]).0 == k by {
            let i = choose|i: int| 0 <= i < ready@.len() && ready@[i] == k;
            assert(out@[i].0 == k);
        }
        assert(map@ =~= remaining(before, now));
    }
    out
}

/// Whether `t` is the earliest time at which an entry of `m` becomes due, `None` standing for no
/// entry at all.
pub open spec fn is_earliest<T: Due>(t: Option<Instant>, m: Map<usize, T>) -> bool {
    match t {
        None => forall|k: usize| !#[trigger] m.contains_key(k),
        Some(t) => {
            &&& exists|k: usize| #[trigger] m.contains_key(k) && m[k].due_at() == t
            &&& forall|k: usize| #[trigger]
                m.contains_key(k) ==> t.nanos <= m[k].due_at().nanos
        },
    }
}

fn earliest<T: Due>(map: &HashMap<usize, T>) -> (t: Option<Instant>)
    ensures
        is_earliest(t, map@),
{
    broadcast use vstd::std_specs::hash::group_hash_axioms;

    let mut t: Option<Instant> = None;
    for k in it: map.keys()
        invariant
            it.seq().unref().to_set() == map@.dom(),
            t is None ==> it.index() == 0,
            t matches Some(t) ==> {
                &&& exists|k: usize| #[trigger] map@.contains_key(k) && map@[k].due_at() == t
                &&& forall|j: int|
                    0 <= j < it.index() ==> t.nanos <= map@[*(#[trigger] it.seq()[j])].due_at().nanos
            },
    {
        proof {
            assert(it.seq().unref()[it.index()] == *k);
            assert(it.seq().unref().contains(*k));
            assert(map@.dom().contains(*k));
        }
        match map.get(k) {
            Some(v) => {
                let at = v.at();
                let sooner = match t {
                    None => true,
                    Some(t) => at.nanos < t.nanos,
                };
                if sooner {
                    t = Some(at);
                    assert(map@.contains_key(*k) && map@[*k].due_at() == at);
                }
            },
            None => {},
        }
    }
    proof {
        assert forall|k: usize| #[trigger] map@.contains_key(k) implies t is Some
            && t->Some_0.nanos <= map@[k].due_at().nanos by {
            assert(map@.dom().contains(k));
        }
    }
    t
}

/// The earlier of two times.
fn sooner(a: Option<Instant>, b: Option<Instant>) -> (t: Option<Instant>)
    ensures
        t == match (a, b) {
            (None, _) => b,
            (_, None) => a,
            (Some(x), Some(y)) => if y.nanos < x.nanos {
                b
            } else {
                a
            },
        },
{
    match (a, b) {
        (None, b) => b,
        (a, None) => a,
        (Some(x), Some(y)) => if y.nanos < x.nanos {
            Some(y)
        } else {
            Some(x)
        },
    }
}

/// The pending timers: at most one padding, one block and one internal timer per machine.
pub struct Timers {
    padding: HashMap<usize, Padding>,
    block: HashMap<usize, Block>,
    internal: HashMap<usize, Instant>,
}

/// What the timers of all machines are at one moment.
#[verifier::ext_equal]
pub struct TimersState {
    pub padding: Map<usize, Padding>,
    pub block: Map<usize, Block>,
    pub internal: Map<usize, Instant>,
}

impl TimersState {
    /// Whether no machine has more than one pending action.
    pub open spec fn one_action_each(self) -> bool {
        forall|m: usize| !(#[trigger] self.padding.contains_key(m) && self.block.contains_key(m))
    }

    /// With `p` as the pending action of `machine`.
    pub open spec fn with_padding(self, machine: usize, p: Padding) -> TimersState {
        TimersState {
            padding: self.padding.insert(machine, p),
            block: self.block.remove(machine),
            ..self
        }
    }

    /// With `b` as the pending action of `machine`.
    pub open spec fn with_block(self, machine: usize, b: Block) -> TimersState {
        TimersState {
            padding: self.padding.remove(machine),
            block: self.block.insert(machine, b),
            ..self
        }
    }

    /// With the internal timer of `machine` set to `at`.
    pub open spec fn with_internal(self, machine: usize, at: Instant) -> TimersState {
        TimersState { internal: self.internal.insert(machine, at), ..self }
    }

    /// Without the pending action of `machine`.
    pub open spec fn without_action(self, machine: usize) -> TimersState {
        TimersState {
            padding: self.padding.remove(machine),
            block: self.block.remove(machine),
            ..self
        }
    }

    /// Without the internal timer of `machine`.
    pub open spec fn without_internal(self, machine: usize) -> TimersState {
        TimersState { internal: self.internal.remove(machine), ..self }
    }

    /// Whether `t` is when the first of all timers becomes due, `None` standing for no timer.
    pub open spec fn next(self, t: Option<Instant>) -> bool {
        match t {
            None => {
                &&& forall|k: usize| !#[trigger] self.padding.contains_key(k)
                &&& forall|k: usize| !#[trigger] self.block.contains_key(k)
                &&& forall|k: usize| !#[trigger] self.internal.contains_key(k)
            },
            Some(t) => {
                &&& {
                    ||| exists|k: usize| #[trigger]
                        self.padding.contains_key(k) && self.padding[k].at == t
                    ||| exists|k: usize| #[trigger]
                        self.block.contains_key(k) && self.block[k].at == t
                    ||| exists|k: usize| #[trigger]
                        self.internal.contains_key(k) && self.internal[k] == t
                }
                &&& forall|k: usize| #[trigger]
                    self.padding.contains_key(k) ==> t.nanos <= self.padding[k].at.nanos
                &&& forall|k: usize| #[trigger]
                    self.block.contains_key(k) ==> t.nanos <= self.block[k].at.nanos
                &&& forall|k: usize| #[trigger]
                    self.internal.contains_key(k) ==> t.nanos <= self.internal[k].nanos
            },
        }
    }
}

impl View for Timers {
    type V = TimersState;

    closed spec fn view(&self) -> TimersState {
        TimersState {
            padding: self.padding@,
            block: self.block@,
            internal: self.internal@,
        }
    }
}

impl Default for Timers {
    fn default() -> (t: Timers)
        ensures
            t@ == (TimersState {
                padding: Map::empty(),
                block: Map::empty(),
                internal: Map::empty(),
            }),
    {
        Timers { padding: HashMap::new(), block: HashMap::new(), internal: HashMap::new() }
    }
}

impl Timers {
    /// Makes padding the pending action of `machine`, in place of what was pending.
    pub fn schedule_padding(&mut self, machine: usize, p: Padding)
        ensures
            final(self)@ == old(self)@.with_padding(machine, p),
    {
        broadcast use vstd::std_specs::hash::group_hash_axioms;

        self.block.remove(&machine);
        self.padding.insert(machine, p);
    }

    /// Makes a block the pending action of `machine`, in place of what was pending.
    pub fn schedule_block(&mut self, machine: usize, b: Block)
        ensures
            final(self)@ == old(self)@.with_block(machine, b),
    {
        broadcast use vstd::std_specs::hash::group_hash_axioms;

        self.padding.remove(&machine);
        self.block.insert(machine, b);
    }

    pub fn schedule_internal(&mut self, machine: usize, at: Instant)
        ensures
            final(self)@ == old(self)@.with_internal(machine, at),
    {
        broadcast use vstd::std_specs::hash::group_hash_axioms;

        self.internal.insert(machine, at);
    }

    pub fn cancel(&mut self, machine: usize)
        ensures
            final(self)@ == old(self)@.without_action(machine),
    {
        broadcast use vstd::std_specs::hash::group_hash_axioms;

        self.padding.remove(&machine);
        self.block.remove(&machine);
    }

    pub fn cancel_internal(&mut self, machine: usize)
        ensures
            final(self)@ == old(self)@.without_internal(machine),
    {
        broadcast use vstd::std_specs::hash::group_hash_axioms;

        self.internal.remove(&machine);
    }

    /// Takes out the padding that is due, in no particular order.
    pub fn due_padding(&mut self, now: Instant) -> (due: Vec<(usize, Padding)>)
        ensures
            lists_due(due@, old(self)@.padding, now),
            final(self)@ == (TimersState {
                padding: remaining(old(self)@.padding, now),
                ..old(self)@
            }),
    {
        drain_due(&mut self.padding, now)
    }

    /// Takes out the blocks that are due, in no particular order.
    pub fn due_blocks(&mut self, now: Instant) -> (due: Vec<(usize, Block)>)
        ensures
            lists_due(due@, old(self)@.block, now),
            final(self)@ == (TimersState {
                block: remaining(old(self)@.block, now),
                ..old(self)@
            }),
    {
        drain_due(&mut self.block, now)
    }

    /// Takes out the internal timers that are due, in no particular order.
    pub fn due_internal(&mut self, now: Instant) -> (due: Vec<(usize, Instant)>)
        ensures
            lists_due(due@, old(self)@.internal, now),
            final(self)@ == (TimersState {
                internal: remaining(old(self)@.internal, now),
                ..old(self)@
            }),
    {
        drain_due(&mut self.internal, now)
    }

    /// When the loop next has something to do, so that it can sleep instead of spinning.
    pub fn next_deadline(&self) -> (t: Option<Instant>)
        ensures
            self@.next(t),
    {
        let p = earliest(&self.padding);
        let b = earliest(&self.block);
        let i = earliest(&self.internal);
        let t = sooner(sooner(p, b), i);
        proof {
            let s = self@;
            if t is Some {
                let at = t->Some_0;
                if p == t {
                    let k = choose|k: usize| #[trigger]
                        s.padding.contains_key(k) && s.padding[k].due_at() == at;
                    assert(s.padding.contains_key(k) && s.padding[k].at == at);
                } else if b == t {
                    let k = choose|k: usize| #[trigger]
                        s.block.contains_key(k) && s.block[k].due_at() == at;
                    assert(s.block.contains_key(k) && s.block[k].at == at);
                } else {
                    let k = choose|k: usize| #[trigger]
                        s.internal.contains_key(k) && s.internal[k].due_at() == at;
                    assert(s.internal.contains_key(k) && s.internal[k] == at);
                }
            }
            assert(is_earliest(p, s.padding));
            assert(is_earliest(b, s.block));
            assert(is_earliest(i, s.internal));
            assert forall|k: usize| #[trigger] s.padding.contains_key(k) implies t is Some
                && t->Some_0.nanos <= s.padding[k].at.nanos by {
                assert(t->Some_0.nanos <= s.padding[k].due_at().nanos);
            }
            assert forall|k: usize| #[trigger] s.block.contains_key(k) implies t is Some
                && t->Some_0.nanos <= s.block[k].at.nanos by {
                assert(t->Some_0.nanos <= s.block[k].due_at().nanos);
            }
            assert forall|k: usize| #[trigger] s.internal.contains_key(k) implies t is Some
                && t->Some_0.nanos <= s.internal[k].nanos by {
                assert(t->Some_0.nanos <= s.internal[k].due_at().nanos);
            }
        }
        t
    }
}

/// A new action for a machine replaces the pending one, whichever kinds the two are of, and leaves
/// every other machine's action alone.
pub proof fn law_new_action_replaces_pending(
    t: TimersState,
    machine: usize,
    p: Padding,
    b: Block,
    other: usize,
)
    requires
        t.one_action_each(),
    ensures
        t.with_padding(machine, p).one_action_each(),
        t.with_block(machine, b).one_action_each(),
        t.with_padding(machine, p).with_block(machine, b) == t.with_block(machine, b),
        t.with_block(machine, b).with_padding(machine, p) == t.with_padding(machine, p),
        other != machine ==> t.with_padding(machine, p).padding.contains_key(other)
            == t.padding.contains_key(other) && t.with_padding(machine, p).block.contains_key(other)
            == t.block.contains_key(other),
        other != machine ==> t.with_block(machine, b).padding.contains_key(other)
            == t.padding.contains_key(other) && t.with_block(machine, b).block.contains_key(other)
            == t.block.contains_key(other),
{
    assert(t.with_padding(machine, p).with_block(machine, b) =~= t.with_block(machine, b));
    assert(t.with_block(machine, b).with_padding(machine, p) =~= t.with_padding(machine, p));
}

/// Nothing that the timers can do gives a machine a second pending action.
pub proof fn law_one_action_each_is_kept(t: TimersState, machine: usize, at: Instant, now: Instant)
    requires
        t.one_action_each(),
    ensures
        t.with_internal(machine, at).one_action_each(),
        t.without_action(machine).one_action_each(),
        t.without_internal(machine).one_action_each(),
        (TimersState { padding: remaining(t.padding, now), ..t }).one_action_each(),
        (TimersState { block: remaining(t.block, now), ..t }).one_action_each(),
        (TimersState { internal: remaining(t.internal, now), ..t }).one_action_each(),
{
}

/// What has been taken out as due does not come out again, and what was not due is still there.
pub proof fn law_due_entries_come_out_once<T: Due>(
    m: Map<usize, T>,
    now: Instant,
    list: Seq<(usize, T)>,
    again: Seq<(usize, T)>,
)
    requires
        lists_due(list, m, now),
        lists_due(again, remaining(m, now), now),
    ensures
        again.len() == 0,
        forall|k: usize| #[trigger]
            m.contains_key(k) && m[k].due_at().nanos > now.nanos ==> remaining(m, now).contains_key(
                k,
            ) && remaining(m, now)[k] == m[k],
{
    if again.len() > 0 {
        let e = again[0];
    }
}

/// The padding that are taken out as due are those whose time has come, each once and as it was; those
/// whose time has not come stay as they are.
pub proof fn law_due_paddings(
    list: Seq<(usize, Padding)>,
    m: Map<usize, Padding>,
    now: Instant,
    k: usize,
    i: int,
    j: int,
)
    requires
        lists_due(list, m, now),
    ensures
        (exists|n: int| 0 <= n < list.len() && (#[trigger] list[n]).0 == k) <==> m.contains_key(k)
            && m[k].at.nanos <= now.nanos,
        0 <= i < list.len() ==> list[i].1 == m[list[i].0],
        0 <= i < j < list.len() ==> list[i].0 != list[j].0,
        remaining(m, now).contains_key(k) <==> m.contains_key(k) && m[k].at.nanos > now.nanos,
        remaining(m, now).contains_key(k) ==> remaining(m, now)[k] == m[k],
{
    if m.contains_key(k) && m[k].at.nanos <= now.nanos {
        assert(m[k].due_at().nanos <= now.nanos);
    }
}

/// The blocks that are taken out as due are those whose time has come, each once and as it was; those
/// whose time has not come stay as they are.
pub proof fn law_due_blocks(
    list: Seq<(usize, Block)>,
    m: Map<usize, Block>,
    now: Instant,
    k: usize,
    i: int,
    j: int,
)
    requires
        lists_due(list, m, now),
    ensures
        (exists|n: int| 0 <= n < list.len() && (#[trigger] list[n]).0 == k) <==> m.contains_key(k)
            && m[k].at.nanos <= now.nanos,
        0 <= i < list.len() ==> list[i].1 == m[list[i].0],
        0 <= i < j < list.len() ==> list[i].0 != list[j].0,
        remaining(m, now).contains_key(k) <==> m.contains_key(k) && m[k].at.nanos > now.nanos,
        remaining(m, now).contains_key(k) ==> remaining(m, now)[k] == m[k],
{
    if m.contains_key(k) && m[k].at.nanos <= now.nanos {
        assert(m[k].due_at().nanos <= now.nanos);
    }
}

/// The internal timers that are taken out as due are those whose time has come, each once and as it was; those
/// whose time has not come stay as they are.
pub proof fn law_due_internal_timers(
    list: Seq<(usize, Instant)>,
    m: Map<usize, Instant>,
    now: Instant,
    k: usize,
    i: int,
    j: int,
)
    requires
        lists_due(list, m, now),
    ensures
        (exists|n: int| 0 <= n < list.len() && (#[trigger] list[n]).0 == k) <==> m.contains_key(k)
            && m[k].nanos <= now.nanos,
        0 <= i < list.len() ==> list[i].1 == m[list[i].0],
        0 <= i < j < list.len() ==> list[i].0 != list[j].0,
        remaining(m, now).contains_key(k) <==> m.contains_key(k) && m[k].nanos > now.nanos,
        remaining(m, now).contains_key(k) ==> remaining(m, now)[k] == m[k],
{
    if m.contains_key(k) && m[k].nanos <= now.nanos {
        assert(m[k].due_at().nanos <= now.nanos);
    }
}

/// What a machine has pending and when its internal timer runs out, once one thing has been
/// scheduled or cancelled: that one thing, and all else as it was.
pub proof fn law_scheduling(
    t: TimersState,
    machine: usize,
    p: Padding,
    b: Block,
    at: Instant,
    k: usize,
)
    ensures
        t.with_padding(machine, p).padding == t.padding.insert(machine, p),
        !t.with_padding(machine, p).block.contains_key(machine),
        t.with_block(machine, b).block == t.block.insert(machine, b),
        !t.with_block(machine, b).padding.contains_key(machine),
        t.with_padding(machine, p).internal == t.internal,
        t.with_block(machine, b).internal == t.internal,
        t.with_internal(machine, at).internal == t.internal.insert(machine, at),
        t.with_internal(machine, at).padding == t.padding,
        t.with_internal(machine, at).block == t.block,
        !t.without_action(machine).padding.contains_key(machine),
        !t.without_action(machine).block.contains_key(machine),
        t.without_action(machine).internal == t.internal,
        !t.without_internal(machine).internal.contains_key(machine),
        t.without_internal(machine).padding == t.padding,
        t.without_internal(machine).block == t.block,
        k != machine ==> {
            &&& t.with_padding(machine, p).block.contains_key(k) == t.block.contains_key(k)
            &&& t.with_padding(machine, p).block[k] == t.block[k]
            &&& t.with_block(machine, b).padding.contains_key(k) == t.padding.contains_key(k)
            &&& t.with_block(machine, b).padding[k] == t.padding[k]
            &&& t.without_action(machine).padding.contains_key(k) == t.padding.contains_key(k)
            &&& t.without_action(machine).padding[k] == t.padding[k]
            &&& t.without_action(machine).block.contains_key(k) == t.block.contains_key(k)
            &&& t.without_action(machine).block[k] == t.block[k]
            &&& t.without_internal(machine).internal.contains_key(k) == t.internal.contains_key(k)
            &&& t.without_internal(machine).internal[k] == t.internal[k]
        },
{
}

/// The next deadline comes no later than any timer of any machine, it is the time of one of them,
/// and there is none only where no machine has a timer.
pub proof fn law_next_deadline_is_the_first(t: TimersState, next: Option<Instant>, k: usize)
    requires
        t.next(next),
    ensures
        t.padding.contains_key(k) ==> next is Some && next->Some_0.nanos <= t.padding[k].at.nanos,
        t.block.contains_key(k) ==> next is Some && next->Some_0.nanos <= t.block[k].at.nanos,
        t.internal.contains_key(k) ==> next is Some && next->Some_0.nanos <= t.internal[k].nanos,
        next matches Some(n) ==> exists|m: usize| #[trigger] has_timer_at(t, m, n),
{
    if next is Some {
        let n = next->Some_0;
        if exists|m: usize| #[trigger] t.padding.contains_key(m) && t.padding[m].at == n {
            let m = choose|m: usize| #[trigger] t.padding.contains_key(m) && t.padding[m].at == n;
            assert(has_timer_at(t, m, n));
        } else if exists|m: usize| #[trigger] t.block.contains_key(m) && t.block[m].at == n {
            let m = choose|m: usize| #[trigger] t.block.contains_key(m) && t.block[m].at == n;
            assert(has_timer_at(t, m, n));
        } else {
            let m = choose|m: usize| #[trigger] t.internal.contains_key(m) && t.internal[m] == n;
            assert(has_timer_at(t, m, n));
        }
    }
}

/// Whether machine `m` has a timer that is due at `n`.
pub open spec fn has_timer_at(t: TimersState, m: usize, n: Instant) -> bool {
    ||| t.padding.contains_key(m) && t.padding[m].at == n
    ||| t.block.contains_key(m) && t.block[m].at == n
    ||| t.internal.contains_key(m) && t.internal[m] == n
}

} // verus!
