//! Byte strings in dictionary order, and lists of them sorted.

use vstd::prelude::*;
use vstd::relations::*;
use vstd::seq_lib::*;
use vstd::utf8::*;

use crate::bytes;

verus! {

/// Dictionary order: the first byte that differs decides, and a string comes before every
/// string that continues it.
pub open spec fn at_most(a: Seq<u8>, b: Seq<u8>) -> bool
    decreases a.len(),
{
    if a.len() == 0 {
        true
    } else if b.len() == 0 {
        false
    } else if a[0] != b[0] {
        a[0] < b[0]
    } else {
        at_most(a.drop_first(), b.drop_first())
    }
}

pub open spec fn dictionary() -> spec_fn(Seq<u8>, Seq<u8>) -> bool {
    |a: Seq<u8>, b: Seq<u8>| at_most(a, b)
}

/// `list` in dictionary order.
pub open spec fn sorted(list: Seq<Seq<u8>>) -> Seq<Seq<u8>> {
    list.sort_by(dictionary())
}

proof fn lemma_reflexive(a: Seq<u8>)
    ensures
        at_most(a, a),
    decreases a.len(),
{
    if a.len() > 0 {
        lemma_reflexive(a.drop_first());
    }
}

proof fn lemma_antisymmetric(a: Seq<u8>, b: Seq<u8>)
    requires
        at_most(a, b),
        at_most(b, a),
    ensures
        a == b,
    decreases a.len(),
{
    if a.len() > 0 && b.len() > 0 {
        lemma_antisymmetric(a.drop_first(), b.drop_first());
        assert(a =~= seq![a[0]] + a.drop_first());
        assert(b =~= seq![b[0]] + b.drop_first());
    } else {
        assert(a =~= b);
    }
}

proof fn lemma_transitive(a: Seq<u8>, b: Seq<u8>, c: Seq<u8>)
    requires
        at_most(a, b),
        at_most(b, c),
    ensures
        at_most(a, c),
    decreases a.len(),
{
    if a.len() > 0 && a[0] == b[0] && b[0] == c[0] {
        lemma_transitive(a.drop_first(), b.drop_first(), c.drop_first());
    }
}

proof fn lemma_connected(a: Seq<u8>, b: Seq<u8>)
    ensures
        at_most(a, b) || at_most(b, a),
    decreases a.len(),
{
    if a.len() > 0 && b.len() > 0 {
        lemma_connected(a.drop_first(), b.drop_first());
    }
}

/// Dictionary order is a total order.
pub proof fn lemma_dictionary_is_total()
    ensures
        total_ordering(dictionary()),
{
    let leq = dictionary();
    assert forall|a: Seq<u8>| #[trigger] leq(a, a) by {
        lemma_reflexive(a);
    }
    assert forall|a: Seq<u8>, b: Seq<u8>| #[trigger] leq(a, b) && #[trigger] leq(b, a) implies a
        == b by {
        lemma_antisymmetric(a, b);
    }
    assert forall|a: Seq<u8>, b: Seq<u8>, c: Seq<u8>| #[trigger]
        leq(a, b) && #[trigger] leq(b, c) implies leq(a, c) by {
        lemma_transitive(a, b, c);
    }
    assert forall|a: Seq<u8>, b: Seq<u8>| #[trigger] leq(a, b) || #[trigger] leq(b, a) by {
        lemma_connected(a, b);
    }
}

/// Two lists with the same members, counted, are the same list once sorted.
pub proof fn lemma_sorted_same_members(a: Seq<Seq<u8>>, b: Seq<Seq<u8>>)
    requires
        a.to_multiset() == b.to_multiset(),
    ensures
        sorted(a) == sorted(b),
{
    lemma_dictionary_is_total();
    a.lemma_sort_by_ensures(dictionary());
    b.lemma_sort_by_ensures(dictionary());
    lemma_sorted_unique(sorted(a), sorted(b), dictionary());
}

/// Sorting keeps the members and how often each occurs.
pub proof fn lemma_sorted_members(a: Seq<Seq<u8>>)
    ensures
        sorted(a).to_multiset() == a.to_multiset(),
{
    lemma_dictionary_is_total();
    a.lemma_sort_by_ensures(dictionary());
}

pub fn precedes(a: &[u8], b: &[u8]) -> (r: bool)
    ensures
        r == at_most(a@, b@),
{
    let mut i: usize = 0;
    assert(a@.skip(0) =~= a@);
    assert(b@.skip(0) =~= b@);
    while i < a.len() && i < b.len()
        invariant
            i <= a@.len(),
            i <= b@.len(),
            at_most(a@, b@) == at_most(a@.skip(i as int), b@.skip(i as int)),
        decreases a@.len() - i,
    {
        if a[i] != b[i] {
            return a[i] < b[i];
        }
        assert(a@.skip(i as int).drop_first() =~= a@.skip(i + 1));
        assert(b@.skip(i as int).drop_first() =~= b@.skip(i + 1));
        i += 1;
    }
    i == a.len()
}

/// The byte strings in `list`.
pub open spec fn contents(list: Seq<Vec<u8>>) -> Seq<Seq<u8>> {
    list.map_values(|v: Vec<u8>| v@)
}

fn insert_in_order(list: &mut Vec<Vec<u8>>, item: Vec<u8>)
    requires
        sorted_by(contents(old(list)@), dictionary()),
    ensures
        sorted_by(contents(final(list)@), dictionary()),
        contents(final(list)@).to_multiset() == contents(old(list)@).to_multiset().insert(item@),
{
    let ghost before = contents(list@);
    let mut at: usize = 0;
    while at < list.len() && precedes(&list[at], &item)
        invariant
            at <= list@.len(),
            contents(list@) == before,
            forall|j: int| 0 <= j < at ==> at_most(#[trigger] before[j], item@),
        decreases list@.len() - at,
    {
        assert(before[at as int] == list@[at as int]@);
        at += 1;
    }
    let ghost x = item@;
    list.insert(at, item);
    proof {
        let after = before.insert(at as int, x);
        assert(contents(list@) =~= after);
        to_multiset_insert(before, at as int, x);
        lemma_dictionary_is_total();
        let leq = dictionary();
        assert forall|i: int, j: int| 0 <= i < j < after.len() implies #[trigger] leq(
            after[i],
            after[j],
        ) by {
            if at < before.len() {
                lemma_connected(before[at as int], x);
            }
            if j == at {
                assert(after[i] == before[i]);
            } else if i == at {
                assert(after[j] == before[j - 1]);
                if j - 1 > at {
                    assert(leq(before[at as int], before[j - 1]));
                    lemma_transitive(x, before[at as int], before[j - 1]);
                }
            } else {
                let i0 = if i < at { i } else { i - 1 };
                let j0 = if j < at { j } else { j - 1 };
                assert(leq(before[i0], before[j0]));
            }
        }
    }
}

/// The strings `specs`, as bytes, in dictionary order.
pub fn sorted_bytes(specs: &[&str]) -> (out: Vec<Vec<u8>>)
    ensures
        contents(out@) == sorted(bytes_of(specs@)),
{
    let mut out: Vec<Vec<u8>> = Vec::new();
    let ghost all = bytes_of(specs@);
    let mut i: usize = 0;
    assert(contents(out@) =~= Seq::empty());
    assert(all.take(0) =~= Seq::empty());
    while i < specs.len()
        invariant
            i <= specs@.len(),
            all == bytes_of(specs@),
            sorted_by(contents(out@), dictionary()),
            contents(out@).to_multiset() == all.take(i as int).to_multiset(),
        decreases specs@.len() - i,
    {
        let mut item: Vec<u8> = Vec::new();
        bytes::extend(&mut item, specs[i].as_bytes());
        assert(item@ =~= all[i as int]);
        insert_in_order(&mut out, item);
        proof {
            to_multiset_build(all.take(i as int), all[i as int]);
            assert(all.take(i + 1) =~= all.take(i as int).push(all[i as int]));
        }
        i += 1;
    }
    proof {
        assert(all.take(i as int) =~= all);
        lemma_dictionary_is_total();
        all.lemma_sort_by_ensures(dictionary());
        lemma_sorted_unique(contents(out@), sorted(all), dictionary());
    }
    out
}

/// The UTF-8 bytes of each string.
pub open spec fn bytes_of(specs: Seq<&str>) -> Seq<Seq<u8>> {
    specs.map_values(|s: &str| encode_utf8(s@))
}

/// Whether `a` and `b` have the same bytes up to `k`.
pub open spec fn agree(a: Seq<u8>, b: Seq<u8>, k: int) -> bool {
    &&& 0 <= k <= a.len()
    &&& k <= b.len()
    &&& forall|i: int| 0 <= i < k ==> #[trigger] a[i] == b[i]
}

/// In dictionary order `a` comes no later than `b` exactly where `b` continues `a`, or the first
/// byte in which they differ is smaller in `a`.
pub proof fn law_dictionary_order(a: Seq<u8>, b: Seq<u8>)
    ensures
        at_most(a, b) <==> {
            ||| agree(a, b, a.len() as int)
            ||| exists|k: int| #[trigger]
                agree(a, b, k) && k < a.len() && k < b.len() && a[k] < b[k]
        },
    decreases a.len(),
{
    if a.len() > 0 && b.len() > 0 && a[0] == b[0] {
        let (x, y) = (a.drop_first(), b.drop_first());
        law_dictionary_order(x, y);
        if agree(x, y, x.len() as int) {
            assert forall|i: int| 0 <= i < a.len() implies #[trigger] a[i] == b[i] by {
                if i > 0 {
                    assert(x[i - 1] == y[i - 1]);
                }
            }
        }
        if exists|k: int| #[trigger]
            agree(x, y, k) && k < x.len() && k < y.len() && x[k] < y[k] {
            let k = choose|k: int| #[trigger]
                agree(x, y, k) && k < x.len() && k < y.len() && x[k] < y[k];
            assert forall|i: int| 0 <= i < k + 1 implies #[trigger] a[i] == b[i] by {
                if i > 0 {
                    assert(x[i - 1] == y[i - 1]);
                }
            }
            assert(agree(a, b, k + 1));
        }
        if agree(a, b, a.len() as int) {
            assert(agree(x, y, x.len() as int));
        }
        if exists|k: int| #[trigger]
            agree(a, b, k) && k < a.len() && k < b.len() && a[k] < b[k] {
            let k = choose|k: int| #[trigger]
                agree(a, b, k) && k < a.len() && k < b.len() && a[k] < b[k];
            assert(k > 0);
            assert(agree(x, y, k - 1));
            assert(x[k - 1] < y[k - 1]);
        }
    } else if a.len() > 0 && b.len() > 0 {
        if a[0] < b[0] {
            assert(agree(a, b, 0));
        }
        if exists|k: int| #[trigger]
            agree(a, b, k) && k < a.len() && k < b.len() && a[k] < b[k] {
            let k = choose|k: int| #[trigger]
                agree(a, b, k) && k < a.len() && k < b.len() && a[k] < b[k];
            if k > 0 {
                assert(a[0] == b[0]);
            }
        }
        if agree(a, b, a.len() as int) {
            assert(a[0] == b[0]);
        }
    }
}

/// Sorting keeps the members, each as often, and puts every one no later than those behind it.
pub proof fn law_sorted_is_in_order(list: Seq<Seq<u8>>, i: int, j: int)
    requires
        0 <= i < j < sorted(list).len(),
    ensures
        sorted(list).to_multiset() == list.to_multiset(),
        at_most(sorted(list)[i], sorted(list)[j]),
{
    lemma_sorted_members(list);
    lemma_dictionary_is_total();
    list.lemma_sort_by_ensures(dictionary());
    let leq = dictionary();
    assert(leq(sorted(list)[i], sorted(list)[j]));
}

} // verus!
