//! Byte sequences: big-endian integers, copying into a buffer, comparing.

use vstd::prelude::*;

verus! {

/// The `len` low-order base-256 digits of `n`, most significant first.
pub open spec fn be_bytes(n: nat, len: nat) -> Seq<u8>
    decreases len,
{
    if len == 0 {
        Seq::empty()
    } else {
        be_bytes(n / 256, (len - 1) as nat).push((n % 256) as u8)
    }
}

/// The number whose base-256 digits are `s`, most significant first.
pub open spec fn be_value(s: Seq<u8>) -> nat
    decreases s.len(),
{
    if s.len() == 0 {
        0
    } else {
        be_value(s.drop_last()) * 256 + s.last() as nat
    }
}

/// How many different numbers `len` bytes can hold.
pub open spec fn be_span(len: nat) -> nat
    decreases len,
{
    if len == 0 {
        1
    } else {
        256 * be_span((len - 1) as nat)
    }
}

pub proof fn lemma_be_bytes_len(n: nat, len: nat)
    ensures
        be_bytes(n, len).len() == len,
    decreases len,
{
    if len > 0 {
        lemma_be_bytes_len(n / 256, (len - 1) as nat);
    }
}

/// Decoding gives back the number that was encoded, as long as it fits in the bytes.
pub proof fn lemma_be_value_of_bytes(n: nat, len: nat)
    requires
        n < be_span(len),
    ensures
        be_value(be_bytes(n, len)) == n,
    decreases len,
{
    if len > 0 {
        assert(n / 256 < be_span((len - 1) as nat));
        lemma_be_value_of_bytes(n / 256, (len - 1) as nat);
        assert(be_bytes(n, len).drop_last() =~= be_bytes(n / 256, (len - 1) as nat));
    }
}

pub proof fn lemma_be_value_bound(s: Seq<u8>)
    ensures
        be_value(s) < be_span(s.len()),
    decreases s.len(),
{
    if s.len() > 0 {
        lemma_be_value_bound(s.drop_last());
    }
}

pub proof fn lemma_be_spans()
    ensures
        be_span(1) == 0x100,
        be_span(2) == 0x1_0000,
        be_span(4) == 0x1_0000_0000,
        be_span(8) == 0x1_0000_0000_0000_0000,
{
    reveal_with_fuel(be_span, 9);
}

/// The last `len` big-endian bytes of `n`.
pub fn be_encode(n: u64, len: usize) -> (out: Vec<u8>)
    ensures
        out@ == be_bytes(n as nat, len as nat),
        out@.len() == len,
    decreases len,
{
    if len == 0 {
        let out: Vec<u8> = Vec::new();
        assert(out@ =~= be_bytes(n as nat, 0));
        out
    } else {
        let mut out = be_encode(n / 256, len - 1);
        out.push((n % 256) as u8);
        out
    }
}

pub fn be_decode(s: &[u8]) -> (n: u64)
    requires
        s@.len() <= 8,
    ensures
        n == be_value(s@),
{
    let mut acc: u64 = 0;
    let mut i: usize = 0;
    assert(s@.take(0) =~= Seq::<u8>::empty());
    while i < s.len()
        invariant
            i <= s@.len() <= 8,
            acc == be_value(s@.take(i as int)),
        decreases s@.len() - i,
    {
        proof {
            let head = s@.take(i as int);
            let next = s@.take(i + 1);
            assert(next.drop_last() =~= head);
            lemma_be_value_bound(next);
            lemma_be_span_step((i + 1) as nat, 8);
            lemma_be_spans();
        }
        acc = acc * 256 + s[i] as u64;
        i += 1;
    }
    assert(s@.take(i as int) =~= s@);
    acc
}

proof fn lemma_be_span_step(a: nat, b: nat)
    requires
        a <= b,
    ensures
        0 < be_span(a) <= be_span(b),
    decreases b,
{
    if a < b {
        lemma_be_span_step(a, (b - 1) as nat);
    } else if b > 0 {
        lemma_be_span_step((a - 1) as nat, (b - 1) as nat);
    }
}

/// `out` with the bytes from `at` on overwritten by `src`.
pub open spec fn overwritten(out: Seq<u8>, at: int, src: Seq<u8>) -> Seq<u8> {
    out.take(at) + src + out.skip(at + src.len())
}

pub fn overwrite(out: &mut [u8], at: usize, src: &[u8])
    requires
        at + src@.len() <= old(out)@.len(),
    ensures
        final(out)@ == overwritten(old(out)@, at as int, src@),
{
    let ghost before = out@;
    let len: usize = out.len();
    let mut i: usize = 0;
    while i < src.len()
        invariant
            i <= src@.len(),
            at + src@.len() <= len,
            out@.len() == before.len() == len,
            forall|j: int| 0 <= j < before.len() ==> #[trigger] out@[j] == if at <= j < at + i {
                src@[j - at]
            } else {
                before[j]
            },
        decreases src@.len() - i,
    {
        out[at + i] = src[i];
        i += 1;
    }
    assert(out@ =~= overwritten(before, at as int, src@));
}

pub fn bytes_equal(a: &[u8], b: &[u8]) -> (same: bool)
    ensures
        same == (a@ == b@),
{
    if a.len() != b.len() {
        return false;
    }
    let mut i: usize = 0;
    while i < a.len()
        invariant
            i <= a@.len() == b@.len(),
            a@.take(i as int) =~= b@.take(i as int),
        decreases a@.len() - i,
    {
        if a[i] != b[i] {
            return false;
        }
        assert(a@.take(i + 1) =~= a@.take(i as int).push(a@[i as int]));
        assert(b@.take(i + 1) =~= b@.take(i as int).push(b@[i as int]));
        i += 1;
    }
    assert(a@.take(i as int) =~= a@);
    assert(b@.take(i as int) =~= b@);
    true
}

/// Appends `src` to `out`.
pub fn extend(out: &mut Vec<u8>, src: &[u8])
    ensures
        final(out)@ == old(out)@ + src@,
{
    let ghost before = out@;
    let mut i: usize = 0;
    while i < src.len()
        invariant
            i <= src@.len(),
            out@ =~= before + src@.take(i as int),
        decreases src@.len() - i,
    {
        out.push(src[i]);
        i += 1;
    }
    assert(src@.take(i as int) =~= src@);
}

/// The first 32 bytes of `src`, as an array.
pub fn take_32(src: &[u8]) -> (out: [u8; 32])
    requires
        src@.len() >= 32,
    ensures
        out@ == src@.take(32),
{
    let mut out = [0u8; 32];
    let mut i: usize = 0;
    while i < 32
        invariant
            i <= 32 <= src@.len(),
            forall|j: int| 0 <= j < i ==> out@[j] == src@[j],
        decreases 32 - i,
    {
        out[i] = src[i];
        i += 1;
    }
    assert(out@ =~= src@.take(32));
    out
}

/// A byte behind a number's bytes makes 256 times the number and that byte; no bytes make zero.
pub proof fn law_each_byte_counts(s: Seq<u8>, b: u8)
    ensures
        be_value(s.push(b)) == 256 * be_value(s) + b,
        be_value(Seq::empty()) == 0,
{
    assert(s.push(b).drop_last() =~= s);
}

/// The bytes of a number and the number of the bytes undo each other.
pub proof fn law_bytes_and_numbers(s: Seq<u8>)
    ensures
        be_bytes(be_value(s), s.len()) == s,
        be_value(s) < be_span(s.len()),
    decreases s.len(),
{
    lemma_be_value_bound(s);
    if s.len() > 0 {
        law_bytes_and_numbers(s.drop_last());
        let v = be_value(s);
        assert(v / 256 == be_value(s.drop_last()));
        assert(v % 256 == s.last());
        assert(be_bytes(v, s.len()) =~= s.drop_last().push(s.last()));
        assert(s.drop_last().push(s.last()) =~= s);
    } else {
        assert(be_bytes(be_value(s), 0) =~= s);
    }
}

/// A number of two bytes: its quotient by 256, then its remainder.
pub proof fn law_two_bytes(n: nat)
    requires
        n < 0x1_0000,
    ensures
        be_bytes(n, 2) == seq![(n / 256) as u8, (n % 256) as u8],
{
    reveal_with_fuel(be_bytes, 3);
    assert(be_bytes(n, 2) =~= seq![(n / 256) as u8, (n % 256) as u8]);
}

/// Overwriting changes the bytes from `at` on, as many as there are in `src`, and no others.
pub proof fn law_overwriting(out: Seq<u8>, at: int, src: Seq<u8>, i: int)
    requires
        0 <= at,
        at + src.len() <= out.len(),
        0 <= i < out.len(),
    ensures
        overwritten(out, at, src).len() == out.len(),
        at <= i < at + src.len() ==> overwritten(out, at, src)[i] == src[i - at],
        i < at || at + src.len() <= i ==> overwritten(out, at, src)[i] == out[i],
{
}

} // verus!
